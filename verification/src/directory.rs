//! The directory itself: an association from department names to the list of
//! employee names added under each, in insertion order.

use vstd::prelude::*;

verus! {

/// One department: its name and its employees, oldest first.
struct Dept {
    name: String,
    employees: Vec<String>,
}

/// The views of a list of employee names, in the same order.
pub open spec fn names_of(v: Seq<String>) -> Seq<Seq<char>> {
    v.map_values(|s: String| s@)
}

/// The view of one department: its name and its employee names.
spec fn entry_of(d: Dept) -> (Seq<char>, Seq<Seq<char>>) {
    (d.name@, names_of(d.employees@))
}

/// The views of a list of departments, in the same order.
spec fn entries_of(s: Seq<Dept>) -> Seq<(Seq<char>, Seq<Seq<char>>)> {
    s.map_values(|d: Dept| entry_of(d))
}

/// No two entries share a department name.
pub open spec fn distinct_keys(s: Seq<(Seq<char>, Seq<Seq<char>>)>) -> bool {
    forall|i: int, j: int| 0 <= i < j < s.len() ==> s[i].0 != s[j].0
}

/// Some entry carries the department name `k`.
pub open spec fn has_key(s: Seq<(Seq<char>, Seq<Seq<char>>)>, k: Seq<char>) -> bool {
    exists|i: int| 0 <= i < s.len() && s[i].0 == k
}

/// The position of the entry that carries `k` (meaningful when `has_key`).
pub open spec fn key_index(s: Seq<(Seq<char>, Seq<Seq<char>>)>, k: Seq<char>) -> int {
    choose|i: int| 0 <= i < s.len() && s[i].0 == k
}

/// The employee names of the entry that carries `k`.
pub open spec fn entry_value(s: Seq<(Seq<char>, Seq<Seq<char>>)>, k: Seq<char>) -> Seq<Seq<char>> {
    s[key_index(s, k)].1
}

/// The entries read as a map from department name to employee names.
pub open spec fn map_of(s: Seq<(Seq<char>, Seq<Seq<char>>)>) -> Map<Seq<char>, Seq<Seq<char>>> {
    Map::new(|k: Seq<char>| has_key(s, k), |k: Seq<char>| entry_value(s, k))
}

/// All employee names of all entries, one department after the next.
pub open spec fn flat(s: Seq<(Seq<char>, Seq<Seq<char>>)>) -> Seq<Seq<char>>
    decreases s.len(),
{
    if s.len() == 0 {
        Seq::empty()
    } else {
        flat(s.drop_last()) + s.last().1
    }
}

/// The employee names held under `dept`, or the empty listing when `dept` is
/// not a department of the map `m`.
pub open spec fn dept_listing(m: Map<Seq<char>, Seq<Seq<char>>>, dept: Seq<char>) -> Seq<Seq<char>> {
    if m.dom().contains(dept) {
        m[dept]
    } else {
        Seq::empty()
    }
}

/// What adding `name` under `dept` does to a directory map: appends to the
/// department's listing when the department exists, and changes nothing when
/// it does not.
pub open spec fn add_to_dept(
    m: Map<Seq<char>, Seq<Seq<char>>>,
    dept: Seq<char>,
    name: Seq<char>,
) -> Map<Seq<char>, Seq<Seq<char>>> {
    if m.dom().contains(dept) {
        m.insert(dept, m[dept].push(name))
    } else {
        m
    }
}

/// The in-memory directory: a fixed set of departments, each with the
/// employee names added under it, in insertion order.
pub struct DB {
    department: Vec<Dept>,
}

impl View for DB {
    type V = Map<Seq<char>, Seq<Seq<char>>>;

    closed spec fn view(&self) -> Map<Seq<char>, Seq<Seq<char>>> {
        map_of(self.entries())
    }
}

impl DB {
    /// The departments and their employee lists, in the order they are held.
    pub closed spec fn entries(&self) -> Seq<(Seq<char>, Seq<Seq<char>>)> {
        entries_of(self.department@)
    }

    /// Each department name is held by exactly one entry.
    pub open spec fn wf(&self) -> bool {
        distinct_keys(self.entries())
    }

    /// Every employee name in the directory, one department after the next.
    pub open spec fn all_names(&self) -> Seq<Seq<char>> {
        flat(self.entries())
    }

    /// A directory with no departments at all.
    pub fn new() -> (db: DB)
        ensures
            db.wf(),
            db@ == Map::<Seq<char>, Seq<Seq<char>>>::empty(),
            db.all_names() == Seq::<Seq<char>>::empty(),
            db.entries() == Seq::<(Seq<char>, Seq<Seq<char>>)>::empty(),
    {
        let db = DB { department: Vec::new() };
        proof {
            assert(db.entries() =~= Seq::<(Seq<char>, Seq<Seq<char>>)>::empty());
            assert(db@ =~= Map::<Seq<char>, Seq<Seq<char>>>::empty());
        }
        db
    }

    /// Resets the directory to hold exactly the given department names, each
    /// with an empty employee list; whatever it held before is discarded.
    /// A name given twice counts once.
    pub fn seed_departments(&mut self, departments: Vec<String>)
        ensures
            final(self).wf(),
            forall|k: Seq<char>|
                #[trigger] final(self)@.dom().contains(k) <==> names_of(departments@).contains(k),
            forall|k: Seq<char>|
                #[trigger] final(self)@.dom().contains(k) ==> final(self)@[k] == Seq::<
                    Seq<char>,
                >::empty(),
            forall|d: Seq<char>|
                #[trigger] dept_listing(final(self)@, d) == Seq::<Seq<char>>::empty(),
            final(self).all_names() == Seq::<Seq<char>>::empty(),
    {
        let ghost names = names_of(departments@);
        let mut v: Vec<Dept> = Vec::new();
        let mut i: usize = 0;
        while i < departments.len()
            invariant
                i <= departments@.len(),
                names == names_of(departments@),
                distinct_keys(entries_of(v@)),
                forall|t: int|
                    0 <= t < v@.len() ==> entries_of(v@)[t].1 == Seq::<Seq<char>>::empty(),
                forall|k: Seq<char>|
                    #[trigger] has_key(entries_of(v@), k) <==> names.take(i as int).contains(k),
            decreases departments@.len() - i,
        {
            let ghost pre = v@;
            let name = &departments[i];
            let found = find_dept(&v, name);
            if found.is_none() {
                v.push(Dept { name: name.clone(), employees: Vec::new() });
                proof {
                    assert(names_of(Seq::<String>::empty()) =~= Seq::<Seq<char>>::empty());
                    assert(entries_of(v@) =~= entries_of(pre).push(
                        (name@, Seq::<Seq<char>>::empty()),
                    ));
                    assert(!has_key(entries_of(pre), names[i as int]));
                    lemma_seed_step(entries_of(pre), entries_of(v@), names, i as int);
                }
            } else {
                proof {
                    let j = found->Some_0;
                    assert(entries_of(pre)[j as int].0 == name@);
                    assert(has_key(entries_of(pre), names[i as int]));
                    lemma_seed_step(entries_of(pre), entries_of(v@), names, i as int);
                }
            }
            i += 1;
        }
        self.department = v;
        proof {
            assert(names.take(departments@.len() as int) =~= names);
            assert forall|k: Seq<char>| #[trigger] self@.dom().contains(k) implies self@[k]
                == Seq::<Seq<char>>::empty() by {
                let j = key_index(self.entries(), k);
                assert(0 <= j < self.entries().len() && self.entries()[j].0 == k);
            }
            lemma_flat_all_empty(self.entries());
        }
    }

    /// Appends `name` to the department named `department`; when no department
    /// carries that name, the directory is left exactly as it was.
    pub fn add_emp(&mut self, department: String, name: String)
        requires
            old(self).wf(),
        ensures
            final(self).wf(),
            final(self)@ == add_to_dept(old(self)@, department@, name@),
    {
        let found = find_dept(&self.department, &department);
        match found {
            Some(i) => {
                let ghost s0 = self.entries();
                let ghost olddepts = self.department@;
                let mut d = self.department.remove(i);
                d.employees.push(name);
                self.department.insert(i, d);
                proof {
                    assert(names_of(d.employees@) =~= names_of(olddepts[i as int].employees@).push(
                        name@,
                    ));
                    assert(self.department@ =~= olddepts.update(i as int, d));
                    assert(self.entries() =~= s0.update(
                        i as int,
                        (department@, s0[i as int].1.push(name@)),
                    ));
                    lemma_add_entry(s0, self.entries(), i as int, department@, name@);
                }
            },
            None => {
                proof {
                    assert(!self@.dom().contains(department@));
                }
            },
        }
    }

    /// Every employee name in the directory, one department after the next,
    /// each department's names in insertion order.
    pub fn get_all(&self) -> (r: Vec<String>)
        ensures
            names_of(r@) == self.all_names(),
    {
        let mut out: Vec<String> = Vec::new();
        let mut i: usize = 0;
        while i < self.department.len()
            invariant
                i <= self.department@.len(),
                names_of(out@) == flat(entries_of(self.department@).take(i as int)),
            decreases self.department@.len() - i,
        {
            let ghost pre = out@;
            let d = &self.department[i];
            let mut tmp = copy_names(&d.employees);
            out.append(&mut tmp);
            proof {
                let s = entries_of(self.department@);
                assert(s.take(i as int + 1).drop_last() =~= s.take(i as int));
                assert(names_of(out@) =~= names_of(pre) + names_of(d.employees@));
                assert(names_of(d.employees@) == s[i as int].1);
                assert(names_of(out@) == flat(s.take(i as int + 1)));
            }
            i += 1;
        }
        proof {
            assert(entries_of(self.department@).take(self.department@.len() as int) =~= entries_of(
                self.department@,
            ));
        }
        out
    }

    /// The employee names of the department named `department`, in insertion
    /// order, or an empty list when no department carries that name.
    pub fn get_all_by_dept(&self, department: String) -> (r: Vec<String>)
        requires
            self.wf(),
        ensures
            names_of(r@) == dept_listing(self@, department@),
    {
        let found = find_dept(&self.department, &department);
        match found {
            Some(i) => {
                let d = &self.department[i];
                let r = copy_names(&d.employees);
                proof {
                    lemma_key_index_of(self.entries(), i as int);
                }
                r
            },
            None => {
                let r: Vec<String> = Vec::new();
                proof {
                    assert(!self@.dom().contains(department@));
                    assert(names_of(r@) =~= Seq::<Seq<char>>::empty());
                }
                r
            },
        }
    }
}

/// With distinct keys, the entry at `i` is the one and only entry found for
/// its own key.
proof fn lemma_key_index_of(s: Seq<(Seq<char>, Seq<Seq<char>>)>, i: int)
    requires
        distinct_keys(s),
        0 <= i < s.len(),
    ensures
        has_key(s, s[i].0),
        key_index(s, s[i].0) == i,
        entry_value(s, s[i].0) == s[i].1,
{
    assert(has_key(s, s[i].0));
    let j = key_index(s, s[i].0);
    assert(0 <= j < s.len() && s[j].0 == s[i].0);
    if i < j {
        assert(s[i].0 != s[j].0);
    } else if j < i {
        assert(s[j].0 != s[i].0);
    }
}

/// When every entry holds no employees, the flattened listing is empty.
proof fn lemma_flat_all_empty(s: Seq<(Seq<char>, Seq<Seq<char>>)>)
    requires
        forall|i: int| 0 <= i < s.len() ==> s[i].1 == Seq::<Seq<char>>::empty(),
    ensures
        flat(s) == Seq::<Seq<char>>::empty(),
    decreases s.len(),
{
    if s.len() == 0 {
        assert(flat(s) =~= Seq::<Seq<char>>::empty());
    } else {
        lemma_flat_all_empty(s.drop_last());
        assert(s.last().1 == Seq::<Seq<char>>::empty());
        assert(flat(s) =~= Seq::<Seq<char>>::empty());
    }
}

/// A name stands in the flattened listing exactly when some entry holds it.
proof fn lemma_flat_contains(s: Seq<(Seq<char>, Seq<Seq<char>>)>, n: Seq<char>)
    ensures
        flat(s).contains(n) <==> exists|i: int| 0 <= i < s.len() && #[trigger] s[i].1.contains(n),
    decreases s.len(),
{
    if s.len() > 0 {
        let dl = s.drop_last();
        lemma_flat_contains(dl, n);
        if flat(s).contains(n) {
            let k = choose|k: int| 0 <= k < flat(s).len() && flat(s)[k] == n;
            if k < flat(dl).len() {
                assert(flat(dl)[k] == n);
                let i = choose|i: int| 0 <= i < dl.len() && #[trigger] dl[i].1.contains(n);
                assert(s[i].1.contains(n));
            } else {
                assert(s.last().1[k - flat(dl).len()] == n);
                assert(s[s.len() - 1].1.contains(n));
            }
        }
        if exists|i: int| 0 <= i < s.len() && #[trigger] s[i].1.contains(n) {
            let i = choose|i: int| 0 <= i < s.len() && #[trigger] s[i].1.contains(n);
            if i < s.len() - 1 {
                assert(dl[i].1.contains(n));
                let k = choose|k: int| 0 <= k < flat(dl).len() && flat(dl)[k] == n;
                assert(flat(s)[k] == n);
            } else {
                let t = choose|t: int| 0 <= t < s.last().1.len() && s.last().1[t] == n;
                assert(flat(s)[flat(dl).len() + t] == n);
            }
        }
    }
}

/// A name is listed by the whole directory exactly when some department's
/// listing holds it.
pub proof fn lemma_listing_membership(db: DB, n: Seq<char>)
    requires
        db.wf(),
    ensures
        db.all_names().contains(n) <==> exists|d: Seq<char>|
            #[trigger] db@.dom().contains(d) && db@[d].contains(n),
{
    let s = db.entries();
    lemma_flat_contains(s, n);
    if exists|i: int| 0 <= i < s.len() && #[trigger] s[i].1.contains(n) {
        let i = choose|i: int| 0 <= i < s.len() && #[trigger] s[i].1.contains(n);
        lemma_key_index_of(s, i);
        assert(db@.dom().contains(s[i].0) && db@[s[i].0].contains(n));
    }
    if exists|d: Seq<char>| #[trigger] db@.dom().contains(d) && db@[d].contains(n) {
        let d = choose|d: Seq<char>| #[trigger] db@.dom().contains(d) && db@[d].contains(n);
        let j = key_index(s, d);
        assert(0 <= j < s.len() && s[j].0 == d);
        assert(s[j].1.contains(n));
    }
}

/// Adding under an unknown department name leaves the directory as it was,
/// and an unknown department's listing is empty.
pub proof fn lemma_add_unknown_no_op(
    m: Map<Seq<char>, Seq<Seq<char>>>,
    dept: Seq<char>,
    name: Seq<char>,
)
    requires
        !m.dom().contains(dept),
    ensures
        add_to_dept(m, dept, name) == m,
        dept_listing(m, dept) == Seq::<Seq<char>>::empty(),
{
}

/// Adding under a known department appends the name to that department's
/// listing, touches no other department, and makes the name appear in the
/// company-wide listing.
pub proof fn lemma_add_employee_listed(pre: DB, post: DB, dept: Seq<char>, name: Seq<char>)
    requires
        post.wf(),
        pre@.dom().contains(dept),
        post@ == add_to_dept(pre@, dept, name),
    ensures
        post@.dom() =~= pre@.dom(),
        post@[dept] == pre@[dept].push(name),
        forall|d: Seq<char>| pre@.dom().contains(d) && d != dept ==> post@[d] == pre@[d],
        post.all_names().contains(name),
{
    assert(post@[dept][pre@[dept].len() as int] == name);
    assert(post@[dept].contains(name));
    lemma_listing_membership(post, name);
    assert(post@.dom().contains(dept) && post@[dept].contains(name));
}

/// Listing does not change the directory, so asking again gives the same
/// answer: any two results that a directory's state admits for the whole
/// listing agree, and likewise for one department's listing.
pub proof fn lemma_listing_idempotent(
    db: DB,
    r1: Seq<String>,
    r2: Seq<String>,
    q1: Seq<String>,
    q2: Seq<String>,
    dept: Seq<char>,
)
    requires
        names_of(r1) == db.all_names(),
        names_of(r2) == db.all_names(),
        names_of(q1) == dept_listing(db@, dept),
        names_of(q2) == dept_listing(db@, dept),
    ensures
        names_of(r1) == names_of(r2),
        names_of(q1) == names_of(q2),
{
}

/// One step of seeding: pushing a not-yet-seen name (and skipping a seen one)
/// keeps the keys distinct, the listings empty, and the key set equal to the
/// names handled so far.
proof fn lemma_seed_step(
    s0: Seq<(Seq<char>, Seq<Seq<char>>)>,
    s1: Seq<(Seq<char>, Seq<Seq<char>>)>,
    names: Seq<Seq<char>>,
    i: int,
)
    requires
        0 <= i < names.len(),
        distinct_keys(s0),
        forall|t: int| 0 <= t < s0.len() ==> s0[t].1 == Seq::<Seq<char>>::empty(),
        forall|k: Seq<char>| #[trigger] has_key(s0, k) <==> names.take(i).contains(k),
        if has_key(s0, names[i]) {
            s1 == s0
        } else {
            s1 == s0.push((names[i], Seq::<Seq<char>>::empty()))
        },
    ensures
        distinct_keys(s1),
        forall|t: int| 0 <= t < s1.len() ==> s1[t].1 == Seq::<Seq<char>>::empty(),
        forall|k: Seq<char>| #[trigger] has_key(s1, k) <==> names.take(i + 1).contains(k),
{
    let key = names[i];
    assert forall|k: Seq<char>| names.take(i + 1).contains(k) implies (names.take(i).contains(k)
        || k == key) by {
        let t = choose|t: int| 0 <= t < names.take(i + 1).len() && #[trigger] names.take(i + 1)[t] == k;
        if t < i {
            assert(names.take(i)[t] == k);
        }
    }
    assert forall|k: Seq<char>| names.take(i).contains(k) implies names.take(i + 1).contains(
        k,
    ) by {
        let t = choose|t: int| 0 <= t < names.take(i).len() && #[trigger] names.take(i)[t] == k;
        assert(names.take(i + 1)[t] == k);
    }
    assert(names.take(i + 1).contains(key)) by {
        assert(names.take(i + 1)[i] == key);
    }
    if has_key(s0, key) {
        assert(s1 == s0);
    } else {
        assert forall|t: int| 0 <= t < s0.len() implies s0[t].0 != key by {
            if s0[t].0 == key {
                assert(has_key(s0, key));
            }
        }
        assert forall|a: int, b: int| 0 <= a < b < s1.len() implies s1[a].0 != s1[b].0 by {
            if b < s0.len() {
                assert(s0[a].0 != s0[b].0);
            } else {
                assert(s1[b].0 == key && s1[a].0 == s0[a].0);
            }
        }
        assert forall|k: Seq<char>| #[trigger] has_key(s1, k) implies (has_key(s0, k) || k
            == key) by {
            let j = choose|j: int| 0 <= j < s1.len() && s1[j].0 == k;
            if j < s0.len() {
                assert(s0[j].0 == k);
            }
        }
        assert forall|k: Seq<char>| has_key(s0, k) implies has_key(s1, k) by {
            let j = choose|j: int| 0 <= j < s0.len() && s0[j].0 == k;
            assert(s1[j].0 == k);
        }
        assert(has_key(s1, key)) by {
            assert(s1[s0.len() as int].0 == key);
        }
    }
}

/// Replacing the entry at `i` by the same key with `name` appended turns the
/// map view into a point update of that key.
proof fn lemma_add_entry(
    s0: Seq<(Seq<char>, Seq<Seq<char>>)>,
    s1: Seq<(Seq<char>, Seq<Seq<char>>)>,
    i: int,
    dept: Seq<char>,
    name: Seq<char>,
)
    requires
        distinct_keys(s0),
        0 <= i < s0.len(),
        s0[i].0 == dept,
        s1 == s0.update(i, (dept, s0[i].1.push(name))),
    ensures
        distinct_keys(s1),
        map_of(s1) == add_to_dept(map_of(s0), dept, name),
{
    assert forall|a: int, b: int| 0 <= a < b < s1.len() implies s1[a].0 != s1[b].0 by {
        assert(s1[a].0 == s0[a].0 && s1[b].0 == s0[b].0);
    }
    lemma_key_index_of(s0, i);
    lemma_key_index_of(s1, i);
    assert(map_of(s0).dom().contains(dept));
    assert forall|k: Seq<char>| #[trigger] has_key(s1, k) == has_key(s0, k) by {
        if has_key(s1, k) {
            let j = choose|j: int| 0 <= j < s1.len() && s1[j].0 == k;
            assert(s0[j].0 == k);
        }
        if has_key(s0, k) {
            let j = choose|j: int| 0 <= j < s0.len() && s0[j].0 == k;
            assert(s1[j].0 == k);
        }
    }
    assert forall|k: Seq<char>| #[trigger] has_key(s1, k) && k != dept implies entry_value(s1, k)
        == entry_value(s0, k) by {
        let j = key_index(s1, k);
        assert(0 <= j < s1.len() && s1[j].0 == k);
        assert(j != i);
        assert(s0[j].0 == k && s1[j].1 == s0[j].1);
        lemma_key_index_of(s0, j);
        lemma_key_index_of(s1, j);
    }
    assert(entry_value(s1, dept) == s0[i].1.push(name));
    assert(entry_value(s0, dept) == s0[i].1);
    assert(map_of(s1) =~= add_to_dept(map_of(s0), dept, name));
}

/// The position of the department named `name`, or `None` when no entry
/// carries that name.
fn find_dept(v: &Vec<Dept>, name: &String) -> (r: Option<usize>)
    ensures
        match r {
            Some(i) => i < v@.len() && entries_of(v@)[i as int].0 == name@,
            None => forall|j: int| 0 <= j < v@.len() ==> entries_of(v@)[j].0 != name@,
        },
{
    let mut i: usize = 0;
    while i < v.len()
        invariant
            i <= v@.len(),
            forall|j: int| 0 <= j < i ==> entries_of(v@)[j].0 != name@,
        decreases v@.len() - i,
    {
        let d = &v[i];
        if d.name == *name {
            return Some(i);
        }
        i += 1;
    }
    None
}

/// A fresh list holding the same names in the same order.
fn copy_names(v: &Vec<String>) -> (r: Vec<String>)
    ensures
        r@ == v@,
{
    let mut r: Vec<String> = Vec::new();
    let mut i: usize = 0;
    while i < v.len()
        invariant
            i <= v@.len(),
            r@ == v@.take(i as int),
        decreases v@.len() - i,
    {
        r.push(v[i].clone());
        proof {
            assert(r@ =~= v@.take(i as int + 1));
        }
        i += 1;
    }
    proof {
        assert(v@.take(v@.len() as int) =~= v@);
    }
    r
}

/// The fixed department names the directory is seeded with at startup.
pub fn departments() -> (r: Vec<String>)
    ensures
        r@.len() == 3,
        r@[0]@ == "Engineering"@,
        r@[1]@ == "Sales"@,
        r@[2]@ == "Finance"@,
{
    let mut r: Vec<String> = Vec::new();
    r.push(String::from_str("Engineering"));
    r.push(String::from_str("Sales"));
    r.push(String::from_str("Finance"));
    r
}

} // verus!
