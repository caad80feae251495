//! The directory store: an in-memory mapping from person name to department
//! name, driven by free-text add commands and queried by department or as a
//! sorted listing of everyone.

use vstd::prelude::*;
use vstd::map::*;
use crate::parse::get_name_and_department;
use crate::parse::parse_add;
use crate::text::lemma_lex_total;
use crate::text::lemma_lex_trans;
use crate::text::lex_lt;
use crate::text::str_eq;
use crate::text::str_lex_lt;

verus! {

/// One directory entry: a person and the department they currently belong to.
pub struct Entry {
    pub name: String,
    pub department: String,
}

/// The department recorded beside the entry whose name reads `k`.
spec fn entry_department(es: Seq<Entry>, k: Seq<char>) -> Seq<char> {
    let i = choose|i: int| 0 <= i < es.len() && es[i].name@ == k;
    es[i].department@
}

/// Names are pairwise distinct in `es`.
spec fn distinct_names(es: Seq<Entry>) -> bool {
    forall|i: int, j: int| 0 <= i < j < es.len() ==> es[i].name@ != es[j].name@
}

/// With distinct names, any entry whose name reads `k` fixes the department
/// that `entry_department` yields.
proof fn lemma_entry_department(es: Seq<Entry>, k: Seq<char>, i: int)
    requires
        distinct_names(es),
        0 <= i < es.len(),
        es[i].name@ == k,
    ensures
        entry_department(es, k) == es[i].department@,
{
    let j = choose|j: int| 0 <= j < es.len() && es[j].name@ == k;
    assert(0 <= j < es.len() && es[j].name@ == k);
    if i != j {
        assert(es[i].name@ != es[j].name@);
    }
}

/// An in-memory directory from person name to department name. A later add
/// for a name already present overwrites its department.
pub struct Directory {
    entries: Vec<Entry>,
}

impl View for Directory {
    type V = Map<Seq<char>, Seq<char>>;

    /// The mapping the directory holds: each recorded name to its current
    /// department.
    closed spec fn view(&self) -> Map<Seq<char>, Seq<char>> {
        Map::new(
            |k: Seq<char>| exists|i: int| 0 <= i < self.entries@.len() && self.entries@[i].name@ == k,
            |k: Seq<char>| entry_department(self.entries@, k),
        )
    }
}

impl Directory {
    /// Every name present has exactly one current department.
    pub closed spec fn wf(self) -> bool {
        distinct_names(self.entries@)
    }

    /// Creates an empty directory.
    pub fn new() -> (d: Directory)
        ensures
            d.wf(),
            d@ == Map::<Seq<char>, Seq<char>>::empty(),
    {
        let d = Directory { entries: Vec::new() };
        proof {
            assert(d@ =~= Map::<Seq<char>, Seq<char>>::empty());
        }
        d
    }

    /// Records that `name` now belongs to `department`, overwriting any
    /// earlier department for the same name.
    pub fn insert(&mut self, name: String, department: String)
        requires
            old(self).wf(),
        ensures
            final(self).wf(),
            final(self)@ == old(self)@.insert(name@, department@),
    {
        let ghost es0 = self.entries@;
        let n = self.entries.len();
        let mut i: usize = 0;
        while i < n
            invariant
                self == old(self),
                old(self).wf(),
                es0 == self.entries@,
                n == self.entries@.len(),
                i <= n,
                forall|j: int| 0 <= j < i ==> self.entries@[j].name@ != name@,
            decreases n - i,
        {
            if str_eq(self.entries[i].name.as_str(), name.as_str()) {
                let replaced = Entry { name, department };
                let ghost e1 = replaced;
                self.entries.remove(i);
                self.entries.insert(i, replaced);
                proof {
                    let esr = es0.remove(i as int);
                    es0.remove_ensures(i as int);
                    esr.insert_ensures(i as int, e1);
                    assert(self.entries@ =~= es0.update(i as int, e1));
                    assert(forall|a: int|
                        0 <= a < es0.len() ==> self.entries@[a].name@ == es0[a].name@);
                    assert(self.wf());
                    lemma_directory_update(es0, self.entries@, i as int, e1);
                    assert(self@ == old(self)@.insert(e1.name@, e1.department@));
                }
                return;
            }
            i = i + 1;
        }
        let ghost nm = name@;
        let ghost dp = department@;
        self.entries.push(Entry { name, department });
        proof {
            assert(self.entries@ =~= es0.push(self.entries@[es0.len() as int]));
            assert(self.entries@[es0.len() as int].name@ == nm);
            assert(self.entries@[es0.len() as int].department@ == dp);
            assert(forall|a: int| 0 <= a < es0.len() ==> self.entries@[a] == es0[a]);
            assert(self.wf());
            lemma_directory_push(es0, self.entries@, nm, dp);
            assert(self@ =~= old(self)@.insert(nm, dp));
        }
    }

    /// Applies a raw add command: parses the free text and records the
    /// captured (name, department) pair, which is also handed back.
    pub fn add(&mut self, raw: &str) -> (r: (String, String))
        requires
            old(self).wf(),
        ensures
            final(self).wf(),
            (r.0@, r.1@) == parse_add(raw@),
            final(self)@ == old(self)@.insert(parse_add(raw@).0, parse_add(raw@).1),
    {
        let (name, department) = get_name_and_department(raw);
        let r = (name.clone(), department.clone());
        self.insert(name, department);
        r
    }

    /// The names recorded under `dept`, each exactly once, in no promised
    /// order.
    pub fn list_by_department(&self, dept: &str) -> (names: Vec<String>)
        requires
            self.wf(),
        ensures
            forall|l: int|
                0 <= l < names@.len() ==> self@.contains_key(#[trigger] names@[l]@) && self@[names@[l]@]
                    == dept@,
            forall|k: Seq<char>|
                self@.contains_key(k) && self@[k] == dept@ ==> exists|l: int|
                    0 <= l < names@.len() && #[trigger] names@[l]@ == k,
            forall|l1: int, l2: int| 0 <= l1 < l2 < names@.len() ==> names@[l1]@ != names@[l2]@,
    {
        let ghost es = self.entries@;
        let mut names: Vec<String> = Vec::new();
        let n = self.entries.len();
        let mut i: usize = 0;
        while i < n
            invariant
                self.wf(),
                es == self.entries@,
                n == es.len(),
                i <= n,
                forall|l: int|
                    0 <= l < names@.len() ==> exists|j: int|
                        0 <= j < i && #[trigger] names@[l]@ == es[j].name@ && es[j].department@
                            == dept@,
                forall|j: int|
                    0 <= j < i && es[j].department@ == dept@ ==> exists|l: int|
                        0 <= l < names@.len() && names@[l]@ == #[trigger] es[j].name@,
                forall|l1: int, l2: int| 0 <= l1 < l2 < names@.len() ==> names@[l1]@ != names@[l2]@,
            decreases n - i,
        {
            if str_eq(self.entries[i].department.as_str(), dept) {
                let ghost before = names@;
                names.push(self.entries[i].name.clone());
                proof {
                    assert(names@ == before.push(names@[before.len() as int]));
                    assert(names@[before.len() as int]@ == es[i as int].name@);
                    assert(forall|l: int| 0 <= l < before.len() ==> names@[l] == before[l]);
                    assert forall|l1: int, l2: int|
                        0 <= l1 < l2 < names@.len() implies names@[l1]@ != names@[l2]@ by {
                        if l2 == before.len() {
                            let j = choose|j: int|
                                0 <= j < i && before[l1]@ == es[j].name@ && es[j].department@
                                    == dept@;
                            assert(es[j].name@ != es[i as int].name@);
                        }
                    }
                }
            }
            i = i + 1;
        }
        proof {
            assert forall|l: int|
                0 <= l < names@.len() implies self@.contains_key(#[trigger] names@[l]@)
                    && self@[names@[l]@] == dept@ by {
                let j = choose|j: int|
                    0 <= j < n && names@[l]@ == es[j].name@ && es[j].department@ == dept@;
                lemma_entry_department(es, names@[l]@, j);
            }
            assert forall|k: Seq<char>|
                self@.contains_key(k) && self@[k] == dept@ implies exists|l: int|
                    0 <= l < names@.len() && #[trigger] names@[l]@ == k by {
                let j = choose|j: int| 0 <= j < es.len() && es[j].name@ == k;
                lemma_entry_department(es, k, j);
                assert(es[j].department@ == dept@);
                assert(exists|l: int| 0 <= l < names@.len() && names@[l]@ == es[j].name@);
            }
        }
        names
    }

    /// Everyone in the directory, each name exactly once, in strictly
    /// ascending lexicographic order whatever the order of the adds.
    #[verifier::rlimit(60)]
    pub fn list_all(&self) -> (names: Vec<String>)
        requires
            self.wf(),
        ensures
            forall|l1: int, l2: int|
                0 <= l1 < l2 < names@.len() ==> lex_lt(names@[l1]@, names@[l2]@),
            forall|l: int| 0 <= l < names@.len() ==> self@.contains_key(#[trigger] names@[l]@),
            forall|k: Seq<char>|
                self@.contains_key(k) ==> exists|l: int|
                    0 <= l < names@.len() && #[trigger] names@[l]@ == k,
    {
        let ghost es = self.entries@;
        let mut names: Vec<String> = Vec::new();
        let n = self.entries.len();
        let mut i: usize = 0;
        while i < n
            invariant
                self.wf(),
                es == self.entries@,
                n == es.len(),
                i <= n,
                forall|l1: int, l2: int|
                    0 <= l1 < l2 < names@.len() ==> lex_lt(names@[l1]@, names@[l2]@),
                forall|l: int|
                    0 <= l < names@.len() ==> exists|j: int|
                        0 <= j < i && #[trigger] names@[l]@ == es[j].name@,
                forall|j: int|
                    0 <= j < i ==> exists|l: int|
                        0 <= l < names@.len() && names@[l]@ == #[trigger] es[j].name@,
            decreases n - i,
        {
            let x = self.entries[i].name.clone();
            proof {
                assert forall|l: int| 0 <= l < names@.len() implies names@[l]@ != x@ by {
                    let j = choose|j: int| 0 <= j < i && names@[l]@ == es[j].name@;
                    assert(es[j].name@ != es[i as int].name@);
                }
            }
            let ghost before = names@;
            insert_sorted(&mut names, x);
            proof {
                assert forall|l: int| 0 <= l < names@.len() implies exists|j: int|
                    0 <= j < i + 1 && #[trigger] names@[l]@ == es[j].name@ by {
                    if names@[l]@ == es[i as int].name@ {
                        assert(0 <= i < i + 1 && names@[l]@ == es[i as int].name@);
                    } else {
                        let l0 = choose|l0: int|
                            0 <= l0 < before.len() && names@[l]@ == before[l0]@;
                        let j = choose|j: int| 0 <= j < i && before[l0]@ == es[j].name@;
                        assert(0 <= j < i + 1 && names@[l]@ == es[j].name@);
                    }
                }
                assert forall|j: int| 0 <= j < i + 1 implies exists|l: int|
                    0 <= l < names@.len() && names@[l]@ == #[trigger] es[j].name@ by {
                    if j < i {
                        let l0 = choose|l0: int|
                            0 <= l0 < before.len() && before[l0]@ == es[j].name@;
                        assert(exists|l: int|
                            0 <= l < names@.len() && names@[l]@ == before[l0]@);
                    } else {
                        assert(exists|l: int| 0 <= l < names@.len() && names@[l]@ == x@);
                    }
                }
            }
            i = i + 1;
        }
        proof {
            assert forall|l: int|
                0 <= l < names@.len() implies self@.contains_key(#[trigger] names@[l]@) by {
                let j = choose|j: int| 0 <= j < n && names@[l]@ == es[j].name@;
            }
            assert forall|k: Seq<char>| self@.contains_key(k) implies exists|l: int|
                0 <= l < names@.len() && #[trigger] names@[l]@ == k by {
                let j = choose|j: int| 0 <= j < es.len() && es[j].name@ == k;
                assert(exists|l: int| 0 <= l < names@.len() && names@[l]@ == es[j].name@);
            }
        }
        names
    }

    /// Every (name, department) pair the directory currently holds, each name
    /// exactly once, in no promised order.
    pub fn pairs(&self) -> (r: Vec<(String, String)>)
        requires
            self.wf(),
        ensures
            forall|l: int|
                0 <= l < r@.len() ==> self@.contains_key(#[trigger] r@[l].0@) && self@[r@[l].0@]
                    == r@[l].1@,
            forall|k: Seq<char>|
                self@.contains_key(k) ==> exists|l: int|
                    0 <= l < r@.len() && #[trigger] r@[l].0@ == k,
            forall|l1: int, l2: int| 0 <= l1 < l2 < r@.len() ==> r@[l1].0@ != r@[l2].0@,
    {
        let ghost es = self.entries@;
        let mut r: Vec<(String, String)> = Vec::new();
        let n = self.entries.len();
        let mut i: usize = 0;
        while i < n
            invariant
                self.wf(),
                es == self.entries@,
                n == es.len(),
                i <= n,
                r@.len() == i,
                forall|l: int|
                    0 <= l < i ==> #[trigger] r@[l].0@ == es[l].name@ && r@[l].1@
                        == es[l].department@,
            decreases n - i,
        {
            r.push((self.entries[i].name.clone(), self.entries[i].department.clone()));
            i = i + 1;
        }
        proof {
            assert forall|l: int|
                0 <= l < r@.len() implies self@.contains_key(#[trigger] r@[l].0@) && self@[r@[l].0@]
                    == r@[l].1@ by {
                lemma_entry_department(es, r@[l].0@, l);
            }
            assert forall|k: Seq<char>| self@.contains_key(k) implies exists|l: int|
                0 <= l < r@.len() && #[trigger] r@[l].0@ == k by {
                let j = choose|j: int| 0 <= j < es.len() && es[j].name@ == k;
                assert(r@[j].0@ == k);
            }
        }
        r
    }
}

/// Pointwise description of a sequence with one element inserted at `pos`.
proof fn lemma_insert_seq_facts(before: Seq<String>, after: Seq<String>, pos: int, xe: String)
    requires
        0 <= pos <= before.len(),
        after == before.insert(pos, xe),
    ensures
        after.len() == before.len() + 1,
        forall|l: int| 0 <= l < pos ==> after[l] == before[l],
        after[pos] == xe,
        forall|l: int| pos < l < after.len() ==> after[l] == before[l - 1],
{
    before.insert_ensures(pos, xe);
    assert forall|l: int| pos < l < after.len() implies after[l] == before[l - 1] by {
        assert(before.insert(pos, xe)[l - 1 + 1] == before[l - 1]);
    }
}

/// Inserting a fresh name at its place keeps a strictly ascending sequence
/// strictly ascending and adds exactly that name.
proof fn lemma_sorted_insert_props(before: Seq<String>, after: Seq<String>, pos: int, xe: String)
    requires
        0 <= pos <= before.len(),
        after.len() == before.len() + 1,
        forall|l: int| 0 <= l < pos ==> after[l] == before[l],
        after[pos] == xe,
        forall|l: int| pos < l < after.len() ==> after[l] == before[l - 1],
        forall|l1: int, l2: int|
            0 <= l1 < l2 < before.len() ==> lex_lt(before[l1]@, before[l2]@),
        forall|l: int| 0 <= l < pos ==> lex_lt(before[l]@, xe@),
        forall|l: int| pos <= l < before.len() ==> lex_lt(xe@, before[l]@),
    ensures
        forall|l1: int, l2: int| 0 <= l1 < l2 < after.len() ==> lex_lt(after[l1]@, after[l2]@),
        exists|l: int| 0 <= l < after.len() && after[l]@ == xe@,
        forall|l: int|
            0 <= l < after.len() ==> after[l]@ == xe@ || exists|l0: int|
                0 <= l0 < before.len() && after[l]@ == before[l0]@,
        forall|l0: int|
            0 <= l0 < before.len() ==> exists|l: int|
                0 <= l < after.len() && after[l]@ == #[trigger] before[l0]@,
{
    assert forall|l1: int, l2: int|
        0 <= l1 < l2 < after.len() implies lex_lt(after[l1]@, after[l2]@) by {
        if l1 < pos && l2 == pos {
        } else if l1 == pos && pos < l2 {
        } else if l1 < pos && pos < l2 {
        } else if pos < l1 {
        }
    }
    assert(after[pos]@ == xe@);
    assert forall|l: int|
        0 <= l < after.len() && after[l]@ != xe@ implies exists|l0: int|
        0 <= l0 < before.len() && after[l]@ == before[l0]@ by {
        if l < pos {
            assert(after[l]@ == before[l]@);
        } else if l > pos {
            assert(after[l]@ == before[l - 1]@);
        }
    }
    assert forall|l0: int| 0 <= l0 < before.len() implies exists|l: int|
        0 <= l < after.len() && after[l]@ == #[trigger] before[l0]@ by {
        if l0 < pos {
            assert(after[l0]@ == before[l0]@);
        } else {
            assert(after[l0 + 1]@ == before[l0]@);
        }
    }
}

/// Inserts `x` at its place in a strictly ascending vector of names that does
/// not yet hold it; the result is again strictly ascending and holds exactly
/// the old names and `x`.
fn insert_sorted(names: &mut Vec<String>, x: String)
    requires
        forall|l1: int, l2: int|
            0 <= l1 < l2 < old(names)@.len() ==> lex_lt(old(names)@[l1]@, old(names)@[l2]@),
        forall|l: int| 0 <= l < old(names)@.len() ==> old(names)@[l]@ != x@,
    ensures
        final(names)@.len() == old(names)@.len() + 1,
        forall|l1: int, l2: int|
            0 <= l1 < l2 < final(names)@.len() ==> lex_lt(final(names)@[l1]@, final(names)@[l2]@),
        exists|l: int| 0 <= l < final(names)@.len() && final(names)@[l]@ == x@,
        forall|l: int|
            0 <= l < final(names)@.len() ==> final(names)@[l]@ == x@ || exists|l0: int|
                0 <= l0 < old(names)@.len() && final(names)@[l]@ == old(names)@[l0]@,
        forall|l0: int|
            0 <= l0 < old(names)@.len() ==> exists|l: int|
                0 <= l < final(names)@.len() && final(names)@[l]@ == #[trigger] old(
                    names,
                )@[l0]@,
{
    let m = names.len();
    let mut pos: usize = 0;
    while pos < m && str_lex_lt(names[pos].as_str(), x.as_str())
        invariant
            names@ == old(names)@,
            m == names@.len(),
            pos <= m,
            forall|l1: int, l2: int|
                0 <= l1 < l2 < names@.len() ==> lex_lt(names@[l1]@, names@[l2]@),
            forall|l: int| 0 <= l < names@.len() ==> names@[l]@ != x@,
            forall|l: int| 0 <= l < pos ==> lex_lt(#[trigger] names@[l]@, x@),
        decreases m - pos,
    {
        pos = pos + 1;
    }
    proof {
        assert forall|l: int| pos <= l < names@.len() implies lex_lt(x@, names@[l]@) by {
            lemma_lex_total(x@, names@[pos as int]@);
            assert(lex_lt(x@, names@[pos as int]@));
            if l > pos {
                lemma_lex_trans(x@, names@[pos as int]@, names@[l]@);
            }
        }
    }
    let ghost before = names@;
    let ghost xe = x;
    names.insert(pos, x);
    proof {
        lemma_insert_seq_facts(before, names@, pos as int, xe);
        lemma_sorted_insert_props(before, names@, pos as int, xe);
    }
}

/// After overwriting the entry at `i` with one that carries the same name,
/// the directory mapping is the old one with that name re-inserted.
proof fn lemma_directory_update(es0: Seq<Entry>, es1: Seq<Entry>, i: int, e: Entry)
    requires
        distinct_names(es0),
        0 <= i < es0.len(),
        es0[i].name@ == e.name@,
        es1 == es0.update(i, e),
    ensures
        Map::new(
            |k: Seq<char>| exists|a: int| 0 <= a < es1.len() && es1[a].name@ == k,
            |k: Seq<char>| entry_department(es1, k),
        ) == Map::new(
            |k: Seq<char>| exists|a: int| 0 <= a < es0.len() && es0[a].name@ == k,
            |k: Seq<char>| entry_department(es0, k),
        ).insert(e.name@, e.department@),
{
    let m1 = Map::new(
        |k: Seq<char>| exists|a: int| 0 <= a < es1.len() && es1[a].name@ == k,
        |k: Seq<char>| entry_department(es1, k),
    );
    let m0 = Map::new(
        |k: Seq<char>| exists|a: int| 0 <= a < es0.len() && es0[a].name@ == k,
        |k: Seq<char>| entry_department(es0, k),
    );
    assert(forall|a: int| 0 <= a < es0.len() ==> es1[a].name@ == es0[a].name@);
    assert(distinct_names(es1));
    assert forall|k: Seq<char>| m1.dom().contains(k) implies m0.insert(
        e.name@,
        e.department@,
    ).dom().contains(k) by {
        let a = choose|a: int| 0 <= a < es1.len() && es1[a].name@ == k;
        if k != e.name@ {
            assert(es0[a].name@ == k);
        }
    }
    assert forall|k: Seq<char>| m0.insert(e.name@, e.department@).dom().contains(
        k,
    ) implies m1.dom().contains(k) by {
        if k == e.name@ {
            assert(es1[i].name@ == k);
        } else {
            let a = choose|a: int| 0 <= a < es0.len() && es0[a].name@ == k;
            assert(es1[a].name@ == k);
        }
    }
    assert forall|k: Seq<char>| m1.dom().contains(k) implies m1[k] == m0.insert(
        e.name@,
        e.department@,
    )[k] by {
        if k == e.name@ {
            lemma_entry_department(es1, k, i);
        } else {
            let a = choose|a: int| 0 <= a < es1.len() && es1[a].name@ == k;
            assert(a != i);
            assert(es0[a].name@ == k);
            lemma_entry_department(es1, k, a);
            lemma_entry_department(es0, k, a);
        }
    }
    assert(m1 =~= m0.insert(e.name@, e.department@));
}

/// Appending an entry whose name is new inserts that name into the mapping.
proof fn lemma_directory_push(es0: Seq<Entry>, es1: Seq<Entry>, nm: Seq<char>, dp: Seq<char>)
    requires
        distinct_names(es1),
        es1.len() == es0.len() + 1,
        forall|a: int| 0 <= a < es0.len() ==> es1[a] == es0[a],
        es1[es0.len() as int].name@ == nm,
        es1[es0.len() as int].department@ == dp,
    ensures
        Map::new(
            |k: Seq<char>| exists|a: int| 0 <= a < es1.len() && es1[a].name@ == k,
            |k: Seq<char>| entry_department(es1, k),
        ) == Map::new(
            |k: Seq<char>| exists|a: int| 0 <= a < es0.len() && es0[a].name@ == k,
            |k: Seq<char>| entry_department(es0, k),
        ).insert(nm, dp),
{
    let m1 = Map::new(
        |k: Seq<char>| exists|a: int| 0 <= a < es1.len() && es1[a].name@ == k,
        |k: Seq<char>| entry_department(es1, k),
    );
    let m0 = Map::new(
        |k: Seq<char>| exists|a: int| 0 <= a < es0.len() && es0[a].name@ == k,
        |k: Seq<char>| entry_department(es0, k),
    );
    let last = es0.len() as int;
    assert(distinct_names(es0));
    assert forall|k: Seq<char>| m1.dom().contains(k) implies m0.insert(nm, dp).dom().contains(
        k,
    ) by {
        let a = choose|a: int| 0 <= a < es1.len() && es1[a].name@ == k;
        if k != nm {
            assert(a != last);
            assert(es0[a].name@ == k);
        }
    }
    assert forall|k: Seq<char>| m0.insert(nm, dp).dom().contains(k) implies m1.dom().contains(
        k,
    ) by {
        if k == nm {
            assert(es1[last].name@ == k);
        } else {
            let a = choose|a: int| 0 <= a < es0.len() && es0[a].name@ == k;
            assert(es1[a].name@ == k);
        }
    }
    assert forall|k: Seq<char>| m1.dom().contains(k) implies m1[k] == m0.insert(nm, dp)[k] by {
        if k == nm {
            lemma_entry_department(es1, k, last);
        } else {
            let a = choose|a: int| 0 <= a < es1.len() && es1[a].name@ == k;
            assert(a != last);
            assert(es0[a].name@ == k);
            lemma_entry_department(es1, k, a);
            lemma_entry_department(es0, k, a);
        }
    }
    assert(m1 =~= m0.insert(nm, dp));
}

/// The mapping that a sequence of (name, department) adds builds up from the
/// empty directory, later adds overwriting earlier ones.
pub open spec fn directory_after(adds: Seq<(Seq<char>, Seq<char>)>) -> Map<Seq<char>, Seq<char>>
    decreases adds.len(),
{
    if adds.len() == 0 {
        Map::empty()
    } else {
        directory_after(adds.drop_last()).insert(adds.last().0, adds.last().1)
    }
}

/// The department named by the most recent add for `name`, if any add named
/// it at all.
pub open spec fn latest_department(adds: Seq<(Seq<char>, Seq<char>)>, name: Seq<char>) -> Option<
    Seq<char>,
>
    decreases adds.len(),
{
    if adds.len() == 0 {
        None
    } else if adds.last().0 == name {
        Some(adds.last().1)
    } else {
        latest_department(adds.drop_last(), name)
    }
}

/// After any sequence of adds, a name stands in the directory exactly when
/// some add named it, and it is then mapped to the department of its most
/// recent add. With the contract of `list_by_department`, the listing for a
/// department holds exactly the names whose most recent add named it.
pub proof fn lemma_directory_after(adds: Seq<(Seq<char>, Seq<char>)>, name: Seq<char>)
    ensures
        directory_after(adds).contains_key(name) <==> latest_department(adds, name) is Some,
        directory_after(adds).contains_key(name) ==> Some(directory_after(adds)[name])
            == latest_department(adds, name),
    decreases adds.len(),
{
    if adds.len() > 0 {
        lemma_directory_after(adds.drop_last(), name);
    }
}

/// After any sequence of adds, a name is recorded under department `d`
/// exactly when its most recent add named `d`. The contract of
/// `list_by_department` then says that the listing for `d` holds exactly
/// those names.
pub proof fn lemma_department_after_adds(
    adds: Seq<(Seq<char>, Seq<char>)>,
    name: Seq<char>,
    d: Seq<char>,
)
    ensures
        (directory_after(adds).contains_key(name) && directory_after(adds)[name] == d)
            <==> latest_department(adds, name) == Some(d),
{
    lemma_directory_after(adds, name);
}

/// Adding the same name twice leaves only the later department: the earlier
/// insert is absorbed.
pub proof fn lemma_add_overwrites(
    m: Map<Seq<char>, Seq<char>>,
    name: Seq<char>,
    first: Seq<char>,
    second: Seq<char>,
)
    ensures
        m.insert(name, first).insert(name, second) == m.insert(name, second),
{
    assert(m.insert(name, first).insert(name, second) =~= m.insert(name, second));
}

} // verus!
