//! Median and mode of a list of integers: the middle entry once the list is
//! sorted, and a value that occurs most often.

use vstd::prelude::*;

verus! {

broadcast use vstd::seq_lib::group_to_multiset_ensures, vstd::multiset::group_multiset_axioms;

/// Ascending order over the whole sequence.
pub open spec fn sorted_ascending(s: Seq<u32>) -> bool {
    forall|i: int, j: int| 0 <= i <= j < s.len() ==> s[i] <= s[j]
}

/// Pointwise description of moving the entry at `idx` down to `pos`, and the
/// fact that the move keeps the entries as a multiset.
proof fn lemma_shift_down_facts(before: Seq<u32>, after: Seq<u32>, pos: int, idx: int)
    requires
        0 <= pos <= idx < before.len(),
        after == before.remove(idx).insert(pos, before[idx]),
    ensures
        after.len() == before.len(),
        forall|l: int| 0 <= l < pos ==> after[l] == before[l],
        after[pos] == before[idx],
        forall|l: int| pos < l <= idx ==> after[l] == before[l - 1],
        forall|l: int| idx < l < after.len() ==> after[l] == before[l],
        after.to_multiset() == before.to_multiset(),
{
    let x = before[idx];
    let mid = before.remove(idx);
    before.remove_ensures(idx);
    mid.insert_ensures(pos, x);
    assert forall|l: int| pos < l <= idx implies after[l] == before[l - 1] by {
        assert(mid.insert(pos, x)[l - 1 + 1] == mid[l - 1]);
    }
    assert forall|l: int| idx < l < after.len() implies after[l] == before[l] by {
        assert(mid.insert(pos, x)[l - 1 + 1] == mid[l - 1]);
    }
    assert(before.remove(idx).to_multiset() == before.to_multiset().remove(x));
    assert(mid.insert(pos, x).to_multiset() == mid.to_multiset().insert(x));
    assert(before.contains(x));
    assert(before.to_multiset().count(x) > 0);
    assert(after.to_multiset() =~= before.to_multiset());
}

/// Sorts the list in place into ascending order, keeping the entries with
/// their multiplicities.
pub fn sort_integers(values: &mut Vec<u32>)
    ensures
        final(values)@.len() == old(values)@.len(),
        sorted_ascending(final(values)@),
        final(values)@.to_multiset() == old(values)@.to_multiset(),
{
    let mut idx: usize = 1;
    while idx < values.len()
        invariant
            values@.len() == old(values)@.len(),
            values@.to_multiset() == old(values)@.to_multiset(),
            1 <= idx,
            forall|i: int, j: int|
                0 <= i <= j < idx && j < values@.len() ==> values@[i] <= values@[j],
        decreases values@.len() - idx,
    {
        let x = values[idx];
        let mut pos: usize = 0;
        while pos < idx && values[pos] <= x
            invariant
                pos <= idx,
                idx < values@.len(),
                x == values@[idx as int],
                forall|l: int| 0 <= l < pos ==> values@[l] <= x,
            decreases idx - pos,
        {
            pos = pos + 1;
        }
        let ghost before = values@;
        let removed = values.remove(idx);
        values.insert(pos, removed);
        proof {
            lemma_shift_down_facts(before, values@, pos as int, idx as int);
            assert forall|i: int, j: int|
                0 <= i <= j < idx + 1 && j < values@.len() implies values@[i] <= values@[j] by {
                if pos < idx {
                    assert(before[pos as int] > x);
                    if pos <= j - 1 < idx {
                        assert(before[j - 1] >= before[pos as int]);
                    }
                }
            }
        }
        idx = idx + 1;
    }
}

/// How many entries of `values` equal `target`.
pub fn count_value(values: &Vec<u32>, target: u32) -> (c: usize)
    ensures
        c == values@.to_multiset().count(target),
{
    let mut c: usize = 0;
    let mut i: usize = 0;
    proof {
        assert(!values@.subrange(0, 0).contains(target));
    }
    while i < values.len()
        invariant
            i <= values@.len(),
            c <= i,
            c == values@.subrange(0, i as int).to_multiset().count(target),
        decreases values@.len() - i,
    {
        proof {
            assert(values@.subrange(0, i + 1) =~= values@.subrange(0, i as int).push(
                values@[i as int],
            ));
        }
        if values[i] == target {
            c = c + 1;
        }
        i = i + 1;
    }
    proof {
        assert(values@.subrange(0, values@.len() as int) =~= values@);
    }
    c
}

/// A value that occurs most often in the list, when the list is non-empty; on
/// a tie any of the most frequent values may come back.
pub fn mode(values: &Vec<u32>) -> (r: Option<u32>)
    ensures
        r is Some <==> values@.len() > 0,
        r matches Some(v) ==> values@.to_multiset().count(v) >= 1 && (forall|u: u32|
            values@.to_multiset().count(u) <= values@.to_multiset().count(v)),
{
    if values.len() == 0 {
        return None;
    }
    let mut best = values[0];
    let mut best_count = count_value(values, best);
    proof {
        assert(values@.contains(values@[0]));
    }
    let mut i: usize = 1;
    while i < values.len()
        invariant
            values@.len() > 0,
            i <= values@.len(),
            best_count == values@.to_multiset().count(best),
            best_count >= 1,
            forall|j: int|
                0 <= j < i ==> values@.to_multiset().count(#[trigger] values@[j]) <= best_count,
        decreases values@.len() - i,
    {
        let c = count_value(values, values[i]);
        proof {
            assert(values@.contains(values@[i as int]));
        }
        if c > best_count {
            best = values[i];
            best_count = c;
        }
        i = i + 1;
    }
    proof {
        assert forall|u: u32|
            values@.to_multiset().count(u) <= values@.to_multiset().count(best) by {
            if values@.to_multiset().count(u) > 0 {
                assert(values@.contains(u));
                let j = choose|j: int| 0 <= j < values@.len() && values@[j] == u;
                assert(values@.to_multiset().count(values@[j]) <= best_count);
            }
        }
    }
    Some(best)
}

/// Two ascending arrangements of the same entries are equal, so the middle
/// entry that `median` speaks of is the same whichever arrangement is chosen.
pub proof fn lemma_sorted_arrangement_unique(a: Seq<u32>, b: Seq<u32>)
    requires
        sorted_ascending(a),
        sorted_ascending(b),
        a.to_multiset() == b.to_multiset(),
    ensures
        a == b,
{
    let leq = (|x: u32, y: u32| x <= y);
    assert(vstd::relations::total_ordering(leq)) by {
        assert(vstd::relations::reflexive(leq));
        assert(vstd::relations::antisymmetric(leq));
        assert(vstd::relations::transitive(leq));
        assert(vstd::relations::strongly_connected(leq));
    }
    assert(vstd::relations::sorted_by(a, leq));
    assert(vstd::relations::sorted_by(b, leq));
    vstd::seq_lib::lemma_sorted_unique(a, b, leq);
    assert(a =~= b);
}

/// The entry that stands in the middle once the list is sorted: for a list of
/// length n, the one at position n / 2 of some ascending arrangement with the
/// same entries. `None` exactly on the empty list.
pub fn median(values: &Vec<u32>) -> (r: Option<u32>)
    ensures
        r is Some <==> values@.len() > 0,
        values@.len() > 0 ==> exists|s: Seq<u32>|
            sorted_ascending(s) && #[trigger] s.to_multiset() == values@.to_multiset() && r
                == Some(s[s.len() as int / 2]),
{
    if values.len() == 0 {
        return None;
    }
    let mut sorted_copy: Vec<u32> = Vec::new();
    let mut i: usize = 0;
    while i < values.len()
        invariant
            i <= values@.len(),
            sorted_copy@ == values@.subrange(0, i as int),
        decreases values@.len() - i,
    {
        sorted_copy.push(values[i]);
        proof {
            assert(values@.subrange(0, i + 1) =~= values@.subrange(0, i as int).push(
                values@[i as int],
            ));
        }
        i = i + 1;
    }
    proof {
        assert(values@.subrange(0, values@.len() as int) =~= values@);
    }
    sort_integers(&mut sorted_copy);
    let m = sorted_copy[sorted_copy.len() / 2];
    proof {
        assert(sorted_ascending(sorted_copy@) && sorted_copy@.to_multiset()
            == values@.to_multiset() && Some(m) == Some(
            sorted_copy@[sorted_copy@.len() as int / 2],
        ));
    }
    Some(m)
}

} // verus!
