use vstd::prelude::*;

use crate::region::{sorted_by_start, Halt, RawRegion};

verus! {

broadcast use vstd::seq_lib::group_to_multiset_ensures;

/// The entries of `s` whose start address is `v`, in the order `s` holds
/// them. The sort keeps each such subsequence unchanged: it is stable.
pub open spec fn entries_with_start(s: Seq<RawRegion>, v: u64) -> Seq<RawRegion>
    decreases s.len(),
{
    if s.len() == 0 {
        Seq::empty()
    } else if s.last().start == v {
        entries_with_start(s.drop_last(), v).push(s.last())
    } else {
        entries_with_start(s.drop_last(), v)
    }
}

/// Selecting the entries with one start address distributes over
/// concatenation.
proof fn lemma_entries_with_start_add(a: Seq<RawRegion>, b: Seq<RawRegion>, v: u64)
    ensures
        entries_with_start(a + b, v) == entries_with_start(a, v) + entries_with_start(b, v),
    decreases b.len(),
{
    if b.len() == 0 {
        assert(a + b =~= a);
        assert(entries_with_start(b, v) =~= Seq::<RawRegion>::empty());
        assert(entries_with_start(a, v) + entries_with_start(b, v) =~= entries_with_start(a, v));
    } else {
        lemma_entries_with_start_add(a, b.drop_last(), v);
        assert((a + b).drop_last() =~= a + b.drop_last());
        assert((a + b).last() == b.last());
        if b.last().start == v {
            assert(entries_with_start(a, v) + entries_with_start(b, v) =~= (entries_with_start(
                a,
                v,
            ) + entries_with_start(b.drop_last(), v)).push(b.last()));
        }
    }
}

/// Swapping two adjacent entries with different start addresses leaves the
/// subsequence of entries with any one start address unchanged.
proof fn lemma_swap_keeps_start_groups(s: Seq<RawRegion>, i: int, v: u64)
    requires
        0 <= i,
        i + 1 < s.len(),
        s[i].start != s[i + 1].start,
    ensures
        entries_with_start(s.update(i, s[i + 1]).update(i + 1, s[i]), v) == entries_with_start(
            s,
            v,
        ),
{
    let u = s.update(i, s[i + 1]).update(i + 1, s[i]);
    let a = s.subrange(0, i);
    let m1 = s.subrange(i, i + 2);
    let m2 = u.subrange(i, i + 2);
    let b = s.subrange(i + 2, s.len() as int);
    assert(s =~= a + m1 + b);
    assert(u =~= a + m2 + b);
    lemma_entries_with_start_add(a, m1, v);
    lemma_entries_with_start_add(a + m1, b, v);
    lemma_entries_with_start_add(a, m2, v);
    lemma_entries_with_start_add(a + m2, b, v);
    assert(entries_with_start(m1, v) == entries_with_start(m2, v)) by {
        let x = s[i];
        let y = s[i + 1];
        assert(m1.len() == 2 && m1[0] == x && m1[1] == y && m1.last() == y);
        assert(m2.len() == 2 && m2[0] == y && m2[1] == x && m2.last() == x);
        assert(m1.drop_last() =~= seq![x]);
        assert(m2.drop_last() =~= seq![y]);
        assert(seq![x].drop_last() =~= Seq::<RawRegion>::empty());
        assert(seq![y].drop_last() =~= Seq::<RawRegion>::empty());
        assert(entries_with_start(Seq::<RawRegion>::empty(), v) =~= Seq::<RawRegion>::empty());
        assert(entries_with_start(seq![x], v) == if x.start == v {
            seq![x]
        } else {
            Seq::<RawRegion>::empty()
        });
        assert(entries_with_start(seq![y], v) == if y.start == v {
            seq![y]
        } else {
            Seq::<RawRegion>::empty()
        });
        if x.start == v {
            // y cannot match too: the two starts differ
            assert(entries_with_start(m1, v) =~= seq![x]);
            assert(entries_with_start(m2, v) =~= seq![x]);
        } else if y.start == v {
            assert(entries_with_start(m1, v) =~= seq![y]);
            assert(entries_with_start(m2, v) =~= seq![y]);
        } else {
            assert(entries_with_start(m1, v) =~= Seq::<RawRegion>::empty());
            assert(entries_with_start(m2, v) =~= Seq::<RawRegion>::empty());
        }
    }
}

/// Swapping two positions of a sequence leaves its multiset of elements
/// unchanged.
proof fn lemma_swap_preserves_multiset(s: Seq<RawRegion>, i: int, j: int)
    requires
        0 <= i < s.len(),
        0 <= j < s.len(),
        i != j,
    ensures
        s.update(i, s[j]).update(j, s[i]).to_multiset() == s.to_multiset(),
{
    broadcast use vstd::seq_lib::to_multiset_update;

    let t = s.update(i, s[j]);
    let u = t.update(j, s[i]);
    assert(s.to_multiset().count(s[i]) > 0) by {
        assert(s.contains(s[i]));
    }
    assert(s.to_multiset().count(s[j]) > 0) by {
        assert(s.contains(s[j]));
    }
    assert(t[j] == s[j]);
    assert(u.to_multiset() =~= s.to_multiset());
}

/// Sorts the firmware memory map by ascending start address, stably: the
/// result is a permutation of the input (same entries, same
/// multiplicities), entries with equal start addresses keep their input
/// order, and no regions are merged or dropped.
pub fn sort_regions(v: &mut Vec<RawRegion>)
    ensures
        final(v)@.len() == old(v)@.len(),
        final(v)@.to_multiset() == old(v)@.to_multiset(),
        sorted_by_start(final(v)@),
        forall|st: u64| #[trigger] entries_with_start(final(v)@, st) == entries_with_start(
            old(v)@,
            st,
        ),
{
    let n = v.len();
    let mut i: usize = 1;
    while i < n
        invariant
            1 <= i,
            n == v.len() == old(v)@.len(),
            v@.to_multiset() == old(v)@.to_multiset(),
            forall|st: u64| #[trigger] entries_with_start(v@, st) == entries_with_start(
                old(v)@,
                st,
            ),
            forall|a: int, b: int| 0 <= a <= b < i ==> v@[a].start <= v@[b].start,
        decreases n - i,
    {
        let mut j: usize = i;
        while j > 0 && v[j - 1].start > v[j].start
            invariant
                0 <= j <= i < n == v.len(),
                v@.to_multiset() == old(v)@.to_multiset(),
                forall|st: u64| #[trigger] entries_with_start(v@, st) == entries_with_start(
                    old(v)@,
                    st,
                ),
                forall|a: int, b: int|
                    0 <= a <= b <= i && a != j && b != j ==> v@[a].start <= v@[b].start,
                forall|b: int| j < b <= i ==> v@[j as int].start <= v@[b].start,
            decreases j,
        {
            let ghost prev = v@;
            let x = v[j - 1];
            let y = v[j];
            v.set(j - 1, y);
            v.set(j, x);
            proof {
                lemma_swap_preserves_multiset(prev, j - 1, j as int);
                assert forall|st: u64| #[trigger] entries_with_start(v@, st)
                    == entries_with_start(old(v)@, st) by {
                    lemma_swap_keeps_start_groups(prev, j - 1, st);
                }
            }
            j = j - 1;
        }
        i = i + 1;
    }
}

/// Normalizes the raw firmware memory map: sorts it by ascending start
/// address, stably — entries with equal start addresses keep their input
/// order. An empty map is a fatal condition, reported before anything else
/// runs: boot cannot proceed without at least one region.
pub fn normalize_memory_map(map: &mut Vec<RawRegion>) -> (r: Result<(), Halt>)
    ensures
        r is Err <==> old(map)@.len() == 0,
        r is Err ==> *final(map) == *old(map),
        r is Ok ==> {
            &&& final(map)@.len() == old(map)@.len()
            &&& final(map)@.to_multiset() == old(map)@.to_multiset()
            &&& sorted_by_start(final(map)@)
            &&& forall|st: u64| #[trigger] entries_with_start(final(map)@, st)
                == entries_with_start(old(map)@, st)
            &&& forall|i: int| 0 <= i < final(map)@.len() ==> old(map)@.contains(#[trigger] final(map)@[i])
        },
{
    if map.len() == 0 {
        return Err(Halt);
    }
    sort_regions(map);
    proof {
        assert forall|i: int| 0 <= i < map@.len() implies old(map)@.contains(#[trigger] map@[i]) by {
            assert(map@.contains(map@[i]));
            assert(map@.to_multiset().count(map@[i]) > 0);
        }
    }
    Ok(())
}

} // verus!
