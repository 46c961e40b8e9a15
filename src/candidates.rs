use vstd::prelude::*;
use vstd::multiset::Multiset;

verus! {

/// A scored payload: its squared distance from the query, and the payload.
pub type Candidate<'a, T> = (u128, &'a T);

/// Candidates sorted ascending by distance.
pub open spec fn sorted_by_dist<'a, T>(s: Seq<Candidate<'a, T>>) -> bool {
    forall|i: int, j: int| 0 <= i <= j < s.len() ==> (#[trigger] s[i]).0 <= (#[trigger] s[j]).0
}

/// The largest distance kept, for a non-empty sorted sequence.
pub open spec fn worst<'a, T>(s: Seq<Candidate<'a, T>>) -> u128 {
    s.last().0
}

pub open spec fn min_nat(a: nat, b: nat) -> nat {
    if a <= b { a } else { b }
}

/// `new` is what keeping the best `num` of `old` together with `more` leaves:
/// it is sorted, as long as it can be, drawn from those candidates, and every
/// candidate left out is at least as far as the farthest one kept.
pub open spec fn keeps_best<'a, T>(
    old: Seq<Candidate<'a, T>>,
    more: Multiset<Candidate<'a, T>>,
    new: Seq<Candidate<'a, T>>,
    num: nat,
) -> bool {
    let all = old.to_multiset().add(more);
    &&& sorted_by_dist(new)
    &&& new.len() == min_nat(num, old.len() + more.len())
    &&& new.len() == old.len() + more.len() ==> new.to_multiset() == all
    &&& new.to_multiset().subset_of(all)
    &&& new.len() > 0 ==> forall|x: Candidate<'a, T>| #[trigger] all.count(x) > new.to_multiset().count(x) ==> x.0 >= worst(new)
    &&& old.len() == num ==> worst(new) <= worst(old)
}

/// Keeping the best in two rounds is keeping the best of both rounds' candidates.
pub proof fn lemma_keeps_best_compose<'a, T>(
    b0: Seq<Candidate<'a, T>>,
    a: Multiset<Candidate<'a, T>>,
    b1: Seq<Candidate<'a, T>>,
    c: Multiset<Candidate<'a, T>>,
    b2: Seq<Candidate<'a, T>>,
    num: nat,
)
    requires
        b0.len() <= num,
        keeps_best(b0, a, b1, num),
        keeps_best(b1, c, b2, num),
    ensures
        keeps_best(b0, a.add(c), b2, num),
{
    broadcast use vstd::seq_lib::group_to_multiset_ensures, vstd::multiset::group_multiset_axioms;
    let m1 = b0.to_multiset().add(a);
    let m = b0.to_multiset().add(a.add(c));
    assert(m =~= m1.add(c));
    assert(a.add(c).len() == a.len() + c.len());
    if b2.len() == b0.len() + a.len() + c.len() {
        assert(b1.len() == b0.len() + a.len());
        assert(b1.to_multiset() == m1);
        assert(b2.to_multiset() =~= m);
    }
    assert forall|x: Candidate<'a, T>| b2.len() > 0 && #[trigger] m.count(x) > b2.to_multiset().count(x) implies x.0 >= worst(b2) by {
        if b1.to_multiset().add(c).count(x) <= b2.to_multiset().count(x) {
            assert(m1.count(x) > b1.to_multiset().count(x));
            assert(b1.len() == num);
        }
    }
}

/// A full set of kept candidates stays as it is when no new candidate is
/// nearer than the farthest one kept.
pub proof fn lemma_keeps_best_prune<'a, T>(b: Seq<Candidate<'a, T>>, c: Multiset<Candidate<'a, T>>, num: nat)
    requires
        b.len() == num,
        sorted_by_dist(b),
        forall|x: Candidate<'a, T>| #[trigger] c.count(x) > 0 ==> x.0 >= worst(b),
    ensures
        keeps_best(b, c, b, num),
{
    broadcast use vstd::seq_lib::group_to_multiset_ensures, vstd::multiset::group_multiset_axioms;
    vstd::multiset::lemma_multiset_empty_len(c);
    if c.len() == 0 {
        assert(b.to_multiset().add(c) =~= b.to_multiset());
    }
}

/// Keeping the best of nothing more changes nothing.
pub proof fn lemma_keeps_best_none<'a, T>(b: Seq<Candidate<'a, T>>, num: nat)
    requires
        b.len() <= num,
        sorted_by_dist(b),
    ensures
        keeps_best(b, Multiset::empty(), b, num),
{
    broadcast use vstd::seq_lib::group_to_multiset_ensures, vstd::multiset::group_multiset_axioms;
    assert(b.to_multiset().add(Multiset::empty()) =~= b.to_multiset());
}

/// Asking for as many candidates as there are gives back every one of them.
pub proof fn lemma_keeps_best_all<'a, T>(r: Seq<Candidate<'a, T>>, all: Multiset<Candidate<'a, T>>)
    requires
        keeps_best(Seq::empty(), all, r, all.len()),
    ensures
        r.to_multiset() == all,
{
    broadcast use vstd::seq_lib::group_to_multiset_ensures, vstd::multiset::group_multiset_axioms;
    let e = Seq::<Candidate<'a, T>>::empty();
    e.to_multiset_ensures();
    vstd::multiset::lemma_multiset_empty_len(e.to_multiset());
    assert(e.to_multiset().add(all) =~= all);
}

/// Where a candidate at distance `d` goes in the sorted `b`: after every
/// candidate at distance `d` or less.
pub open spec fn insert_pos<'a, T>(b: Seq<Candidate<'a, T>>, d: u128) -> int
    decreases b.len(),
{
    if b.len() == 0 {
        0
    } else if b[0].0 > d {
        0
    } else {
        1 + insert_pos(b.drop_first(), d)
    }
}

/// `b` with `c` put in its place, then cut back to `num` candidates.
pub open spec fn bounded_insert<'a, T>(b: Seq<Candidate<'a, T>>, c: Candidate<'a, T>, num: nat) -> Seq<Candidate<'a, T>> {
    let s = b.insert(insert_pos(b, c.0), c);
    if s.len() > num { s.drop_last() } else { s }
}

/// `b` after putting in each of `cs` in turn.
pub open spec fn insert_all<'a, T>(b: Seq<Candidate<'a, T>>, cs: Seq<Candidate<'a, T>>, num: nat) -> Seq<Candidate<'a, T>>
    decreases cs.len(),
{
    if cs.len() == 0 {
        b
    } else {
        bounded_insert(insert_all(b, cs.drop_last(), num), cs.last(), num)
    }
}

/// The place found by a scan that stops at the first farther candidate.
proof fn lemma_insert_pos<'a, T>(b: Seq<Candidate<'a, T>>, d: u128, i: int)
    requires
        0 <= i <= b.len(),
        forall|j: int| 0 <= j < i ==> (#[trigger] b[j]).0 <= d,
        i == b.len() || b[i].0 > d,
    ensures
        insert_pos(b, d) == i,
    decreases i,
{
    if i > 0 {
        let t = b.drop_first();
        assert forall|j: int| 0 <= j < i - 1 implies (#[trigger] t[j]).0 <= d by {
            assert(t[j] == b[j + 1]);
        }
        if i < b.len() {
            assert(t[i - 1] == b[i]);
        }
        lemma_insert_pos(t, d, i - 1);
    }
}

/// Adds `c` to the sorted candidates `best`, keeping at most `num` of them:
/// where `best` is full, its farthest candidate, or `c`, is dropped.
pub fn insert_bounded<'a, T>(best: &mut Vec<Candidate<'a, T>>, c: Candidate<'a, T>, num: usize)
    requires
        sorted_by_dist(old(best)@),
        old(best)@.len() <= num,
        num > 0,
    ensures
        keeps_best(old(best)@, Multiset::singleton(c), final(best)@, num as nat),
        old(best)@.len() == num && c.0 >= worst(old(best)@) ==> final(best)@ == old(best)@,
        old(best)@.len() < num || c.0 < worst(old(best)@) ==> final(best)@.contains(c),
        final(best)@ == bounded_insert(old(best)@, c, num as nat),
{
    broadcast use vstd::seq_lib::group_to_multiset_ensures, vstd::multiset::group_multiset_axioms;
    let ghost b = best@;
    let mut i: usize = 0;
    while i < best.len() && best[i].0 <= c.0
        invariant
            best@ == b,
            i <= b.len(),
            forall|j: int| 0 <= j < i ==> (#[trigger] b[j]).0 <= c.0,
        decreases b.len() - i,
    {
        i = i + 1;
    }
    assert(b.len() == num && c.0 >= worst(b) ==> i == b.len()) by {
        if b.len() == num && c.0 >= worst(b) && i < b.len() {
            assert(b[i as int].0 <= b[b.len() - 1].0);
        }
    }
    proof {
        lemma_insert_pos(b, c.0, i as int);
    }
    best.insert(i, c);
    let ghost s = best@;
    assert(s[i as int] == c);
    assert(s.to_multiset() =~= b.to_multiset().insert(c)) by {
        vstd::seq_lib::to_multiset_insert(b, i as int, c);
    }
    assert(Multiset::singleton(c) =~= Multiset::empty().insert(c));
    assert(b.to_multiset().add(Multiset::singleton(c)) =~= b.to_multiset().insert(c));
    assert(sorted_by_dist(s)) by {
        assert forall|p: int, q: int| 0 <= p <= q < s.len() implies (#[trigger] s[p]).0 <= (#[trigger] s[q]).0 by {
            if p < i && q > i {
                assert(s[p] == b[p]);
                assert(s[q] == b[q - 1]);
            } else if p < i && q == i {
                assert(s[p] == b[p]);
            } else if p == i && q > i {
                assert(s[q] == b[q - 1]);
                assert(i < b.len());
                assert(b[i as int].0 > c.0);
                assert(b[i as int].0 <= b[q - 1].0);
            } else if p > i {
                assert(s[p] == b[p - 1]);
                assert(s[q] == b[q - 1]);
            } else if q < i {
                assert(s[p] == b[p]);
                assert(s[q] == b[q]);
            }
        }
    }
    if best.len() > num {
        let ghost y = s.last();
        best.pop();
        assert(s =~= best@.push(y));
        assert(best@ =~= s.drop_last());
        proof {
            if i == b.len() {
                assert(best@ =~= b);
            } else {
                assert(best@[i as int] == c);
            }
        }
        assert(s.to_multiset() =~= best@.to_multiset().insert(y));
        assert(worst(best@) <= worst(b)) by {
            let n = b.len() as int;
            if i < n {
                assert(s[n] == b[n - 1]);
            } else {
                assert(s[n - 1] == b[n - 1]);
            }
        }
        assert forall|x: Candidate<'a, T>| #[trigger] b.to_multiset().add(Multiset::singleton(c)).count(x) > best@.to_multiset().count(x) implies x.0 >= worst(best@) by {
            assert(x == y);
        }
    }
}

} // verus!
