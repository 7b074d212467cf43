//! Sorting by insertion: what a stable sort leaves, and that it is in order and complete.
use vstd::prelude::*;

verus! {

/// The list `s` with `x` put in behind all that it does not stand before.
pub open spec fn inserted<T>(s: Seq<T>, x: T, lt: spec_fn(T, T) -> bool) -> Seq<T>
    decreases s.len(),
{
    if s.len() == 0 || !lt(x, s.last()) {
        s.push(x)
    } else {
        inserted(s.drop_last(), x, lt).push(s.last())
    }
}

/// The list `s` in order; what is equal keeps its order.
pub open spec fn sorted<T>(s: Seq<T>, lt: spec_fn(T, T) -> bool) -> Seq<T>
    decreases s.len(),
{
    if s.len() == 0 {
        s
    } else {
        inserted(sorted(s.drop_last(), lt), s.last(), lt)
    }
}

/// That nothing in the list stands before what it follows.
pub open spec fn in_order<T>(s: Seq<T>, lt: spec_fn(T, T) -> bool) -> bool {
    forall|i: int, j: int| 0 <= i < j < s.len() ==> !lt(#[trigger] s[j], #[trigger] s[i])
}

/// That `lt` is an order in which some may be equal.
pub open spec fn is_weak_order<T>(lt: spec_fn(T, T) -> bool) -> bool {
    &&& forall|a: T, b: T| #[trigger] lt(a, b) ==> !lt(b, a)
    &&& forall|a: T, b: T, c: T| !#[trigger] lt(a, b) && !#[trigger] lt(b, c) ==> !lt(a, c)
}

/// Where `x` goes in a list: it is inserted there.
pub proof fn lemma_inserted_at<T>(s: Seq<T>, x: T, p: int, lt: spec_fn(T, T) -> bool)
    requires
        0 <= p <= s.len(),
        forall|i: int| p <= i < s.len() ==> lt(x, #[trigger] s[i]),
        p > 0 ==> !lt(x, s[p - 1]),
    ensures
        inserted(s, x, lt) == s.insert(p, x),
    decreases s.len(),
{
    if p == s.len() {
        assert(s.insert(p, x) =~= s.push(x));
    } else {
        assert(lt(x, s[s.len() - 1]));
        lemma_inserted_at(s.drop_last(), x, p, lt);
        assert(s.insert(p, x) =~= s.drop_last().insert(p, x).push(s.last()));
    }
}

proof fn lemma_inserted_order<T>(s: Seq<T>, x: T, lt: spec_fn(T, T) -> bool)
    requires
        is_weak_order(lt),
        in_order(s, lt),
    ensures
        in_order(inserted(s, x, lt), lt),
        inserted(s, x, lt).to_multiset() == s.to_multiset().insert(x),
        inserted(s, x, lt).len() == s.len() + 1,
        forall|i: int|
            0 <= i < s.len() + 1 ==> s.contains(#[trigger] inserted(s, x, lt)[i]) || inserted(
                s,
                x,
                lt,
            )[i] == x,
    decreases s.len(),
{
    broadcast use vstd::seq_lib::group_to_multiset_ensures;

    let r = inserted(s, x, lt);
    if s.len() == 0 || !lt(x, s.last()) {
        assert forall|i: int, j: int| 0 <= i < j < r.len() implies !lt(
            #[trigger] r[j],
            #[trigger] r[i],
        ) by {
            if j == s.len() && i < s.len() - 1 {
                assert(!lt(s[s.len() - 1], s[i]));
                assert(!lt(x, s[s.len() - 1]));
            }
        }
        assert forall|i: int| 0 <= i < s.len() + 1 implies s.contains(#[trigger] r[i]) || r[i]
            == x by {
            if i < s.len() {
                assert(s[i] == r[i]);
            }
        }
    } else {
        let init = s.drop_last();
        let last = s.last();
        lemma_inserted_order(init, x, lt);
        let t = inserted(init, x, lt);
        assert forall|i: int| 0 <= i < t.len() implies !lt(last, #[trigger] t[i]) by {
            if t[i] != x {
                assert(init.contains(t[i]));
                let k = choose|k: int| 0 <= k < init.len() && init[k] == t[i];
                assert(s[k] == t[i]);
                assert(!lt(s[s.len() - 1], s[k]));
            }
        }
        assert forall|i: int| 0 <= i < s.len() + 1 implies s.contains(#[trigger] r[i]) || r[i]
            == x by {
            if i < s.len() {
                assert(r[i] == t[i]);
                if t[i] != x {
                    assert(init.contains(t[i]));
                    let k = choose|k: int| 0 <= k < init.len() && init[k] == t[i];
                    assert(s[k] == t[i]);
                }
            } else {
                assert(r[i] == s[s.len() - 1]);
            }
        }
        assert(s =~= init.push(last));
        assert(s.to_multiset() =~= init.to_multiset().insert(last));
        assert(r.to_multiset() =~= t.to_multiset().insert(last));
        assert(r.to_multiset() =~= s.to_multiset().insert(x));
    }
}

/// A sorted list is in order, and holds what the list held.
pub proof fn lemma_sorted<T>(s: Seq<T>, lt: spec_fn(T, T) -> bool)
    requires
        is_weak_order(lt),
    ensures
        in_order(sorted(s, lt), lt),
        sorted(s, lt).to_multiset() == s.to_multiset(),
        sorted(s, lt).len() == s.len(),
    decreases s.len(),
{
    broadcast use vstd::seq_lib::group_to_multiset_ensures;

    if s.len() > 0 {
        lemma_sorted(s.drop_last(), lt);
        lemma_inserted_order(sorted(s.drop_last(), lt), s.last(), lt);
        assert(s =~= s.drop_last().push(s.last()));
        assert(s.to_multiset() =~= s.drop_last().to_multiset().insert(s.last()));
    }
}

} // verus!
