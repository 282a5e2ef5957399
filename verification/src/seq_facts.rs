//! Small facts about sequences that the scanning loops in this crate share.

use vstd::prelude::*;

verus! {

/// One step of a filtering scan: extending the scanned prefix by one element
/// either appends that element to the result or leaves it alone.
pub proof fn lemma_filter_take_step<A>(s: Seq<A>, i: int, pred: spec_fn(A) -> bool)
    requires
        0 <= i < s.len(),
    ensures
        s.take(i + 1).filter(pred) == if pred(s[i]) {
            s.take(i).filter(pred).push(s[i])
        } else {
            s.take(i).filter(pred)
        },
{
    let t = s.take(i + 1);
    assert(t.drop_last() =~= s.take(i));
    assert(t.last() == s[i]);
    reveal_with_fuel(Seq::filter, 2);
}

/// A filtered sequence holds exactly the elements of its source that meet
/// the predicate, whatever their position.
pub proof fn lemma_filter_membership<A>(s: Seq<A>, pred: spec_fn(A) -> bool)
    ensures
        forall|x: A| #[trigger] s.filter(pred).contains(x) <==> s.contains(x) && pred(x),
    decreases s.len(),
{
    reveal_with_fuel(Seq::filter, 2);
    if s.len() > 0 {
        let dl = s.drop_last();
        lemma_filter_membership(dl, pred);
        assert forall|x: A| s.contains(x) && pred(x) implies #[trigger] s.filter(pred).contains(
            x,
        ) by {
            if s.last() == x {
                assert(pred(s.last()));
                assert(s.filter(pred).last() == x);
            } else {
                let i = choose|i: int| 0 <= i < s.len() && s[i] == x;
                assert(dl[i] == x);
                assert(dl.contains(x));
                assert(dl.filter(pred).contains(x));
                let j = choose|j: int| 0 <= j < dl.filter(pred).len() && dl.filter(pred)[j] == x;
                if pred(s.last()) {
                    assert(s.filter(pred)[j] == x);
                } else {
                    assert(s.filter(pred)[j] == x);
                }
            }
        }
        assert forall|x: A| #[trigger] s.filter(pred).contains(x) implies s.contains(x) && pred(
            x,
        ) by {
            let i = choose|i: int| 0 <= i < s.filter(pred).len() && s.filter(pred)[i] == x;
            if pred(s.last()) && i == s.filter(pred).len() - 1 {
                assert(x == s.last());
                assert(s[s.len() - 1] == x);
            } else {
                assert(dl.filter(pred)[i] == x);
                assert(dl.filter(pred).contains(x));
                assert(dl.contains(x));
                let j = choose|j: int| 0 <= j < dl.len() && dl[j] == x;
                assert(s[j] == x);
            }
        }
    }
}

/// Filtering by a predicate that is implied by a second one makes the first
/// filter redundant.
pub proof fn lemma_filter_subset_id<A>(s: Seq<A>, p: spec_fn(A) -> bool, q: spec_fn(A) -> bool)
    requires
        forall|x: A| #[trigger] q(x) ==> p(x),
    ensures
        s.filter(p).filter(q) == s.filter(q),
    decreases s.len(),
{
    reveal_with_fuel(Seq::filter, 2);
    if s.len() > 0 {
        let dl = s.drop_last();
        lemma_filter_subset_id(dl, p, q);
        if p(s.last()) {
            assert(s.filter(p).drop_last() =~= dl.filter(p));
            assert(s.filter(p).last() == s.last());
        } else {
            assert(s.filter(p) == dl.filter(p));
            assert(!q(s.last()));
        }
    }
}

/// Filtering distributes over concatenation.
pub proof fn lemma_filter_concat<A>(a: Seq<A>, b: Seq<A>, p: spec_fn(A) -> bool)
    ensures
        (a + b).filter(p) == a.filter(p) + b.filter(p),
    decreases b.len(),
{
    reveal_with_fuel(Seq::filter, 2);
    if b.len() == 0 {
        assert(a + b =~= a);
        assert(b.filter(p) == Seq::<A>::empty());
        assert(a.filter(p) + b.filter(p) =~= a.filter(p));
    } else {
        lemma_filter_concat(a, b.drop_last(), p);
        assert((a + b).drop_last() =~= a + b.drop_last());
        assert((a + b).last() == b.last());
        if p(b.last()) {
            assert(b.filter(p) == b.drop_last().filter(p).push(b.last()));
            assert((a + b).filter(p) =~= a.filter(p) + b.filter(p));
        } else {
            assert(b.filter(p) == b.drop_last().filter(p));
            assert((a + b).filter(p) =~= a.filter(p) + b.filter(p));
        }
    }
}

/// A sequence with no element satisfying the predicate filters to nothing.
pub proof fn lemma_filter_empty<A>(s: Seq<A>, p: spec_fn(A) -> bool)
    requires
        forall|i: int| 0 <= i < s.len() ==> !p(#[trigger] s[i]),
    ensures
        s.filter(p) == Seq::<A>::empty(),
    decreases s.len(),
{
    reveal_with_fuel(Seq::filter, 2);
    if s.len() > 0 {
        lemma_filter_empty(s.drop_last(), p);
    }
}

/// One step of a mapping scan: if the mapped prefix matches the target so
/// far and the next element maps to the target's next entry, the extended
/// prefix matches one entry further.
pub proof fn lemma_map_take_push<A, B>(
    pre: Seq<A>,
    post: Seq<A>,
    x: A,
    f: spec_fn(A) -> B,
    target: Seq<B>,
    i: int,
)
    requires
        0 <= i < target.len(),
        pre.map_values(f) == target.take(i),
        post == pre.push(x),
        f(x) == target[i],
    ensures
        post.map_values(f) == target.take(i + 1),
{
    assert(pre.map_values(f).len() == pre.len());
    assert(pre.len() == i);
    assert(post.map_values(f) =~= target.take(i + 1));
}

/// Filtering after a map is mapping after an equivalent filter.
pub proof fn lemma_filter_map<A, B>(
    s: Seq<A>,
    f: spec_fn(A) -> B,
    p: spec_fn(B) -> bool,
    q: spec_fn(A) -> bool,
)
    requires
        forall|i: int| 0 <= i < s.len() ==> (p(f(#[trigger] s[i])) <==> q(s[i])),
    ensures
        s.map_values(f).filter(p) == s.filter(q).map_values(f),
    decreases s.len(),
{
    reveal_with_fuel(Seq::filter, 2);
    if s.len() == 0 {
        assert(s.map_values(f).filter(p) =~= s.filter(q).map_values(f));
    } else {
        let dl = s.drop_last();
        lemma_filter_map(dl, f, p, q);
        assert(s.map_values(f).drop_last() =~= dl.map_values(f));
        assert(s.map_values(f).last() == f(s.last()));
        assert(s[s.len() - 1] == s.last());
        if q(s.last()) {
            assert(s.filter(q) == dl.filter(q).push(s.last()));
            assert(s.map_values(f).filter(p) =~= s.filter(q).map_values(f));
        } else {
            assert(s.filter(q) == dl.filter(q));
            assert(s.map_values(f).filter(p) =~= s.filter(q).map_values(f));
        }
    }
}

/// A sequence whose every element satisfies the predicate filters to
/// itself.
pub proof fn lemma_filter_all<A>(s: Seq<A>, p: spec_fn(A) -> bool)
    requires
        forall|i: int| 0 <= i < s.len() ==> p(#[trigger] s[i]),
    ensures
        s.filter(p) == s,
    decreases s.len(),
{
    reveal_with_fuel(Seq::filter, 2);
    if s.len() > 0 {
        lemma_filter_all(s.drop_last(), p);
        assert(s[s.len() - 1] == s.last());
        assert(s.filter(p) =~= s);
    }
}

/// The deep view of a byte vector is its view.
pub proof fn lemma_bytes_deep_view(v: Vec<u8>)
    ensures
        v.deep_view() == v@,
{
    assert(v.deep_view() =~= v@);
}

/// The deep view of a vector of byte vectors, element by element.
pub proof fn lemma_nested_deep_view(v: Vec<Vec<u8>>)
    ensures
        v.deep_view().len() == v@.len(),
        forall|i: int| 0 <= i < v@.len() ==> v.deep_view()[i] == v@[i]@,
{
    assert forall|i: int| 0 <= i < v@.len() implies v.deep_view()[i] == v@[i]@ by {
        assert(v.deep_view()[i] == v@[i].deep_view());
        lemma_bytes_deep_view(v@[i]);
    }
}

} // verus!
