//! Facts about `Seq::filter` that the graph and the simulation lean on.

use vstd::prelude::*;

verus! {

/// A sequence with `e` added holds what it held before, and `e`.
pub proof fn lemma_push_contains<A>(s: Seq<A>, e: A, x: A)
    ensures
        s.push(e).contains(x) <==> (s.contains(x) || x == e),
{
    let t = s.push(e);
    if s.contains(x) {
        let i = s.index_of(x);
        assert(t[i] == x);
    }
    if x == e {
        assert(t[s.len() as int] == x);
    }
    if t.contains(x) {
        let i = t.index_of(x);
        if i < s.len() {
            assert(s[i] == x);
        }
    }
}

/// Filtering a sequence that ends in `x` filters what stands before `x` and
/// then keeps or drops `x`.
pub proof fn lemma_filter_push<A>(s: Seq<A>, x: A, keep: spec_fn(A) -> bool)
    ensures
        s.push(x).filter(keep) == if keep(x) {
            s.filter(keep).push(x)
        } else {
            s.filter(keep)
        },
{
    reveal(Seq::filter);
    assert(s.push(x).drop_last() =~= s);
}

/// The empty sequence stays empty under any filter.
pub proof fn lemma_filter_empty<A>(keep: spec_fn(A) -> bool)
    ensures
        Seq::<A>::empty().filter(keep) == Seq::<A>::empty(),
{
    reveal(Seq::filter);
}

/// A filtered sequence holds exactly the items of the sequence that pass.
pub proof fn lemma_filter_contains<A>(s: Seq<A>, keep: spec_fn(A) -> bool, x: A)
    ensures
        s.filter(keep).contains(x) <==> (s.contains(x) && keep(x)),
    decreases s.len(),
{
    reveal(Seq::filter);
    if s.len() > 0 {
        let front = s.drop_last();
        lemma_filter_contains(front, keep, x);
        assert(s =~= front.push(s.last()));
        if s.contains(x) {
            let i = choose|i: int| 0 <= i < s.len() && s[i] == x;
            if i < s.len() - 1 {
                assert(front[i] == x);
            }
        }
        if front.contains(x) {
            let i = choose|i: int| 0 <= i < front.len() && front[i] == x;
            assert(s[i] == x);
        }
        if keep(s.last()) {
            let kept = front.filter(keep);
            assert(s.filter(keep) == kept.push(s.last()));
            if kept.contains(x) {
                let i = choose|i: int| 0 <= i < kept.len() && kept[i] == x;
                assert(kept.push(s.last())[i] == x);
            }
            if x == s.last() {
                assert(kept.push(s.last())[kept.len() as int] == x);
                assert(s[s.len() - 1] == x);
            }
        }
    }
}

/// A filtered sequence holds nothing twice, if the sequence held nothing
/// twice.
pub proof fn lemma_filter_no_duplicates<A>(s: Seq<A>, keep: spec_fn(A) -> bool)
    requires
        s.no_duplicates(),
    ensures
        s.filter(keep).no_duplicates(),
    decreases s.len(),
{
    reveal(Seq::filter);
    if s.len() > 0 {
        let front = s.drop_last();
        let last = s.last();
        assert forall|i: int, j: int|
            0 <= i < front.len() && 0 <= j < front.len() && i != j implies front[i] != front[j] by {
            assert(front[i] == s[i] && front[j] == s[j]);
        }
        lemma_filter_no_duplicates(front, keep);
        if keep(last) {
            let kept = front.filter(keep);
            lemma_filter_contains(front, keep, last);
            if front.contains(last) {
                let i = front.index_of(last);
                assert(s[i] == s[s.len() - 1]);
            }
            assert forall|i: int, j: int|
                0 <= i < kept.len() + 1 && 0 <= j < kept.len() + 1 && i != j implies kept.push(
                last,
            )[i] != kept.push(last)[j] by {
                if i < kept.len() {
                    assert(kept.contains(kept[i]));
                }
                if j < kept.len() {
                    assert(kept.contains(kept[j]));
                }
            }
        }
    }
}

/// Two filters that agree on every item of a sequence give the same result.
pub proof fn lemma_filter_agree<A>(s: Seq<A>, p: spec_fn(A) -> bool, q: spec_fn(A) -> bool)
    requires
        forall|x: A| s.contains(x) ==> p(x) == q(x),
    ensures
        s.filter(p) == s.filter(q),
    decreases s.len(),
{
    reveal(Seq::filter);
    if s.len() > 0 {
        let front = s.drop_last();
        assert forall|x: A| front.contains(x) implies p(x) == q(x) by {
            let i = front.index_of(x);
            assert(s[i] == x);
            assert(s.contains(x));
        }
        lemma_filter_agree(front, p, q);
        assert(s[s.len() - 1] == s.last());
        assert(s.contains(s.last()));
    }
}

/// Filtering twice is filtering once by both tests.
pub proof fn lemma_filter_twice<A>(
    s: Seq<A>,
    p: spec_fn(A) -> bool,
    q: spec_fn(A) -> bool,
    both: spec_fn(A) -> bool,
)
    requires
        forall|x: A| s.contains(x) ==> both(x) == (p(x) && q(x)),
    ensures
        s.filter(p).filter(q) == s.filter(both),
    decreases s.len(),
{
    reveal(Seq::filter);
    if s.len() > 0 {
        let front = s.drop_last();
        assert forall|x: A| front.contains(x) implies both(x) == (p(x) && q(x)) by {
            let i = front.index_of(x);
            assert(s[i] == x);
            assert(s.contains(x));
        }
        lemma_filter_twice(front, p, q, both);
        assert(s[s.len() - 1] == s.last());
        assert(s.contains(s.last()));
        if p(s.last()) {
            lemma_filter_push(front.filter(p), s.last(), q);
        }
    }
}

/// A filter that every item passes changes nothing.
pub proof fn lemma_filter_all<A>(s: Seq<A>, keep: spec_fn(A) -> bool)
    requires
        forall|x: A| s.contains(x) ==> keep(x),
    ensures
        s.filter(keep) == s,
    decreases s.len(),
{
    reveal(Seq::filter);
    if s.len() > 0 {
        let front = s.drop_last();
        assert forall|x: A| front.contains(x) implies keep(x) by {
            let i = front.index_of(x);
            assert(s[i] == x);
            assert(s.contains(x));
        }
        lemma_filter_all(front, keep);
        assert(s[s.len() - 1] == s.last());
        assert(s.contains(s.last()));
        assert(front.push(s.last()) =~= s);
    }
}

} // verus!
