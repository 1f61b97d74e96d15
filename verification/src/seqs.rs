//! General facts about sequences used by the proofs of this crate.

use vstd::prelude::*;

verus! {

/// An element is in a `filter_map` exactly when some element of the source
/// maps to it.
pub proof fn lemma_filter_map_contains<A, B>(s: Seq<A>, f: spec_fn(A) -> Option<B>, x: B)
    ensures
        s.filter_map(f).contains(x) <==> exists|i: int| 0 <= i < s.len() && #[trigger] f(s[i]) == Some(x),
    decreases s.len(),
{
    if s.len() > 0 {
        let rest = s.drop_last();
        lemma_filter_map_contains(rest, f, x);
        if s.filter_map(f).contains(x) {
            let j = choose|j: int| 0 <= j < s.filter_map(f).len() && s.filter_map(f)[j] == x;
            if j < rest.filter_map(f).len() {
                assert(rest.filter_map(f)[j] == x);
                let i = choose|i: int| 0 <= i < rest.len() && #[trigger] f(rest[i]) == Some(x);
                assert(s[i] == rest[i]);
            } else {
                assert(f(s[s.len() - 1]) == Some(x));
            }
        }
        if exists|i: int| 0 <= i < s.len() && #[trigger] f(s[i]) == Some(x) {
            let i = choose|i: int| 0 <= i < s.len() && #[trigger] f(s[i]) == Some(x);
            if i < s.len() - 1 {
                assert(f(rest[i]) == Some(x));
                let j = choose|j: int| 0 <= j < rest.filter_map(f).len() && rest.filter_map(f)[j] == x;
                assert(s.filter_map(f)[j] == x);
            } else {
                assert(s.filter_map(f)[s.filter_map(f).len() - 1] == x);
            }
        }
    }
}

/// A `filter_map` is empty exactly when the function gives `None` on every
/// element.
pub proof fn lemma_filter_map_empty<A, B>(s: Seq<A>, f: spec_fn(A) -> Option<B>)
    ensures
        s.filter_map(f).len() == 0 <==> forall|i: int| 0 <= i < s.len() ==> (#[trigger] f(s[i])) is None,
    decreases s.len(),
{
    if s.len() > 0 {
        lemma_filter_map_empty(s.drop_last(), f);
        if s.filter_map(f).len() == 0 {
            assert forall|i: int| 0 <= i < s.len() implies (#[trigger] f(s[i])) is None by {
                if i < s.len() - 1 {
                    assert(s.drop_last()[i] == s[i]);
                }
            }
        }
        if forall|i: int| 0 <= i < s.len() ==> (#[trigger] f(s[i])) is None {
            assert forall|i: int| 0 <= i < s.drop_last().len() implies (#[trigger] f(
                s.drop_last()[i],
            )) is None by {
                assert(s.drop_last()[i] == s[i]);
            }
            assert(f(s[s.len() - 1]) is None);
        }
    }
}

} // verus!
