//! Facts about sequences used by several modules.

use vstd::prelude::*;

verus! {

/// Mapping-and-filtering a sequence extended by one element extends the
/// result by that element's image, if it has one.
pub proof fn lemma_filter_map_push<A, B>(s: Seq<A>, x: A, f: spec_fn(A) -> Option<B>)
    ensures
        s.push(x).filter_map(f) == match f(x) {
            Some(e) => s.filter_map(f).push(e),
            None => s.filter_map(f),
        },
{
    assert(s.push(x).drop_last() =~= s);
    assert(s.push(x).last() == x);
    match f(x) {
        Some(e) => {
            assert(s.filter_map(f) + seq![e] =~= s.filter_map(f).push(e));
        },
        None => {},
    }
}

} // verus!
