//! Lemmas about sequences used by several codecs.

use vstd::prelude::*;

verus! {

broadcast use vstd::seq_lib::group_seq_properties;

/// `flat_map` splits off the image of the first element.
pub proof fn lemma_flat_map_first<A, B>(s: Seq<A>, f: spec_fn(A) -> Seq<B>)
    requires
        s.len() > 0,
    ensures
        s.flat_map(f) == f(s[0]) + s.drop_first().flat_map(f),
{
    assert(s.map_values(f).drop_first() =~= s.drop_first().map_values(f));
}

/// `flat_map` of a concatenation.
pub proof fn lemma_flat_map_add<A, B>(a: Seq<A>, b: Seq<A>, f: spec_fn(A) -> Seq<B>)
    ensures
        (a + b).flat_map(f) == a.flat_map(f) + b.flat_map(f),
    decreases a.len(),
{
    if a.len() == 0 {
        assert(a + b =~= b);
        assert(a.flat_map(f) =~= Seq::<B>::empty()) by {
            assert(a.map_values(f) =~= Seq::<Seq<B>>::empty());
        }
        assert(a.flat_map(f) + b.flat_map(f) =~= b.flat_map(f));
    } else {
        lemma_flat_map_first(a + b, f);
        lemma_flat_map_first(a, f);
        assert((a + b).drop_first() =~= a.drop_first() + b);
        lemma_flat_map_add(a.drop_first(), b, f);
        assert(f(a[0]) + (a.drop_first().flat_map(f) + b.flat_map(f)) =~= (f(a[0])
            + a.drop_first().flat_map(f)) + b.flat_map(f));
    }
}

} // verus!
