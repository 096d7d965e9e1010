//! The algebraic laws of the constraint algebra, stated over the matching
//! semantics that the operations' contracts pin down.
//!
//! Each lemma's premises are exactly what the corresponding operations
//! ensure about their results, so a caller holding those results can invoke
//! the lemma directly.

use vstd::prelude::*;
use crate::constraints::{
    elem_any, elem_product, lemma_elem_product_sym, lemma_elem_product_unique,
    lemma_set_empty_iff, set_matches, set_wf, ComplementCache, ElementView, MatchSpecConstraints,
};
use crate::version::Version;

verus! {

/// Taking the complement twice restores what a set matches, so three
/// complements match like one and four match like none: given `y` matching
/// the complement of `x` and `z` matching the complement of `y`, `z` matches
/// exactly what `x` matches.
pub proof fn lemma_complement_involutive(
    x: Seq<ElementView>,
    y: Seq<ElementView>,
    z: Seq<ElementView>,
)
    requires
        forall|v: Version, b: u64|
            #[trigger] set_matches(y, v, b) == !set_matches(x, v, b),
        forall|v: Version, b: u64|
            #[trigger] set_matches(z, v, b) == !set_matches(y, v, b),
    ensures
        forall|v: Version, b: u64|
            #[trigger] set_matches(z, v, b) == set_matches(x, v, b),
{
}

/// A set and its complement have nothing in common: their intersection is
/// the empty set, as a value.
pub proof fn lemma_complement_disjoint(
    x: Seq<ElementView>,
    y: Seq<ElementView>,
    m: Seq<ElementView>,
)
    requires
        set_wf(m),
        forall|v: Version, b: u64|
            #[trigger] set_matches(y, v, b) == !set_matches(x, v, b),
        forall|v: Version, b: u64|
            #[trigger] set_matches(m, v, b) == (set_matches(x, v, b) && set_matches(y, v, b)),
    ensures
        m.len() == 0,
{
    lemma_set_empty_iff(m);
}

/// A set and its complement together match everything: their union is the
/// full set, as a value.
pub proof fn lemma_complement_covering(
    x: Seq<ElementView>,
    y: Seq<ElementView>,
    u: Seq<ElementView>,
)
    requires
        forall|v: Version, b: u64|
            #[trigger] set_matches(y, v, b) == !set_matches(x, v, b),
        forall|v: Version, b: u64|
            #[trigger] set_matches(u, v, b) == (set_matches(x, v, b) || set_matches(y, v, b)),
        (forall|v: Version, b: u64|
            set_matches(x, v, b) || set_matches(y, v, b)) ==> u =~= seq![elem_any()],
    ensures
        u =~= seq![elem_any()],
        forall|v: Version, b: u64| #[trigger] set_matches(u, v, b),
{
    assert forall|v: Version, b: u64| set_matches(x, v, b) || set_matches(y, v, b) by {
        assert(set_matches(y, v, b) == !set_matches(x, v, b));
    }
    assert forall|v: Version, b: u64| #[trigger] set_matches(u, v, b) by {
        assert(u[0].matches(v, b)) by {
            assert(u[0] == elem_any());
        }
    }
}

/// Intersecting a set with itself matches exactly what the set matches.
pub proof fn lemma_intersection_idempotent(x: Seq<ElementView>, m: Seq<ElementView>)
    requires
        forall|v: Version, b: u64|
            #[trigger] set_matches(m, v, b) == (set_matches(x, v, b) && set_matches(x, v, b)),
    ensures
        forall|v: Version, b: u64|
            #[trigger] set_matches(m, v, b) == set_matches(x, v, b),
{
}

/// A singleton matches its own package, and the singleton's complement
/// refuses it.
pub proof fn lemma_singleton_contains(
    s: Seq<ElementView>,
    y: Seq<ElementView>,
    pv: Version,
    pb: u64,
)
    requires
        forall|v: Version, b: u64|
            #[trigger] set_matches(s, v, b) == (v == pv && b == pb),
        forall|v: Version, b: u64|
            #[trigger] set_matches(y, v, b) == !set_matches(s, v, b),
    ensures
        set_matches(s, pv, pb),
        !set_matches(y, pv, pb),
{
}

/// The empty set matches no package and the full set matches every package.
pub proof fn lemma_empty_full_contain(pv: Version, pb: u64)
    ensures
        !set_matches(Seq::<ElementView>::empty(), pv, pb),
        set_matches(seq![elem_any()], pv, pb),
{
    assert(seq![elem_any()][0].matches(pv, pb));
}

/// Two independently constructed but value-equal constraint sets produce
/// value-equal complements, whatever call paths put them through one
/// session's table: the first call fixes the entry and the second is
/// answered from it.
pub fn complements_of_equal_sets_agree(
    cache: &mut ComplementCache,
    a: &MatchSpecConstraints,
    b: &MatchSpecConstraints,
) -> (r: (MatchSpecConstraints, MatchSpecConstraints))
    requires
        old(cache).wf(),
        set_wf(a@),
        set_wf(b@),
        a@ == b@,
    ensures
        final(cache).wf(),
        r.0@ == r.1@,
        forall|v: Version, b2: u64|
            #[trigger] set_matches(r.0@, v, b2) == !set_matches(a@, v, b2),
{
    let ca = cache.complement(a);
    let ghost mid = *cache;
    let cb = cache.complement(b);
    proof {
        assert(exists|k: int|
            0 <= k < mid.entries_view().len() && (#[trigger] mid.entries_view()[k]).0 == a@
                && mid.entries_view()[k].1 == ca@) by {
            if !exists|k: int|
                0 <= k < old(cache).entries_view().len() && (#[trigger] old(
                    cache,
                ).entries_view()[k]).0 == a@ {
                let n = old(cache).entries_view().len() as int;
                assert(mid.entries_view()[n] == (a@, ca@));
            }
        }
        let k1 = choose|k: int|
            0 <= k < mid.entries_view().len() && (#[trigger] mid.entries_view()[k]).0 == a@
                && mid.entries_view()[k].1 == ca@;
        assert((#[trigger] mid.entries_view()[k1]).0 == b@);
        assert(*cache == mid);
        let k2 = choose|k: int|
            0 <= k < cache.entries_view().len() && (#[trigger] cache.entries_view()[k]).0 == b@
                && cache.entries_view()[k].1 == cb@;
        lemma_cache_key_determines(*cache, k1, k2);
        assert(cache.entries_view()[k1].1 == ca@);
    }
    (ca, cb)
}

/// Intersecting two AND-terms in either order gives the same term value:
/// each operation's contract says its result is the operands' product, and
/// the product is unique and order-independent.
pub proof fn lemma_element_intersection_commutes(
    x: ElementView,
    y: ElementView,
    e1: ElementView,
    e2: ElementView,
)
    requires
        elem_product(e1, x, y),
        elem_product(e2, y, x),
    ensures
        e1 == e2,
{
    lemma_elem_product_sym(e2, y, x);
    lemma_elem_product_unique(x, y, e1, e2);
}

/// A key occurs in the complement table at most once, so two lookups of
/// value-equal sets are answered with the same stored complement, whatever
/// call path produced them.
pub proof fn lemma_cache_key_determines(c: ComplementCache, k1: int, k2: int)
    requires
        c.wf(),
        0 <= k1 < c.entries_view().len(),
        0 <= k2 < c.entries_view().len(),
        c.entries_view()[k1].0 == c.entries_view()[k2].0,
    ensures
        k1 == k2,
        c.entries_view()[k1].1 == c.entries_view()[k2].1,
{
    if k1 < k2 {
        assert((c.entries_view()[k1]).0 != (c.entries_view()[k2]).0);
    }
    if k2 < k1 {
        assert((c.entries_view()[k2]).0 != (c.entries_view()[k1]).0);
    }
}

} // verus!
