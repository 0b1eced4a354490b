//! The two orders in which a plan visits the values of the alphabet: the fit
//! order, in which widths are grown, and the canonical order, in which the
//! response table lists them.

use crate::bits::{count_bits, popcount};
use vstd::prelude::*;
use vstd::relations::*;
use vstd::std_specs::bits::*;

verus! {

/// One value of the alphabet while a plan is drawn up: its number, the width
/// of its locator interval, and how many keys carry it.
#[derive(Clone, Copy)]
pub struct Item {
    pub id: usize,
    pub width: u32,
    pub count: usize,
}

/// Order by width, then count, then number: the last resort of both orders.
pub open spec fn tie_leq(a: Item, b: Item) -> bool {
    a.width < b.width || (a.width == b.width && (a.count < b.count || (a.count == b.count && a.id
        <= b.id)))
}

/// Fit order: the values whose width is largest for their number of keys come
/// first, that is descending by `width / count` compared as a fraction; equal
/// fractions by `tie_leq`. Values without keys come last.
pub open spec fn fit_leq(a: Item, b: Item) -> bool {
    if a.count == 0 || b.count == 0 {
        if a.count == 0 && b.count == 0 {
            tie_leq(a, b)
        } else {
            b.count == 0
        }
    } else if a.width * b.count != b.width * a.count {
        a.width * b.count > b.width * a.count
    } else {
        tie_leq(a, b)
    }
}

/// Canonical order: fewer set bits in the width first, then more trailing
/// zeros (higher alignment) first, then the lower number.
pub open spec fn canonical_leq(a: Item, b: Item) -> bool {
    let pa = popcount(a.width);
    let pb = popcount(b.width);
    let za = u32_trailing_zeros(a.width);
    let zb = u32_trailing_zeros(b.width);
    pa < pb || (pa == pb && (za > zb || (za == zb && (a.id < b.id || (a.id == b.id && tie_leq(
        a,
        b,
    ))))))
}

pub open spec fn fit_order() -> spec_fn(Item, Item) -> bool {
    |a: Item, b: Item| fit_leq(a, b)
}

pub open spec fn canonical_order() -> spec_fn(Item, Item) -> bool {
    |a: Item, b: Item| canonical_leq(a, b)
}

proof fn lemma_cross_chain(aw: int, ac: int, bw: int, bc: int, cw: int, cc: int)
    by (nonlinear_arith)
    requires
        ac > 0,
        bc > 0,
        cc > 0,
        aw >= 0,
        bw >= 0,
        cw >= 0,
        aw * bc <= bw * ac,
        bw * cc <= cw * bc,
    ensures
        aw * cc <= cw * ac,
        aw * bc < bw * ac ==> aw * cc < cw * ac,
        bw * cc < cw * bc ==> aw * cc < cw * ac,
{
    assert(aw * bc * cc <= bw * ac * cc);
    assert(bw * cc * ac <= cw * bc * ac);
    assert(aw * cc * bc <= cw * ac * bc);
    assert(aw * bc < bw * ac ==> aw * bc * cc < bw * ac * cc);
    assert(bw * cc < cw * bc ==> bw * cc * ac < cw * bc * ac);
}

proof fn lemma_fit_transitive(a: Item, b: Item, c: Item)
    requires
        fit_leq(a, b),
        fit_leq(b, c),
    ensures
        fit_leq(a, c),
{
    if a.count != 0 && b.count != 0 && c.count != 0 {
        lemma_cross_chain(
            c.width as int,
            c.count as int,
            b.width as int,
            b.count as int,
            a.width as int,
            a.count as int,
        );
    }
}

/// The fit order is a total order.
pub proof fn lemma_fit_order_total()
    ensures
        total_ordering(fit_order()),
{
    let r = fit_order();
    assert forall|x: Item, y: Item, z: Item| #[trigger] r(x, y) && #[trigger] r(y, z) implies r(
        x,
        z,
    ) by {
        lemma_fit_transitive(x, y, z);
    }
    assert(reflexive(r));
    assert(antisymmetric(r));
    assert(strongly_connected(r));
}

/// The canonical order is a total order.
pub proof fn lemma_canonical_order_total()
    ensures
        total_ordering(canonical_order()),
{
    let r = canonical_order();
    assert(reflexive(r));
    assert(antisymmetric(r));
    assert(transitive(r));
    assert(strongly_connected(r));
}

proof fn lemma_product_fits(w: u32, c: usize)
    by (nonlinear_arith)
    ensures
        0 <= w * c <= 0xffff_ffff * 0xffff_ffff_ffff_ffff,
{
}

/// Decides the fit order.
pub fn fit_less_eq(a: Item, b: Item) -> (r: bool)
    ensures
        r == fit_leq(a, b),
{
    let tie: bool = a.width < b.width || (a.width == b.width && (a.count < b.count || (a.count
        == b.count && a.id <= b.id)));
    if a.count == 0 || b.count == 0 {
        if a.count == 0 && b.count == 0 {
            tie
        } else {
            b.count == 0
        }
    } else {
        proof {
            lemma_product_fits(a.width, b.count);
            lemma_product_fits(b.width, a.count);
        }
        let left: u128 = (a.width as u128) * (b.count as u128);
        let right: u128 = (b.width as u128) * (a.count as u128);
        if left != right {
            left > right
        } else {
            tie
        }
    }
}

/// Decides the canonical order.
pub fn canonical_less_eq(a: Item, b: Item) -> (r: bool)
    ensures
        r == canonical_leq(a, b),
{
    let tie: bool = a.width < b.width || (a.width == b.width && (a.count < b.count || (a.count
        == b.count && a.id <= b.id)));
    let pa: usize = count_bits(a.width);
    let pb: usize = count_bits(b.width);
    let za: u32 = a.width.trailing_zeros();
    let zb: u32 = b.width.trailing_zeros();
    pa < pb || (pa == pb && (za > zb || (za == zb && (a.id < b.id || (a.id == b.id && tie)))))
}

} // verus!
