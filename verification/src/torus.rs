//! The concrete space: an n-dimensional periodic (toroidal) lattice of cells,
//! built from a dimension vector and an initializer, and wired into neighbor
//! relations by a selected tiling scheme.
//!
//! Cells are stored in a flat arena addressed row-major, the last axis
//! varying fastest; the forward index mapping and its inverse are proved to
//! round-trip exactly, and each wiring pass is proved to produce exactly the
//! adjacency relation of its tiling.

use vstd::prelude::*;
use vstd::arithmetic::div_mod::{
    lemma_fundamental_div_mod, lemma_fundamental_div_mod_converse,
    lemma_mod_division_less_than_divisor, lemma_small_mod,
};
use vstd::pervasive::VecAdditionalExecFns;

use crate::cell::{join, reduce_chain, Cell, CellView, Generation, Region, Space, State};
use crate::error::Error;

verus! {

/// The adjacency policy used to wire a torus.
#[derive(Clone, Copy, Debug, PartialEq, Eq, Structural)]
pub enum Tiling {
    /// Along each axis, the two cells one step away (von Neumann).
    Orthogonal,
    /// Orthogonal plus every hypercube-corner offset (generalized Moore).
    OrthogonalAndDiagonal,
    /// Two-dimensional legacy variant: the full 3-by-3 neighborhood.
    TouchingSquares,
    /// Two-dimensional brick-like packing that renders as hexagons.
    Hexagons,
}

/// The number of cells a lattice with extents `dims` holds.
pub open spec fn product(dims: Seq<usize>) -> int
    decreases dims.len(),
{
    if dims.len() == 0 {
        1
    } else {
        product(dims.drop_last()) * dims.last()
    }
}

/// Every extent is at least one.
pub open spec fn pos_dims(dims: Seq<usize>) -> bool {
    forall|k: int| 0 <= k < dims.len() ==> (#[trigger] dims[k]) >= 1
}

/// `c` is a coordinate vector of the lattice with extents `dims`.
pub open spec fn in_bounds(c: Seq<usize>, dims: Seq<usize>) -> bool {
    c.len() == dims.len() && forall|k: int| 0 <= k < c.len() ==> (#[trigger] c[k]) < dims[k]
}

/// The linear index of coordinates `c`: row-major, the last axis varying
/// fastest.
pub open spec fn index_of(c: Seq<usize>, dims: Seq<usize>) -> int
    decreases c.len(),
{
    if c.len() == 0 {
        0
    } else {
        index_of(c.drop_last(), dims.drop_last()) * dims.last() + c.last()
    }
}

/// The coordinates whose linear index is `i`: the inverse of `index_of`.
pub open spec fn coords_of(i: int, dims: Seq<usize>) -> Seq<usize>
    decreases dims.len(),
{
    if dims.len() == 0 {
        Seq::empty()
    } else {
        coords_of(i / (dims.last() as int), dims.drop_last()).push((i % (dims.last() as int)) as usize)
    }
}

proof fn lemma_in_bounds_pos(c: Seq<usize>, dims: Seq<usize>)
    requires
        in_bounds(c, dims),
    ensures
        pos_dims(dims),
{
    assert forall|k: int| 0 <= k < dims.len() implies (#[trigger] dims[k]) >= 1 by {
        assert(c[k] < dims[k]);
    }
}

pub proof fn lemma_product_pos(dims: Seq<usize>)
    requires
        pos_dims(dims),
    ensures
        product(dims) >= 1,
    decreases dims.len(),
{
    if dims.len() > 0 {
        assert(pos_dims(dims.drop_last())) by {
            assert(forall|k: int| 0 <= k < dims.len() - 1 ==> (#[trigger] dims.drop_last()[k]) == dims[k]);
        }
        lemma_product_pos(dims.drop_last());
        assert(product(dims.drop_last()) * dims.last() >= 1) by (nonlinear_arith)
            requires
                product(dims.drop_last()) >= 1,
                dims.last() >= 1,
        ;
    }
}

/// Every in-bounds coordinate vector has an index inside the lattice.
pub proof fn lemma_index_of_bounds(c: Seq<usize>, dims: Seq<usize>)
    requires
        in_bounds(c, dims),
    ensures
        0 <= index_of(c, dims) < product(dims),
    decreases c.len(),
{
    if c.len() == 0 {
    } else {
        assert(in_bounds(c.drop_last(), dims.drop_last())) by {
            assert(forall|k: int| 0 <= k < c.len() - 1 ==> (#[trigger] c.drop_last()[k]) == c[k]
                && dims.drop_last()[k] == dims[k]);
        }
        lemma_index_of_bounds(c.drop_last(), dims.drop_last());
        assert(c[c.len() - 1] < dims[c.len() - 1]);
        assert(index_of(c.drop_last(), dims.drop_last()) * dims.last() + c.last()
            < product(dims.drop_last()) * dims.last()) by (nonlinear_arith)
            requires
                index_of(c.drop_last(), dims.drop_last()) <= product(dims.drop_last()) - 1,
                index_of(c.drop_last(), dims.drop_last()) >= 0,
                (c.last() as int) < (dims.last() as int),
                dims.last() >= 1,
        ;
        assert(index_of(c.drop_last(), dims.drop_last()) * dims.last() >= 0) by (nonlinear_arith)
            requires
                index_of(c.drop_last(), dims.drop_last()) >= 0,
                dims.last() >= 0,
        ;
    }
}

/// Coordinate-to-index round-trips exactly: decoding the index of any
/// in-bounds coordinate vector yields that vector again.
pub proof fn lemma_index_coords_roundtrip(c: Seq<usize>, dims: Seq<usize>)
    requires
        in_bounds(c, dims),
    ensures
        coords_of(index_of(c, dims), dims) == c,
    decreases c.len(),
{
    if c.len() == 0 {
        assert(coords_of(0, dims) =~= c);
    } else {
        let cd = c.drop_last();
        let dd = dims.drop_last();
        assert(in_bounds(cd, dd)) by {
            assert(forall|k: int| 0 <= k < c.len() - 1 ==> (#[trigger] cd[k]) == c[k] && dd[k] == dims[k]);
        }
        lemma_index_coords_roundtrip(cd, dd);
        lemma_index_of_bounds(cd, dd);
        let i = index_of(c, dims);
        let m = dims.last() as int;
        lemma_fundamental_div_mod_converse(i, m, index_of(cd, dd), c.last() as int);
        assert(coords_of(i, dims) =~= c);
    }
}

/// Index-to-coordinate round-trips exactly: every index inside the lattice
/// decodes to an in-bounds coordinate vector that encodes back to it.
pub proof fn lemma_coords_of_index(i: int, dims: Seq<usize>)
    requires
        pos_dims(dims),
        0 <= i < product(dims),
    ensures
        in_bounds(coords_of(i, dims), dims),
        index_of(coords_of(i, dims), dims) == i,
    decreases dims.len(),
{
    if dims.len() == 0 {
        assert(coords_of(i, dims) =~= Seq::<usize>::empty());
    } else {
        let dd = dims.drop_last();
        let m = dims.last() as int;
        assert(pos_dims(dd)) by {
            assert(forall|k: int| 0 <= k < dims.len() - 1 ==> (#[trigger] dd[k]) == dims[k]);
        }
        lemma_product_pos(dd);
        let q = i / m;
        let r = i % m;
        lemma_fundamental_div_mod(i, m);
        lemma_mod_division_less_than_divisor(i, m);
        assert(0 <= r < m);
        assert(q >= 0) by (nonlinear_arith)
            requires
                i == m * q + r,
                0 <= r < m,
                i >= 0,
                m >= 1,
        ;
        assert(q < product(dd)) by (nonlinear_arith)
            requires
                i == m * q + r,
                0 <= r < m,
                i < product(dd) * m,
                m >= 1,
        ;
        lemma_coords_of_index(q, dd);
        let cq = coords_of(q, dd);
        assert(coords_of(i, dims) == cq.push(r as usize));
        assert(in_bounds(cq.push(r as usize), dims)) by {
            assert(forall|k: int| 0 <= k < dims.len() - 1 ==> (#[trigger] cq.push(r as usize)[k]) == cq[k]);
            assert(cq.push(r as usize)[dims.len() - 1] == r as usize);
        }
        assert(cq.push(r as usize).drop_last() =~= cq);
        assert(index_of(cq.push(r as usize), dims) == q * m + r);
        assert(q * m + r == i) by (nonlinear_arith)
            requires
                i == m * q + r,
        ;
    }
}

/// The linear index of `co_ordinates` in the lattice with extents
/// `dimensions`, or `CoordinateMismatch` exactly when the two vectors'
/// lengths disagree.
pub fn get_index(co_ordinates: &Vec<usize>, dimensions: &Vec<usize>) -> (r: Result<usize, Error>)
    requires
        co_ordinates@.len() == dimensions@.len() ==> in_bounds(co_ordinates@, dimensions@)
            && product(dimensions@) <= usize::MAX,
    ensures
        r == if co_ordinates@.len() == dimensions@.len() {
            Ok::<usize, Error>(index_of(co_ordinates@, dimensions@) as usize)
        } else {
            Err::<usize, Error>(Error::CoordinateMismatch)
        },
{
    let n = dimensions.len();
    if co_ordinates.len() != n {
        return Err(Error::CoordinateMismatch);
    }
    let mut result: usize = 0;
    for k in 0..n
        invariant
            n == dimensions@.len(),
            co_ordinates@.len() == n,
            in_bounds(co_ordinates@, dimensions@),
            product(dimensions@) <= usize::MAX,
            result as int == index_of(co_ordinates@.take(k as int), dimensions@.take(k as int)),
            (result as int) < product(dimensions@.take(k as int)),
    {
        proof {
            let ct = co_ordinates@.take(k + 1);
            let dt = dimensions@.take(k + 1);
            assert(ct.drop_last() =~= co_ordinates@.take(k as int));
            assert(dt.drop_last() =~= dimensions@.take(k as int));
            assert(in_bounds(ct, dt)) by {
                assert(forall|j: int| 0 <= j < k + 1 ==> (#[trigger] ct[j]) == co_ordinates@[j]
                    && dt[j] == dimensions@[j]);
            }
            lemma_index_of_bounds(ct, dt);
            lemma_in_bounds_pos(co_ordinates@, dimensions@);
            lemma_product_take_le(dimensions@, k + 1);
        }
        result = result * dimensions[k] + co_ordinates[k];
    }
    proof {
        assert(co_ordinates@.take(n as int) =~= co_ordinates@);
        assert(dimensions@.take(n as int) =~= dimensions@);
    }
    Ok(result)
}

/// Splitting the digits at position `m`: the index is the index of the
/// prefix, scaled by the cardinality of the suffix lattice, plus the index of
/// the suffix.
proof fn lemma_index_of_split(c: Seq<usize>, dims: Seq<usize>, m: int)
    requires
        c.len() == dims.len(),
        0 <= m <= c.len(),
    ensures
        index_of(c, dims) == index_of(c.take(m), dims.take(m)) * product(dims.skip(m))
            + index_of(c.skip(m), dims.skip(m)),
    decreases c.len(),
{
    if m == c.len() {
        assert(c.take(m) =~= c);
        assert(dims.take(m) =~= dims);
        assert(c.skip(m) =~= Seq::<usize>::empty());
        assert(dims.skip(m) =~= Seq::<usize>::empty());
    } else {
        let cd = c.drop_last();
        let dd = dims.drop_last();
        lemma_index_of_split(cd, dd, m);
        assert(cd.take(m) =~= c.take(m));
        assert(dd.take(m) =~= dims.take(m));
        assert(c.skip(m).drop_last() =~= cd.skip(m));
        assert(dims.skip(m).drop_last() =~= dd.skip(m));
        assert(dims.skip(m).last() == dims.last());
        assert(c.skip(m).last() == c.last());
        let a = index_of(c.take(m), dims.take(m));
        let p = product(dd.skip(m));
        let b = index_of(cd.skip(m), dd.skip(m));
        let l = dims.last() as int;
        let cl = c.last() as int;
        assert(index_of(c, dims) == (a * p + b) * l + cl);
        assert(product(dims.skip(m)) == p * l);
        assert(index_of(c.skip(m), dims.skip(m)) == b * l + cl);
        assert((a * p + b) * l + cl == a * (p * l) + (b * l + cl)) by (nonlinear_arith);
    }
}

/// A coordinate vector with every digit at its maximum has the last index.
proof fn lemma_index_of_max(c: Seq<usize>, dims: Seq<usize>)
    requires
        c.len() == dims.len(),
        pos_dims(dims),
        forall|k: int| 0 <= k < c.len() ==> (#[trigger] c[k]) + 1 == dims[k],
    ensures
        index_of(c, dims) == product(dims) - 1,
    decreases c.len(),
{
    if c.len() > 0 {
        let cd = c.drop_last();
        let dd = dims.drop_last();
        assert(pos_dims(dd) && forall|k: int| 0 <= k < cd.len() ==> (#[trigger] cd[k]) + 1 == dd[k]) by {
            assert(forall|k: int| 0 <= k < c.len() - 1 ==> (#[trigger] cd[k]) == c[k] && dd[k] == dims[k]);
        }
        lemma_index_of_max(cd, dd);
        let p = product(dd);
        let l = dims.last() as int;
        assert(c.last() + 1 == dims.last());
        assert((p - 1) * l + (l - 1) == p * l - 1) by (nonlinear_arith);
    }
}

/// The all-zero coordinate vector has index zero.
proof fn lemma_index_of_zeros(c: Seq<usize>, dims: Seq<usize>)
    requires
        c.len() == dims.len(),
        forall|k: int| 0 <= k < c.len() ==> (#[trigger] c[k]) == 0,
    ensures
        index_of(c, dims) == 0,
    decreases c.len(),
{
    if c.len() > 0 {
        let cd = c.drop_last();
        let dd = dims.drop_last();
        assert(forall|k: int| 0 <= k < cd.len() ==> (#[trigger] cd[k]) == 0) by {
            assert(forall|k: int| 0 <= k < c.len() - 1 ==> (#[trigger] cd[k]) == c[k]);
        }
        lemma_index_of_zeros(cd, dd);
        assert(0 * (dims.last() as int) + 0 == 0) by (nonlinear_arith);
    }
}

/// Advances `co_ordinates` to the next coordinate vector in row-major order,
/// the last axis varying fastest, wrapping from the last vector back to the
/// origin: an odometer step.
pub fn next_co_ordinates(co_ordinates: &mut Vec<usize>, dimensions: &Vec<usize>)
    requires
        dimensions@.len() >= 1,
        in_bounds(old(co_ordinates)@, dimensions@),
    ensures
        in_bounds(final(co_ordinates)@, dimensions@),
        index_of(final(co_ordinates)@, dimensions@) == if index_of(old(co_ordinates)@, dimensions@) + 1
            == product(dimensions@) {
            0int
        } else {
            index_of(old(co_ordinates)@, dimensions@) + 1
        },
{
    let ghost c0 = old(co_ordinates)@;
    let ghost d = dimensions@;
    proof {
        lemma_in_bounds_pos(c0, d);
        lemma_index_of_bounds(c0, d);
    }
    let n = dimensions.len();
    // Find the saturation boundary: every axis at or right of `s` is at its
    // maximum for its extent.
    let mut s: usize = n;
    while s > 0
        invariant
            s <= n,
            n == d.len(),
            d == dimensions@,
            co_ordinates@ == c0,
            in_bounds(c0, d),
            forall|k: int| s <= k < n ==> (#[trigger] c0[k]) + 1 == d[k],
        ensures
            s <= n,
            co_ordinates@ == c0,
            forall|k: int| s <= k < n ==> (#[trigger] c0[k]) + 1 == d[k],
            s > 0 ==> c0[s - 1] + 1 < d[s - 1],
        decreases s,
    {
        if co_ordinates[s - 1] + 1 < dimensions[s - 1] {
            break;
        }
        s = s - 1;
    }
    if s == 0 {
        // Every axis is saturated: wrap to the origin.
        let mut k: usize = 0;
        while k < n
            invariant
                k <= n,
                n == d.len(),
                d == dimensions@,
                in_bounds(c0, d),
                co_ordinates@.len() == n,
                forall|j: int| 0 <= j < k ==> (#[trigger] co_ordinates@[j]) == 0,
                forall|j: int| k <= j < n ==> (#[trigger] co_ordinates@[j]) == c0[j],
            decreases n - k,
        {
            co_ordinates.set(k, 0);
            k = k + 1;
        }
        proof {
            lemma_index_of_max(c0, d);
            lemma_index_of_zeros(co_ordinates@, d);
            assert(in_bounds(co_ordinates@, d));
        }
    } else {
        let j = s - 1;
        let v = co_ordinates[j];
        co_ordinates.set(j, v + 1);
        // Carry: zero every saturated axis right of `j`.
        let mut k: usize = s;
        while k < n
            invariant
                1 <= s <= k <= n,
                n == d.len(),
                d == dimensions@,
                in_bounds(c0, d),
                c0[s - 1] + 1 < d[s - 1],
                co_ordinates@.len() == n,
                forall|i: int| 0 <= i < s - 1 ==> (#[trigger] co_ordinates@[i]) == c0[i],
                co_ordinates@[s - 1] == c0[s - 1] + 1,
                forall|i: int| s <= i < k ==> (#[trigger] co_ordinates@[i]) == 0,
                forall|i: int| k <= i < n ==> (#[trigger] co_ordinates@[i]) == c0[i],
            decreases n - k,
        {
            co_ordinates.set(k, 0);
            k = k + 1;
        }
        proof {
            let c1 = co_ordinates@;
            let m = s as int;
            assert(in_bounds(c1, d));
            lemma_index_of_split(c0, d, m);
            lemma_index_of_split(c1, d, m);
            // the old suffix is fully saturated
            assert(c0.skip(m).len() == d.skip(m).len());
            assert(pos_dims(d.skip(m)) && forall|k: int|
                0 <= k < c0.skip(m).len() ==> (#[trigger] c0.skip(m)[k]) + 1 == d.skip(m)[k]) by {
                assert(forall|k: int| 0 <= k < n - m ==> (#[trigger] c0.skip(m)[k]) == c0[k + m]
                    && d.skip(m)[k] == d[k + m]);
            }
            lemma_index_of_max(c0.skip(m), d.skip(m));
            // the new suffix is all zeros
            assert(forall|k: int| 0 <= k < n - m ==> (#[trigger] c1.skip(m)[k]) == c1[k + m]);
            lemma_index_of_zeros(c1.skip(m), d.skip(m));
            // the prefixes differ only in their last digit, by exactly one
            assert(c1.take(m).drop_last() =~= c0.take(m).drop_last());
            assert(d.take(m).drop_last() == d.take(m).drop_last());
            assert(c1.take(m).last() == c0.take(m).last() + 1);
            assert(index_of(c1.take(m), d.take(m)) == index_of(c0.take(m), d.take(m)) + 1);
            let a = index_of(c0.take(m), d.take(m));
            let p = product(d.skip(m));
            assert(index_of(c0, d) == a * p + (p - 1));
            assert(index_of(c1, d) == (a + 1) * p + 0);
            assert((a + 1) * p == a * p + p) by (nonlinear_arith);
            lemma_index_of_bounds(c1, d);
        }
    }
}

/// The product of a prefix of the extents never exceeds the whole product.
proof fn lemma_product_take_le(dims: Seq<usize>, k: int)
    requires
        pos_dims(dims),
        0 <= k <= dims.len(),
    ensures
        product(dims.take(k)) <= product(dims),
    decreases dims.len() - k,
{
    if k == dims.len() {
        assert(dims.take(k) =~= dims);
    } else {
        lemma_product_take_le(dims, k + 1);
        assert(dims.take(k + 1).drop_last() =~= dims.take(k));
        assert(pos_dims(dims.take(k))) by {
            assert(forall|j: int| 0 <= j < k ==> (#[trigger] dims.take(k)[j]) == dims[j]);
        }
        lemma_product_pos(dims.take(k));
        assert(product(dims.take(k)) <= product(dims.take(k)) * dims[k]) by (nonlinear_arith)
            requires
                product(dims.take(k)) >= 1,
                (dims[k] as int) >= 1,
        ;
        assert(dims.take(k + 1).last() == dims[k]);
    }
}

/// `(x + b) % m`: the coordinate `b` steps up from `x` along an axis of
/// extent `m`, wrapping around.
pub open spec fn mod_add(x: usize, b: int, m: usize) -> usize
    recommends
        m >= 1,
        b >= 0,
{
    ((x + b) % (m as int)) as usize
}

/// Computes `(a + b) % m` without overflowing.
fn add_mod(a: usize, b: usize, m: usize) -> (r: usize)
    requires
        m >= 1,
        a < m,
        b <= m,
    ensures
        r == mod_add(a, b as int, m),
        r < m,
{
    if b == m {
        proof {
            vstd::arithmetic::div_mod::lemma_mod_add_multiples_vanish(a as int, m as int);
            lemma_small_mod(a as nat, m as nat);
        }
        a
    } else if a >= m - b {
        proof {
            vstd::arithmetic::div_mod::lemma_mod_add_multiples_vanish((a + b - m) as int, m as int);
            lemma_small_mod((a + b - m) as nat, m as nat);
        }
        a - (m - b)
    } else {
        proof {
            lemma_small_mod((a + b) as nat, m as nat);
        }
        a + b
    }
}

/// Whether `dims` is a dimension vector the given tiling accepts: at least
/// one axis, every extent positive; two axes for the two-dimensional
/// tilings; and both extents even for hexagons.
pub open spec fn dims_ok(tiling: Tiling, dims: Seq<usize>) -> bool {
    &&& dims.len() >= 1
    &&& pos_dims(dims)
    &&& tiling == Tiling::Hexagons ==> dims.len() == 2 && dims[0] % 2 == 0 && dims[1] % 2 == 0
    &&& tiling == Tiling::TouchingSquares ==> dims.len() == 2
}

/// The identity of the cell `b` steps up along axis `k` from the cell with
/// index `i`.
pub open spec fn axis_step_id(dims: Seq<usize>, i: int, k: int, b: int) -> int {
    let c = coords_of(i, dims);
    index_of(c.update(k, mod_add(c[k], b, dims[k])), dims)
}

/// `j` is one orthogonal step away from cell `i` along one of the first `n`
/// axes: one step up or one step down, wrapping.
pub open spec fn orth_step_upto(dims: Seq<usize>, i: usize, j: usize, n: int) -> bool
    decreases n,
{
    0 < n && ((j as int) == axis_step_id(dims, i as int, n - 1, 1) || (j as int) == axis_step_id(
        dims,
        i as int,
        n - 1,
        dims[n - 1] - 1,
    ) || orth_step_upto(dims, i, j, n - 1))
}

/// `j` is one orthogonal step away from cell `i`: one step up or down along
/// some axis.
pub open spec fn orth_step(dims: Seq<usize>, i: usize, j: usize) -> bool {
    orth_step_upto(dims, i, j, dims.len() as int)
}

/// The identities a cell emits joins to under orthogonal wiring: one step up
/// and one step down along every axis.
pub open spec fn orth_emits(dims: Seq<usize>, i: usize) -> Set<usize> {
    Set::new(|j: usize| orth_step(dims, i, j))
}

/// Membership in the orthogonal emission set is the step predicate.
pub proof fn lemma_orth_emits(dims: Seq<usize>, i: usize, j: usize)
    ensures
        orth_emits(dims, i).contains(j) == orth_step(dims, i, j),
{
    broadcast use vstd::set::group_set_axioms;

}

proof fn lemma_orth_step_upto_elim(dims: Seq<usize>, i: usize, j: usize, n: int) -> (k: int)
    requires
        orth_step_upto(dims, i, j, n),
    ensures
        0 <= k < n,
        (j as int) == axis_step_id(dims, i as int, k, 1) || (j as int) == axis_step_id(
            dims,
            i as int,
            k,
            dims[k] - 1,
        ),
    decreases n,
{
    if (j as int) == axis_step_id(dims, i as int, n - 1, 1) || (j as int) == axis_step_id(
        dims,
        i as int,
        n - 1,
        dims[n - 1] - 1,
    ) {
        n - 1
    } else {
        lemma_orth_step_upto_elim(dims, i, j, n - 1)
    }
}

proof fn lemma_orth_step_upto_intro(dims: Seq<usize>, i: usize, j: usize, k: int, n: int)
    requires
        0 <= k < n,
        (j as int) == axis_step_id(dims, i as int, k, 1) || (j as int) == axis_step_id(
            dims,
            i as int,
            k,
            dims[k] - 1,
        ),
    ensures
        orth_step_upto(dims, i, j, n),
    decreases n,
{
    if k < n - 1 {
        lemma_orth_step_upto_intro(dims, i, j, k, n - 1);
    }
}

/// An orthogonal step has an axis; yields it.
pub proof fn lemma_orth_step_elim(dims: Seq<usize>, i: usize, j: usize) -> (k: int)
    requires
        orth_step(dims, i, j),
    ensures
        0 <= k < dims.len(),
        (j as int) == axis_step_id(dims, i as int, k, 1) || (j as int) == axis_step_id(
            dims,
            i as int,
            k,
            dims[k] - 1,
        ),
{
    lemma_orth_step_upto_elim(dims, i, j, dims.len() as int)
}

/// Every axis step is an orthogonal step.
pub proof fn lemma_orth_step_intro(dims: Seq<usize>, i: usize, j: usize, k: int)
    requires
        0 <= k < dims.len(),
        (j as int) == axis_step_id(dims, i as int, k, 1) || (j as int) == axis_step_id(
            dims,
            i as int,
            k,
            dims[k] - 1,
        ),
    ensures
        orth_step(dims, i, j),
{
    lemma_orth_step_upto_intro(dims, i, j, k, dims.len() as int);
}

/// The extents of the corner-selection lattice: two choices per axis.
pub open spec fn two_dims(n: int) -> Seq<usize> {
    Seq::new(n as nat, |k: int| 2usize)
}

/// The coordinates of the hypercube corner selected by `dc`: along each
/// axis, one step up where `dc` holds 1, one step down where it holds 0.
pub open spec fn corner_coords(c: Seq<usize>, dc: Seq<usize>, dims: Seq<usize>) -> Seq<usize> {
    Seq::new(
        c.len(),
        |k: int|
            if dc[k] == 1 {
                mod_add(c[k], 1, dims[k])
            } else {
                mod_add(c[k], dims[k] - 1, dims[k])
            },
    )
}

/// The identities a cell emits joins to under diagonal wiring: every
/// hypercube corner reached by offsetting each coordinate by one, up or
/// down, independently.
pub open spec fn diag_emits(dims: Seq<usize>, i: usize) -> Set<usize> {
    Set::new(|j: usize| diag_step(dims, i, j))
}

/// The identity of the hypercube corner of cell `i` selected by the mask
/// `m`: the mask's digits in the two-per-axis lattice choose, per axis, one
/// step up or one step down.
pub open spec fn corner_id(dims: Seq<usize>, i: int, m: int) -> int {
    index_of(
        corner_coords(coords_of(i, dims), coords_of(m, two_dims(dims.len() as int)), dims),
        dims,
    )
}

/// `j` is a hypercube corner of cell `i` selected by a mask below `m`.
pub open spec fn diag_step_upto(dims: Seq<usize>, i: usize, j: usize, m: int) -> bool
    decreases m,
{
    0 < m && ((j as int) == corner_id(dims, i as int, m - 1) || diag_step_upto(dims, i, j, m - 1))
}

/// `j` is a hypercube corner of cell `i`: along every axis, one step up or
/// one step down, chosen independently.
pub open spec fn diag_step(dims: Seq<usize>, i: usize, j: usize) -> bool {
    diag_step_upto(dims, i, j, product(two_dims(dims.len() as int)))
}

/// Membership in the diagonal emission set is the step predicate.
pub proof fn lemma_diag_emits(dims: Seq<usize>, i: usize, j: usize)
    ensures
        diag_emits(dims, i).contains(j) == diag_step(dims, i, j),
{
    broadcast use vstd::set::group_set_axioms;

}

proof fn lemma_diag_step_upto_elim(dims: Seq<usize>, i: usize, j: usize, m: int) -> (r: int)
    requires
        diag_step_upto(dims, i, j, m),
    ensures
        0 <= r < m,
        (j as int) == corner_id(dims, i as int, r),
    decreases m,
{
    if (j as int) == corner_id(dims, i as int, m - 1) {
        m - 1
    } else {
        lemma_diag_step_upto_elim(dims, i, j, m - 1)
    }
}

proof fn lemma_diag_step_upto_intro(dims: Seq<usize>, i: usize, j: usize, r: int, m: int)
    requires
        0 <= r < m,
        (j as int) == corner_id(dims, i as int, r),
    ensures
        diag_step_upto(dims, i, j, m),
    decreases m,
{
    if r < m - 1 {
        lemma_diag_step_upto_intro(dims, i, j, r, m - 1);
    }
}

/// A diagonal step has a corner mask; yields it.
pub proof fn lemma_diag_step_elim(dims: Seq<usize>, i: usize, j: usize) -> (r: int)
    requires
        diag_step(dims, i, j),
    ensures
        0 <= r < product(two_dims(dims.len() as int)),
        (j as int) == corner_id(dims, i as int, r),
{
    lemma_diag_step_upto_elim(dims, i, j, product(two_dims(dims.len() as int)))
}

/// Every corner mask selects a diagonal step.
pub proof fn lemma_diag_step_intro(dims: Seq<usize>, i: usize, j: usize, r: int)
    requires
        0 <= r < product(two_dims(dims.len() as int)),
        (j as int) == corner_id(dims, i as int, r),
    ensures
        diag_step(dims, i, j),
{
    lemma_diag_step_upto_intro(dims, i, j, r, product(two_dims(dims.len() as int)));
}

/// The identities a cell emits joins to under the legacy two-dimensional
/// touching-squares wiring: the full three-by-three neighborhood around it,
/// wrapping, excluding the null offset.
pub open spec fn ts_emits(dims: Seq<usize>, i: usize) -> Set<usize> {
    Set::new(|j: usize| ts_step(dims, i, j))
}

/// `j` is one of the eight touching-squares offsets around cell `i`: its
/// three-by-three wraparound neighborhood without the null offset.
pub open spec fn ts_step(dims: Seq<usize>, i: usize, j: usize) -> bool {
    let c = coords_of(i as int, dims);
    let h = dims[0];
    let w = dims[1];
    (j as int) == index_of(seq![mod_add(c[0], 0, h), mod_add(c[1], 1, w)], dims) || (j as int)
        == index_of(seq![mod_add(c[0], 0, h), mod_add(c[1], w - 1, w)], dims) || (j as int)
        == index_of(seq![mod_add(c[0], 1, h), mod_add(c[1], 0, w)], dims) || (j as int)
        == index_of(seq![mod_add(c[0], 1, h), mod_add(c[1], 1, w)], dims) || (j as int)
        == index_of(seq![mod_add(c[0], 1, h), mod_add(c[1], w - 1, w)], dims) || (j as int)
        == index_of(seq![mod_add(c[0], h - 1, h), mod_add(c[1], 0, w)], dims) || (j as int)
        == index_of(seq![mod_add(c[0], h - 1, h), mod_add(c[1], 1, w)], dims) || (j as int)
        == index_of(seq![mod_add(c[0], h - 1, h), mod_add(c[1], w - 1, w)], dims)
}

/// Membership in the touching-squares emission set is the step predicate.
pub proof fn lemma_ts_emits(dims: Seq<usize>, i: usize, j: usize)
    ensures
        ts_emits(dims, i).contains(j) == ts_step(dims, i, j),
{
    broadcast use vstd::set::group_set_axioms;

}

/// The identities a cell emits joins to under hexagonal wiring: the next
/// cell in its row, and the two cells in the next row whose columns are
/// offset by the parity of the current row.
pub open spec fn hex_emits(dims: Seq<usize>, i: usize) -> Set<usize> {
    Set::new(|j: usize| hex_step(dims, i, j))
}

/// `j` is one of the three hexagonal steps from cell `i`: the next cell in
/// its row, or one of the two cells in the next row at columns offset by the
/// row's parity.
pub open spec fn hex_step(dims: Seq<usize>, i: usize, j: usize) -> bool {
    let c = coords_of(i as int, dims);
    let y = c[0];
    let x = c[1];
    let h = dims[0];
    let w = dims[1];
    let off = w - (y % 2);
    (j as int) == index_of(seq![y, mod_add(x, 1, w)], dims) || (j as int) == index_of(
        seq![mod_add(y, 1, h), mod_add(x, off as int, w)],
        dims,
    ) || (j as int) == index_of(seq![mod_add(y, 1, h), mod_add(x, off + 1, w)], dims)
}

/// Membership in the hexagonal emission set is the step predicate.
pub proof fn lemma_hex_emits(dims: Seq<usize>, i: usize, j: usize)
    ensures
        hex_emits(dims, i).contains(j) == hex_step(dims, i, j),
{
    broadcast use vstd::set::group_set_axioms;

}

/// The identities the wiring pass for `tiling` joins the cell `i` to, as it
/// sweeps the lattice.
pub open spec fn emits(tiling: Tiling, dims: Seq<usize>, i: usize) -> Set<usize> {
    match tiling {
        Tiling::Orthogonal => orth_emits(dims, i),
        Tiling::OrthogonalAndDiagonal => orth_emits(dims, i).union(diag_emits(dims, i)),
        Tiling::TouchingSquares => ts_emits(dims, i),
        Tiling::Hexagons => hex_emits(dims, i),
    }
}

/// Two cells are adjacent when either's wiring round emits a join to the
/// other; `join` inserts both directions, so the relation is symmetric by
/// construction.
pub open spec fn adjacent(tiling: Tiling, dims: Seq<usize>, a: usize, b: usize) -> bool {
    emits(tiling, dims, a).contains(b) || emits(tiling, dims, b).contains(a)
}

/// The neighbor set of cell `i` once wiring has finished: the cells of the
/// lattice adjacent to it under the tiling.
pub open spec fn nbr_set(tiling: Tiling, dims: Seq<usize>, i: usize) -> Set<usize> {
    Set::new(|j: usize| (j as int) < product(dims) && adjacent(tiling, dims, i, j))
}

/// The abstract value of a torus: its tiling, its extents, and the abstract
/// value of every cell, in index order.
pub ghost struct TorusView<S> {
    pub tiling: Tiling,
    pub dims: Seq<usize>,
    pub cells: Seq<CellView<S>>,
}

/// An n-dimensional periodic lattice of cells, flat in memory and addressed
/// row-major with the last axis varying fastest, wired according to a tiling
/// scheme chosen at construction.
pub struct Torus<S> {
    tiling: Tiling,
    dimensions: Vec<usize>,
    cells: Vec<Cell<S>>,
}

impl<S> View for Torus<S> {
    type V = TorusView<S>;

    closed spec fn view(&self) -> TorusView<S> {
        TorusView {
            tiling: self.tiling,
            dims: self.dimensions@,
            cells: self.cells@.map_values(|c: Cell<S>| c@),
        }
    }
}

impl<S> Torus<S> {
    /// The representation invariant of the cell records themselves.
    pub closed spec fn cells_wf(&self) -> bool {
        forall|i: int| 0 <= i < self.cells@.len() ==> (#[trigger] self.cells@[i]).wf()
    }

    /// A well-formed torus: acceptable extents, one cell per lattice point,
    /// and every cell's neighbor set exactly the adjacency of the tiling.
    pub open spec fn wf(&self) -> bool {
        &&& self.cells_wf()
        &&& dims_ok(self@.tiling, self@.dims)
        &&& product(self@.dims) <= usize::MAX
        &&& self@.cells.len() == product(self@.dims)
        &&& forall|i: int|
            0 <= i < self@.cells.len() ==> (#[trigger] self@.cells[i]).neighbors.to_set() == nbr_set(
                self@.tiling,
                self@.dims,
                i as usize,
            )
        &&& forall|i: int| 0 <= i < self@.cells.len() ==> (#[trigger] self@.cells[i]).neighbors.no_duplicates()
    }
}

/// The initializer `f`, applied to the coordinate vector `c`, can return
/// `s`.
pub open spec fn init_returns<S, F: Fn(&Vec<usize>) -> S>(f: F, c: Seq<usize>, s: S) -> bool {
    exists|cv: &Vec<usize>| cv@ == c && #[trigger] call_ensures(f, (cv,), s)
}

/// The state map `states` holds exactly one entry: at generation `g`, a
/// value the initializer `f` can return for the coordinates of cell `i`.
pub open spec fn cell_seeded<S, F: Fn(&Vec<usize>) -> S>(
    f: F,
    dims: Seq<usize>,
    g: usize,
    states: Map<usize, S>,
    i: int,
) -> bool {
    exists|s: S| init_returns(f, coords_of(i, dims), s) && states == Map::<usize, S>::empty().insert(
        g,
        s,
    )
}

/// Creates one cell per lattice point, enumerating every coordinate vector
/// in row-major order and seeding each cell with the initializer's value for
/// its coordinates, at `initial_gen`.
fn create_cells<S: Copy, F: Fn(&Vec<usize>) -> S>(
    dimensions: &Vec<usize>,
    cardinality: usize,
    initial_gen: usize,
    initial_state: &F,
) -> (cells: Vec<Cell<S>>)
    requires
        dimensions@.len() >= 1,
        pos_dims(dimensions@),
        cardinality as int == product(dimensions@),
        forall|cv: &Vec<usize>|
            in_bounds(cv@, dimensions@) ==> #[trigger] call_requires(*initial_state, (cv,)),
    ensures
        cells@.len() == cardinality,
        forall|i: int| 0 <= i < cells@.len() ==> (#[trigger] cells@[i]).wf(),
        forall|i: int| 0 <= i < cells@.len() ==> (#[trigger] cells@[i])@.neighbors == Seq::<usize>::empty(),
        forall|i: int|
            0 <= i < cells@.len() ==> cell_seeded(
                *initial_state,
                dimensions@,
                initial_gen,
                (#[trigger] cells@[i])@.states,
                i,
            ),
{
    let ghost d = dimensions@;
    let n = dimensions.len();
    let mut cells: Vec<Cell<S>> = Vec::new();
    let mut co_ordinates: Vec<usize> = Vec::new();
    for _k in 0..n
        invariant
            co_ordinates@.len() == _k,
            forall|j: int| 0 <= j < _k ==> (#[trigger] co_ordinates@[j]) == 0,
    {
        co_ordinates.push(0);
    }
    proof {
        lemma_index_of_zeros(co_ordinates@, d);
        lemma_product_pos(d);
    }
    let mut i: usize = 0;
    while i < cardinality
        invariant
            n == d.len(),
            n >= 1,
            d == dimensions@,
            pos_dims(d),
            cardinality as int == product(d),
            forall|cv: &Vec<usize>|
                in_bounds(cv@, d) ==> #[trigger] call_requires(*initial_state, (cv,)),
            i <= cardinality,
            cells@.len() == i,
            in_bounds(co_ordinates@, d),
            index_of(co_ordinates@, d) == if i < cardinality {
                i as int
            } else {
                0int
            },
            forall|j: int| 0 <= j < cells@.len() ==> (#[trigger] cells@[j]).wf(),
            forall|j: int|
                0 <= j < cells@.len() ==> (#[trigger] cells@[j])@.neighbors == Seq::<usize>::empty(),
            forall|j: int|
                0 <= j < cells@.len() ==> cell_seeded(
                    *initial_state,
                    d,
                    initial_gen,
                    (#[trigger] cells@[j])@.states,
                    j,
                ),
        decreases cardinality - i,
    {
        let s = (*initial_state)(&co_ordinates);
        cells.push(Cell::new(initial_gen, s));
        proof {
            lemma_index_coords_roundtrip(co_ordinates@, d);
            assert(init_returns(*initial_state, coords_of(i as int, d), s));
            assert(cell_seeded(*initial_state, d, initial_gen, cells@[i as int]@.states, i as int));
        }
        next_co_ordinates(&mut co_ordinates, dimensions);
        i = i + 1;
    }
    cells
}

/// A two-coordinate vector inside both extents has an index inside the
/// lattice.
proof fn lemma_pair_index_bounded(dims: Seq<usize>, a: usize, b: usize)
    requires
        dims.len() == 2,
        a < dims[0],
        b < dims[1],
    ensures
        0 <= index_of(seq![a, b], dims) < product(dims),
{
    assert(in_bounds(seq![a, b], dims));
    lemma_index_of_bounds(seq![a, b], dims);
}

/// A modular step stays inside its extent.
proof fn lemma_mod_add_bound(x: usize, b: int, m: usize)
    requires
        m >= 1,
        b >= 0,
    ensures
        (mod_add(x, b, m) as int) < m,
        (mod_add(x, b, m) as int) == (x + b) % (m as int),
{
    lemma_mod_division_less_than_divisor(x + b, m as int);
}

/// Every identity a wiring round emits lies inside the lattice.
proof fn lemma_emits_bounded(tiling: Tiling, dims: Seq<usize>, i: usize, j: usize)
    requires
        dims_ok(tiling, dims),
        (i as int) < product(dims),
        emits(tiling, dims, i).contains(j),
    ensures
        (j as int) < product(dims),
{
    lemma_coords_of_index(i as int, dims);
    let c = coords_of(i as int, dims);
    match tiling {
        Tiling::Orthogonal => {
            lemma_orth_emits(dims, i, j);
            let k = lemma_orth_step_elim(dims, i, j);
            lemma_axis_step_bounded(dims, i, j, k);
        },
        Tiling::OrthogonalAndDiagonal => {
            if orth_emits(dims, i).contains(j) {
                lemma_orth_emits(dims, i, j);
                let k = lemma_orth_step_elim(dims, i, j);
                lemma_axis_step_bounded(dims, i, j, k);
            } else {
                assert(diag_emits(dims, i).contains(j));
                lemma_diag_emits(dims, i, j);
                let r = lemma_diag_step_elim(dims, i, j);
                lemma_corner_bounded(dims, i, j, r);
            }
        },
        Tiling::TouchingSquares => {
            lemma_ts_emits(dims, i, j);
            let h = dims[0];
            let w = dims[1];
            lemma_mod_add_bound(c[0], 0, h);
            lemma_mod_add_bound(c[0], 1, h);
            lemma_mod_add_bound(c[0], h - 1, h);
            lemma_mod_add_bound(c[1], 0, w);
            lemma_mod_add_bound(c[1], 1, w);
            lemma_mod_add_bound(c[1], w - 1, w);
            lemma_pair_index_bounded(dims, mod_add(c[0], 0, h), mod_add(c[1], 1, w));
            lemma_pair_index_bounded(dims, mod_add(c[0], 0, h), mod_add(c[1], w - 1, w));
            lemma_pair_index_bounded(dims, mod_add(c[0], 1, h), mod_add(c[1], 0, w));
            lemma_pair_index_bounded(dims, mod_add(c[0], 1, h), mod_add(c[1], 1, w));
            lemma_pair_index_bounded(dims, mod_add(c[0], 1, h), mod_add(c[1], w - 1, w));
            lemma_pair_index_bounded(dims, mod_add(c[0], h - 1, h), mod_add(c[1], 0, w));
            lemma_pair_index_bounded(dims, mod_add(c[0], h - 1, h), mod_add(c[1], 1, w));
            lemma_pair_index_bounded(dims, mod_add(c[0], h - 1, h), mod_add(c[1], w - 1, w));
        },
        Tiling::Hexagons => {
            lemma_hex_emits(dims, i, j);
            let h = dims[0];
            let w = dims[1];
            let off = w - (c[0] % 2);
            lemma_mod_add_bound(c[1], 1, w);
            lemma_mod_add_bound(c[0], 1, h);
            lemma_mod_add_bound(c[1], off as int, w);
            lemma_mod_add_bound(c[1], off + 1, w);
            lemma_pair_index_bounded(dims, c[0], mod_add(c[1], 1, w));
            lemma_pair_index_bounded(dims, mod_add(c[0], 1, h), mod_add(c[1], off as int, w));
            lemma_pair_index_bounded(dims, mod_add(c[0], 1, h), mod_add(c[1], off + 1, w));
        },
    }
}

/// An axis step from a cell of the lattice lands inside the lattice.
proof fn lemma_axis_step_bounded(dims: Seq<usize>, i: usize, j: usize, k: int)
    requires
        pos_dims(dims),
        0 <= (i as int) < product(dims),
        0 <= k < dims.len(),
        (j as int) == axis_step_id(dims, i as int, k, 1) || (j as int) == axis_step_id(
            dims,
            i as int,
            k,
            dims[k] - 1,
        ),
    ensures
        (j as int) < product(dims),
{
    lemma_coords_of_index(i as int, dims);
    let c = coords_of(i as int, dims);
    lemma_mod_add_bound(c[k], 1, dims[k]);
    lemma_mod_add_bound(c[k], dims[k] - 1, dims[k]);
    let cu = c.update(k, mod_add(c[k], 1, dims[k]));
    let cd2 = c.update(k, mod_add(c[k], dims[k] - 1, dims[k]));
    assert(in_bounds(cu, dims)) by {
        assert(forall|q: int| 0 <= q < c.len() && q != k ==> (#[trigger] cu[q]) == c[q]);
    }
    assert(in_bounds(cd2, dims)) by {
        assert(forall|q: int| 0 <= q < c.len() && q != k ==> (#[trigger] cd2[q]) == c[q]);
    }
    lemma_index_of_bounds(cu, dims);
    lemma_index_of_bounds(cd2, dims);
}

/// A hypercube corner of a cell of the lattice lands inside the lattice.
proof fn lemma_corner_bounded(dims: Seq<usize>, i: usize, j: usize, r: int)
    requires
        pos_dims(dims),
        0 <= (i as int) < product(dims),
        (j as int) == corner_id(dims, i as int, r),
    ensures
        (j as int) < product(dims),
{
    lemma_coords_of_index(i as int, dims);
    let c = coords_of(i as int, dims);
    let dc = coords_of(r, two_dims(dims.len() as int));
    let cc = corner_coords(c, dc, dims);
    assert(in_bounds(cc, dims)) by {
        assert forall|q: int| 0 <= q < cc.len() implies (#[trigger] cc[q]) < dims[q] by {
            lemma_mod_add_bound(c[q], 1, dims[q]);
            lemma_mod_add_bound(c[q], dims[q] - 1, dims[q]);
        }
    }
    lemma_index_of_bounds(cc, dims);
}

/// A cell with no neighbors is wired up to round zero.
proof fn lemma_wired_zero<S>(tiling: Tiling, dims: Seq<usize>, cv: CellView<S>, p: usize)
    requires
        cv.neighbors == Seq::<usize>::empty(),
    ensures
        wired_upto(tiling, dims, cv, p, 0),
{
    broadcast use vstd::set::group_set_axioms;

    assert(cv.neighbors.to_set() =~= Set::new(
        |q: usize|
            ((p as int) < 0 && emits(tiling, dims, p).contains(q)) || ((q as int) < 0 && emits(
                tiling,
                dims,
                q,
            ).contains(p)),
    )) by {
        assert forall|q: usize| !cv.neighbors.to_set().contains(q) by {
            if cv.neighbors.to_set().contains(q) {
                let t = choose|t: int| 0 <= t < cv.neighbors.len() && cv.neighbors[t] == q;
            }
        }
    }
}

/// A cell wired through every round holds exactly the adjacency of the
/// tiling.
proof fn lemma_wired_full<S>(tiling: Tiling, dims: Seq<usize>, cv: CellView<S>, p: usize)
    requires
        dims_ok(tiling, dims),
        (p as int) < product(dims),
        wired_upto(tiling, dims, cv, p, product(dims)),
    ensures
        cv.neighbors.to_set() == nbr_set(tiling, dims, p),
{
    broadcast use vstd::set::group_set_axioms;

    let rounds = product(dims);
    assert forall|q: usize| cv.neighbors.to_set().contains(q) implies nbr_set(
        tiling,
        dims,
        p,
    ).contains(q) by {
        if emits(tiling, dims, p).contains(q) {
            lemma_emits_bounded(tiling, dims, p, q);
        }
        assert((q as int) < product(dims) && adjacent(tiling, dims, p, q));
    }
    assert forall|q: usize| nbr_set(tiling, dims, p).contains(q) implies cv.neighbors.to_set().contains(
        q,
    ) by {
        assert((q as int) < rounds && adjacent(tiling, dims, p, q));
    }
    assert(cv.neighbors.to_set() =~= nbr_set(tiling, dims, p));
}

/// After the wiring rounds `0 .. rounds` have run, the neighbor set of cell
/// `p` holds exactly the edges one of those rounds inserted: `q` is a
/// neighbor of `p` iff round `p` has run and emits `q`, or round `q` has run
/// and emits `p`.
pub open spec fn wired_upto<S>(
    tiling: Tiling,
    dims: Seq<usize>,
    cv: CellView<S>,
    p: usize,
    rounds: int,
) -> bool {
    cv.neighbors.to_set() == Set::new(
        |q: usize|
            ((p as int) < rounds && emits(tiling, dims, p).contains(q)) || ((q as int) < rounds
                && emits(tiling, dims, q).contains(p)),
    )
}

/// One wiring round preserves the `wired_upto` bookkeeping: after round `i`
/// inserts its edges, every cell is wired up to round `i + 1`.
proof fn lemma_wired_step<S>(
    tiling: Tiling,
    dims: Seq<usize>,
    prevv: CellView<S>,
    curv: CellView<S>,
    p: usize,
    i: usize,
)
    requires
        wired_upto(tiling, dims, prevv, p, i as int),
        p == i ==> curv.neighbors.to_set() == prevv.neighbors.to_set().union(
            emits(tiling, dims, i),
        ),
        p != i ==> curv.neighbors.to_set() == if emits(tiling, dims, i).contains(p) {
            prevv.neighbors.to_set().insert(i)
        } else {
            prevv.neighbors.to_set()
        },
    ensures
        wired_upto(tiling, dims, curv, p, i as int + 1),
{
    let before = Set::new(
        |q: usize|
            ((p as int) < i as int && emits(tiling, dims, p).contains(q)) || ((q as int) < i as int
                && emits(tiling, dims, q).contains(p)),
    );
    let after = Set::new(
        |q: usize|
            ((p as int) < i as int + 1 && emits(tiling, dims, p).contains(q)) || ((q as int) < i as int
                + 1 && emits(tiling, dims, q).contains(p)),
    );
    if p == i {
        assert(curv.neighbors.to_set() =~= after) by {
            assert(curv.neighbors.to_set() == before.union(emits(tiling, dims, i)));
        }
    } else {
        if emits(tiling, dims, i).contains(p) {
            assert(curv.neighbors.to_set() =~= after) by {
                assert(curv.neighbors.to_set() == before.insert(i));
            }
        } else {
            assert(curv.neighbors.to_set() =~= after) by {
                assert(curv.neighbors.to_set() == before);
            }
        }
    }
}

/// Joins cell `i` with every identity in `targets`, in order.
fn join_all<S: Copy>(cells: &mut Vec<Cell<S>>, i: usize, targets: &Vec<usize>)
    requires
        i < old(cells)@.len(),
        forall|t: int| 0 <= t < targets@.len() ==> (#[trigger] targets@[t]) < old(cells)@.len(),
        forall|p: int| 0 <= p < old(cells)@.len() ==> (#[trigger] old(cells)@[p]).wf(),
    ensures
        final(cells)@.len() == old(cells)@.len(),
        forall|p: int| 0 <= p < final(cells)@.len() ==> (#[trigger] final(cells)@[p]).wf(),
        forall|p: int|
            0 <= p < final(cells)@.len() ==> (#[trigger] final(cells)@[p])@.states == old(cells)@[p]@.states,
        final(cells)@[i as int]@.neighbors.to_set() == old(cells)@[i as int]@.neighbors.to_set().union(
            targets@.to_set(),
        ),
        forall|p: usize|
            p < final(cells)@.len() && p != i ==> (#[trigger] final(cells)@[p as int])@.neighbors.to_set()
                == if targets@.to_set().contains(p) {
                old(cells)@[p as int]@.neighbors.to_set().insert(i)
            } else {
                old(cells)@[p as int]@.neighbors.to_set()
            },
{
    let n = targets.len();
    for t in 0..n
        invariant
            n == targets@.len(),
            i < cells@.len(),
            cells@.len() == old(cells)@.len(),
            forall|q: int| 0 <= q < targets@.len() ==> (#[trigger] targets@[q]) < cells@.len(),
            forall|p: int| 0 <= p < cells@.len() ==> (#[trigger] cells@[p]).wf(),
            forall|p: int|
                0 <= p < cells@.len() ==> (#[trigger] cells@[p])@.states == old(cells)@[p]@.states,
            cells@[i as int]@.neighbors.to_set() == old(cells)@[i as int]@.neighbors.to_set().union(
                targets@.take(t as int).to_set(),
            ),
            forall|p: usize|
                p < cells@.len() && p != i ==> (#[trigger] cells@[p as int])@.neighbors.to_set()
                    == if targets@.take(t as int).to_set().contains(p) {
                    old(cells)@[p as int]@.neighbors.to_set().insert(i)
                } else {
                    old(cells)@[p as int]@.neighbors.to_set()
                },
    {
        let ghost prev = cells@;
        let tj = targets[t];
        let r = join(cells, i, tj);
        proof {
            let taken = targets@.take(t as int);
            let taken1 = targets@.take(t + 1);
            assert(taken1 =~= taken.push(targets@[t as int]));
            assert(taken1.to_set() =~= taken.to_set().insert(targets@[t as int])) by {
                assert forall|x: usize| taken1.to_set().contains(x) implies taken.to_set().insert(
                    targets@[t as int],
                ).contains(x) by {
                    let q = choose|q: int| 0 <= q < taken1.len() && taken1[q] == x;
                    if q < taken.len() {
                        assert(taken[q] == x);
                    }
                }
                assert forall|x: usize|
                    taken.to_set().insert(targets@[t as int]).contains(x) implies taken1.to_set().contains(
                    x,
                ) by {
                    if x == targets@[t as int] {
                        assert(taken1[t as int] == x);
                    } else {
                        let q = choose|q: int| 0 <= q < taken.len() && taken[q] == x;
                        assert(taken1[q] == x);
                    }
                }
            }
            assert(cells@[i as int]@.neighbors.to_set() =~= old(cells)@[i as int]@.neighbors.to_set().union(
                taken1.to_set(),
            ));
            assert forall|p: usize|
                p < cells@.len() && p != i implies (#[trigger] cells@[p as int])@.neighbors.to_set()
                    == if taken1.to_set().contains(p) {
                    old(cells)@[p as int]@.neighbors.to_set().insert(i)
                } else {
                    old(cells)@[p as int]@.neighbors.to_set()
                } by {
                assert(prev[p as int]@.neighbors.to_set() == if taken.to_set().contains(p) {
                    old(cells)@[p as int]@.neighbors.to_set().insert(i)
                } else {
                    old(cells)@[p as int]@.neighbors.to_set()
                });
                if p == tj {
                    assert(cells@[p as int]@.neighbors.to_set() == prev[p as int]@.neighbors.to_set().insert(i));
                    if taken.to_set().contains(tj) {
                        assert(old(cells)@[p as int]@.neighbors.to_set().insert(i).insert(i)
                            =~= old(cells)@[p as int]@.neighbors.to_set().insert(i));
                    }
                } else {
                    assert(cells@[p as int] == prev[p as int]);
                    assert(cells@[p as int]@.neighbors.to_set() == prev[p as int]@.neighbors.to_set());
                    assert(taken1.to_set().contains(p) == taken.to_set().contains(p));
                }
            }
        }
    }
    proof {
        assert(targets@.take(n as int) =~= targets@);
    }
}

/// The identities of the orthogonal neighbors of the cell at `co_ordinates`:
/// one step up and one step down along every axis, in axis order.
fn orth_targets(co_ordinates: &Vec<usize>, dimensions: &Vec<usize>, i: usize) -> (targets: Vec<
    usize,
>)
    requires
        in_bounds(co_ordinates@, dimensions@),
        product(dimensions@) <= usize::MAX,
        co_ordinates@ == coords_of(i as int, dimensions@),
    ensures
        targets@.to_set() == orth_emits(dimensions@, i),
        forall|t: int| 0 <= t < targets@.len() ==> (#[trigger] targets@[t] as int) < product(dimensions@),
{
    let ghost d = dimensions@;
    let ghost c = co_ordinates@;
    let n = dimensions.len();
    let mut other: Vec<usize> = Vec::new();
    for j in 0..n
        invariant
            n == co_ordinates@.len(),
            other@ == co_ordinates@.take(j as int),
    {
        other.push(co_ordinates[j]);
        proof {
            assert(other@ =~= co_ordinates@.take(j + 1));
        }
    }
    proof {
        assert(other@ =~= co_ordinates@);
        lemma_in_bounds_pos(c, d);
    }
    let mut targets: Vec<usize> = Vec::new();
    for k in 0..n
        invariant
            n == d.len(),
            d == dimensions@,
            c == co_ordinates@,
            c == coords_of(i as int, d),
            in_bounds(c, d),
            pos_dims(d),
            product(d) <= usize::MAX,
            other@ == c,
            targets@.len() == 2 * k,
            forall|t: int|
                0 <= t < targets@.len() ==> (#[trigger] targets@[t] as int) == if t % 2 == 0 {
                    axis_step_id(d, i as int, t / 2, 1)
                } else {
                    axis_step_id(d, i as int, t / 2, d[t / 2] - 1)
                },
            forall|t: int| 0 <= t < targets@.len() ==> (#[trigger] targets@[t] as int) < product(d),
    {
        let ghost tprev = targets@;
        let m = dimensions[k];
        let up = add_mod(co_ordinates[k], 1, m);
        other.set(k, up);
        proof {
            assert(other@ =~= c.update(k as int, up));
            assert(in_bounds(other@, d)) by {
                assert(forall|j: int| 0 <= j < n && j != k ==> (#[trigger] other@[j]) == c[j]);
            }
            lemma_index_of_bounds(other@, d);
        }
        let ui = match get_index(&other, dimensions) {
            Ok(v) => v,
            Err(_) => vstd::pervasive::unreached(),
        };
        targets.push(ui);
        let down = add_mod(co_ordinates[k], m - 1, m);
        other.set(k, down);
        proof {
            assert(other@ =~= c.update(k as int, down));
            assert(in_bounds(other@, d)) by {
                assert(forall|j: int| 0 <= j < n && j != k ==> (#[trigger] other@[j]) == c[j]);
            }
            lemma_index_of_bounds(other@, d);
        }
        let di = match get_index(&other, dimensions) {
            Ok(v) => v,
            Err(_) => vstd::pervasive::unreached(),
        };
        targets.push(di);
        other.set(k, co_ordinates[k]);
        proof {
            assert(other@ =~= c);
            assert(targets@[2 * k as int] == ui && targets@[2 * k as int + 1] == di);
            assert((ui as int) == axis_step_id(d, i as int, k as int, 1));
            assert((di as int) == axis_step_id(d, i as int, k as int, d[k as int] - 1));
            assert forall|t: int|
                0 <= t < targets@.len() implies (#[trigger] targets@[t] as int) == if t % 2 == 0 {
                axis_step_id(d, i as int, t / 2, 1)
            } else {
                axis_step_id(d, i as int, t / 2, d[t / 2] - 1)
            } by {
                lemma_fundamental_div_mod(t, 2);
                lemma_mod_division_less_than_divisor(t, 2);
                if t < 2 * k as int {
                    assert(targets@[t] == tprev[t]);
                } else if t == 2 * k as int {
                    lemma_fundamental_div_mod_converse(t, 2, k as int, 0);
                } else {
                    lemma_fundamental_div_mod_converse(t, 2, k as int, 1);
                }
            }
        }
    }
    proof {
        assert(targets@.len() == 2 * n);
        assert forall|j: usize| targets@.to_set().contains(j) implies orth_emits(d, i).contains(
            j,
        ) by {
            let p = choose|p: int| 0 <= p < targets@.len() && targets@[p] == j;
            lemma_fundamental_div_mod(p, 2);
            lemma_mod_division_less_than_divisor(p, 2);
            let q = p / 2;
            assert(0 <= q < n);
            lemma_orth_step_intro(d, i, j, q);
            lemma_orth_emits(d, i, j);
        }
        assert forall|j: usize| orth_emits(d, i).contains(j) implies targets@.to_set().contains(
            j,
        ) by {
            lemma_orth_emits(d, i, j);
            let k = lemma_orth_step_elim(d, i, j);
            if (j as int) == axis_step_id(d, i as int, k, 1) {
                let t = 2 * k;
                lemma_fundamental_div_mod_converse(t, 2, k, 0);
                assert((targets@[t] as int) == axis_step_id(d, i as int, k, 1));
                assert(targets@.to_set().contains(targets@[t]));
            } else {
                let t = 2 * k + 1;
                lemma_fundamental_div_mod_converse(t, 2, k, 1);
                assert((targets@[t] as int) == axis_step_id(d, i as int, k, d[k] - 1));
                assert(targets@.to_set().contains(targets@[t]));
            }
        }
        assert(targets@.to_set() =~= orth_emits(d, i));
    }
    targets
}

/// Wires the lattice orthogonally: sweeping the cells in index order, joins
/// each to its two neighbors along every axis.
fn connect_orthogonally<S: Copy>(cells: &mut Vec<Cell<S>>, dimensions: &Vec<usize>)
    requires
        dimensions@.len() >= 1,
        pos_dims(dimensions@),
        product(dimensions@) <= usize::MAX,
        old(cells)@.len() == product(dimensions@),
        forall|p: int| 0 <= p < old(cells)@.len() ==> (#[trigger] old(cells)@[p]).wf(),
        forall|p: usize|
            (p as int) < old(cells)@.len() ==> wired_upto(
                Tiling::Orthogonal,
                dimensions@,
                (#[trigger] old(cells)@[p as int])@,
                p,
                0,
            ),
    ensures
        final(cells)@.len() == old(cells)@.len(),
        forall|p: int| 0 <= p < final(cells)@.len() ==> (#[trigger] final(cells)@[p]).wf(),
        forall|p: int|
            0 <= p < final(cells)@.len() ==> (#[trigger] final(cells)@[p])@.states == old(cells)@[p]@.states,
        forall|p: usize|
            (p as int) < final(cells)@.len() ==> wired_upto(
                Tiling::Orthogonal,
                dimensions@,
                (#[trigger] final(cells)@[p as int])@,
                p,
                product(dimensions@),
            ),
{
    let ghost d = dimensions@;
    let n = dimensions.len();
    let count = cells.len();
    let mut co_ordinates: Vec<usize> = Vec::new();
    for _k in 0..n
        invariant
            co_ordinates@.len() == _k,
            forall|j: int| 0 <= j < _k ==> (#[trigger] co_ordinates@[j]) == 0,
    {
        co_ordinates.push(0);
    }
    proof {
        lemma_index_of_zeros(co_ordinates@, d);
        lemma_product_pos(d);
    }
    let mut i: usize = 0;
    while i < count
        invariant
            n == d.len(),
            n >= 1,
            d == dimensions@,
            pos_dims(d),
            product(d) <= usize::MAX,
            count as int == product(d),
            cells@.len() == count,
            i <= count,
            in_bounds(co_ordinates@, d),
            index_of(co_ordinates@, d) == if i < count {
                i as int
            } else {
                0int
            },
            forall|p: int| 0 <= p < cells@.len() ==> (#[trigger] cells@[p]).wf(),
            forall|p: int|
                0 <= p < cells@.len() ==> (#[trigger] cells@[p])@.states == old(cells)@[p]@.states,
            forall|p: usize|
                (p as int) < cells@.len() ==> wired_upto(
                    Tiling::Orthogonal,
                    d,
                    (#[trigger] cells@[p as int])@,
                    p,
                    i as int,
                ),
        decreases count - i,
    {
        proof {
            lemma_index_coords_roundtrip(co_ordinates@, d);
        }
        let targets = orth_targets(&co_ordinates, dimensions, i);
        let ghost prev = cells@;
        join_all(cells, i, &targets);
        proof {
            assert forall|p: usize|
                (p as int) < cells@.len() implies wired_upto(
                Tiling::Orthogonal,
                d,
                (#[trigger] cells@[p as int])@,
                p,
                i as int + 1,
            ) by {
                if p == i {
                    assert(cells@[p as int]@.neighbors.to_set() == prev[p as int]@.neighbors.to_set().union(
                        emits(Tiling::Orthogonal, d, i),
                    ));
                } else {
                    assert(cells@[p as int]@.neighbors.to_set() == if emits(
                        Tiling::Orthogonal,
                        d,
                        i,
                    ).contains(p) {
                        prev[p as int]@.neighbors.to_set().insert(i)
                    } else {
                        prev[p as int]@.neighbors.to_set()
                    });
                }
                lemma_wired_step(Tiling::Orthogonal, d, prev[p as int]@, cells@[p as int]@, p, i);
            }
        }
        next_co_ordinates(&mut co_ordinates, dimensions);
        i = i + 1;
    }
}

impl<S: Copy> Torus<S> {
    /// Builds the torus: one cell per lattice point, seeded by the
    /// initializer at `initial_gen`, then wired by the tiling's pass.
    ///
    /// Rejects a dimension vector that is empty or has a zero extent
    /// (`Dimension`), and one the tiling cannot use: fewer or more than two
    /// axes for the two-dimensional tilings, or an odd extent for hexagons
    /// (`Topology`). On failure no cells are created.
    pub fn new<F: Fn(&Vec<usize>) -> S>(
        tiling: Tiling,
        dimensions: &Vec<usize>,
        initial_gen: usize,
        initial_state: F,
    ) -> (r: Result<Torus<S>, Error>)
        requires
            product(dimensions@) <= usize::MAX,
            forall|cv: &Vec<usize>|
                in_bounds(cv@, dimensions@) ==> #[trigger] call_requires(initial_state, (cv,)),
        ensures
            dimensions@.len() == 0 || !pos_dims(dimensions@) ==> r == Err::<Torus<S>, Error>(
                Error::Dimension,
            ),
            dimensions@.len() >= 1 && pos_dims(dimensions@) && !dims_ok(tiling, dimensions@)
                ==> r == Err::<Torus<S>, Error>(Error::Topology),
            dims_ok(tiling, dimensions@) ==> r is Ok,
            r matches Ok(t) ==> t.wf() && t@.tiling == tiling && t@.dims == dimensions@ && forall|
                i: int,
            |
                0 <= i < t@.cells.len() ==> cell_seeded(
                    initial_state,
                    dimensions@,
                    initial_gen,
                    (#[trigger] t@.cells[i]).states,
                    i,
                ),
    {
        let ghost d = dimensions@;
        let n = dimensions.len();
        if n == 0 {
            return Err(Error::Dimension);
        }
        let mut dims_own: Vec<usize> = Vec::new();
        for k in 0..n
            invariant
                n == d.len(),
                d == dimensions@,
                dims_own@ == d.take(k as int),
                forall|q: int| 0 <= q < k ==> (#[trigger] d[q]) >= 1,
        {
            if dimensions[k] == 0 {
                return Err(Error::Dimension);
            }
            dims_own.push(dimensions[k]);
            proof {
                assert(dims_own@ =~= d.take(k + 1));
            }
        }
        proof {
            assert(dims_own@ =~= d);
            assert(pos_dims(d));
        }
        match tiling {
            Tiling::Hexagons => {
                if n != 2 || dimensions[0] % 2 == 1 || dimensions[1] % 2 == 1 {
                    return Err(Error::Topology);
                }
            },
            Tiling::TouchingSquares => {
                if n != 2 {
                    return Err(Error::Topology);
                }
            },
            _ => {},
        }
        proof {
            assert(dims_ok(tiling, d));
        }
        let mut cardinality: usize = 1;
        for k in 0..n
            invariant
                n == d.len(),
                d == dimensions@,
                pos_dims(d),
                product(d) <= usize::MAX,
                cardinality as int == product(d.take(k as int)),
        {
            proof {
                lemma_product_take_le(d, k + 1);
                assert(d.take(k + 1).drop_last() =~= d.take(k as int));
                assert(d.take(k + 1).last() == d[k as int]);
                lemma_product_pos(d);
            }
            cardinality = cardinality * dimensions[k];
        }
        proof {
            assert(d.take(n as int) =~= d);
        }
        let mut cells = create_cells(dimensions, cardinality, initial_gen, &initial_state);
        proof {
            assert forall|p: usize|
                (p as int) < cells@.len() implies wired_upto(
                tiling,
                d,
                (#[trigger] cells@[p as int])@,
                p,
                0,
            ) by {
                lemma_wired_zero(tiling, d, cells@[p as int]@, p);
            }
        }
        let ghost created = cells@;
        match tiling {
            Tiling::Orthogonal => connect_orthogonally(&mut cells, dimensions),
            Tiling::OrthogonalAndDiagonal => connect_orthogonally_and_diagonally(
                &mut cells,
                dimensions,
            ),
            Tiling::TouchingSquares => connect_touching_squares(&mut cells, dimensions),
            Tiling::Hexagons => connect_hexagons(&mut cells, dimensions),
        }
        let torus = Torus { tiling, dimensions: dims_own, cells };
        proof {
            assert(torus@.cells.len() == product(d));
            assert forall|i: int|
                0 <= i < torus@.cells.len() implies (#[trigger] torus@.cells[i]).neighbors.to_set()
                == nbr_set(tiling, d, i as usize) by {
                assert(torus@.cells[i] == torus.cells@[i]@);
                assert(wired_upto(tiling, d, torus.cells@[i]@, i as usize, product(d)));
                lemma_wired_full(tiling, d, torus.cells@[i]@, i as usize);
            }
            assert forall|i: int|
                0 <= i < torus@.cells.len() implies (#[trigger] torus@.cells[i]).neighbors.no_duplicates() by {
                assert(torus.cells@[i].wf());
                torus.cells@[i].lemma_wf_neighbors();
            }
            assert forall|i: int|
                0 <= i < torus@.cells.len() implies cell_seeded(
                initial_state,
                d,
                initial_gen,
                (#[trigger] torus@.cells[i]).states,
                i,
            ) by {
                assert(cell_seeded(initial_state, d, initial_gen, created[i]@.states, i));
                assert(torus.cells@[i]@.states == created[i]@.states);
            }
            assert(torus.wf());
        }
        Ok(torus)
    }
}

/// Whether every coordinate of `v` is zero.
fn all_zero(v: &Vec<usize>) -> (r: bool)
    ensures
        r == (forall|k: int| 0 <= k < v@.len() ==> (#[trigger] v@[k]) == 0),
{
    let n = v.len();
    for k in 0..n
        invariant
            n == v@.len(),
            forall|q: int| 0 <= q < k ==> (#[trigger] v@[q]) == 0,
    {
        if v[k] != 0 {
            return false;
        }
    }
    true
}

/// The identities of the hypercube corners of the cell at `co_ordinates`,
/// enumerated by sweeping a two-per-axis selection odometer through all its
/// values.
fn diag_targets(co_ordinates: &Vec<usize>, dimensions: &Vec<usize>, i: usize) -> (targets: Vec<
    usize,
>)
    requires
        dimensions@.len() >= 1,
        in_bounds(co_ordinates@, dimensions@),
        product(dimensions@) <= usize::MAX,
        co_ordinates@ == coords_of(i as int, dimensions@),
    ensures
        targets@.to_set() == diag_emits(dimensions@, i),
        forall|t: int| 0 <= t < targets@.len() ==> (#[trigger] targets@[t] as int) < product(dimensions@),
{
    let ghost d = dimensions@;
    let ghost c = co_ordinates@;
    let n = dimensions.len();
    let ghost d2 = two_dims(n as int);
    let mut twos: Vec<usize> = Vec::new();
    let mut dc: Vec<usize> = Vec::new();
    for k in 0..n
        invariant
            twos@.len() == k,
            dc@.len() == k,
            forall|q: int| 0 <= q < k ==> (#[trigger] twos@[q]) == 2,
            forall|q: int| 0 <= q < k ==> (#[trigger] dc@[q]) == 0,
    {
        twos.push(2);
        dc.push(0);
    }
    proof {
        assert(twos@ =~= d2);
        lemma_in_bounds_pos(c, d);
        assert(in_bounds(dc@, d2));
        lemma_index_of_zeros(dc@, d2);
        assert(pos_dims(d2));
        lemma_product_pos(d2);
    }
    let mut targets: Vec<usize> = Vec::new();
    let mut done = false;
    while !done
        invariant
            n == d.len(),
            n >= 1,
            d == dimensions@,
            c == co_ordinates@,
            c == coords_of(i as int, d),
            in_bounds(c, d),
            pos_dims(d),
            product(d) <= usize::MAX,
            d2 == two_dims(n as int),
            twos@ == d2,
            dc@.len() == n,
            !done ==> in_bounds(dc@, d2) && index_of(dc@, d2) == targets@.len(),
            done ==> targets@.len() == product(d2),
            targets@.len() <= product(d2),
            forall|q: int|
                0 <= q < targets@.len() ==> (#[trigger] targets@[q] as int) == corner_id(
                    d,
                    i as int,
                    q,
                ),
            forall|q: int| 0 <= q < targets@.len() ==> (#[trigger] targets@[q] as int) < product(d),
        decreases product(d2) - targets@.len(),
    {
        proof {
            lemma_index_of_bounds(dc@, d2);
            lemma_index_coords_roundtrip(dc@, d2);
        }
        let ghost t = targets@.len() as int;
        let mut corner: Vec<usize> = Vec::new();
        for k in 0..n
            invariant
                n == d.len(),
                d == dimensions@,
                c == co_ordinates@,
                in_bounds(c, d),
                pos_dims(d),
                dc@.len() == n,
                in_bounds(dc@, d2),
                d2 == two_dims(n as int),
                corner@.len() == k,
                forall|q: int|
                    0 <= q < k ==> (#[trigger] corner@[q]) == corner_coords(c, dc@, d)[q],
        {
            let v = if dc[k] == 1 {
                add_mod(co_ordinates[k], 1, dimensions[k])
            } else {
                add_mod(co_ordinates[k], dimensions[k] - 1, dimensions[k])
            };
            corner.push(v);
        }
        proof {
            assert(corner@ =~= corner_coords(c, dc@, d));
            assert(in_bounds(corner@, d)) by {
                assert(forall|q: int|
                    0 <= q < n ==> (#[trigger] corner_coords(c, dc@, d)[q]) < d[q]);
            }
            lemma_index_of_bounds(corner@, d);
        }
        let cid = match get_index(&corner, dimensions) {
            Ok(v) => v,
            Err(_) => vstd::pervasive::unreached(),
        };
        targets.push(cid);
        proof {
            assert(dc@ == coords_of(t, d2));
            assert((cid as int) == corner_id(d, i as int, t));
        }
        next_co_ordinates(&mut dc, &twos);
        let wrapped = all_zero(&dc);
        if wrapped {
            done = true;
        }
        proof {
            let zs = Seq::<usize>::new(n as nat, |k: int| 0usize);
            assert(in_bounds(zs, d2));
            lemma_index_of_zeros(zs, d2);
            lemma_index_coords_roundtrip(zs, d2);
            if wrapped {
                assert(dc@ =~= zs);
                assert(index_of(dc@, d2) == 0);
                assert(targets@.len() == product(d2));
            } else {
                assert(index_of(dc@, d2) != 0) by {
                    if index_of(dc@, d2) == 0 {
                        lemma_index_coords_roundtrip(dc@, d2);
                        assert(dc@ == coords_of(0, d2));
                        assert(coords_of(0, d2) == zs);
                        assert(forall|k: int| 0 <= k < dc@.len() ==> (#[trigger] dc@[k]) == 0);
                    }
                }
                assert(index_of(dc@, d2) == targets@.len());
            }
        }
    }
    proof {
        assert forall|j: usize| targets@.to_set().contains(j) implies diag_emits(d, i).contains(
            j,
        ) by {
            let p = choose|p: int| 0 <= p < targets@.len() && targets@[p] == j;
            assert((targets@[p] as int) == corner_id(d, i as int, p));
            lemma_diag_step_intro(d, i, j, p);
            lemma_diag_emits(d, i, j);
        }
        assert forall|j: usize| diag_emits(d, i).contains(j) implies targets@.to_set().contains(
            j,
        ) by {
            lemma_diag_emits(d, i, j);
            let r = lemma_diag_step_elim(d, i, j);
            assert((targets@[r] as int) == corner_id(d, i as int, r));
            assert(targets@[r] == j);
            assert(targets@.to_set().contains(targets@[r]));
        }
        assert(targets@.to_set() =~= diag_emits(d, i));
    }
    targets
}

/// Wires the lattice orthogonally and diagonally: sweeping the cells in
/// index order, joins each to its two neighbors along every axis and to all
/// of its hypercube corners.
fn connect_orthogonally_and_diagonally<S: Copy>(cells: &mut Vec<Cell<S>>, dimensions: &Vec<usize>)
    requires
        dimensions@.len() >= 1,
        pos_dims(dimensions@),
        product(dimensions@) <= usize::MAX,
        old(cells)@.len() == product(dimensions@),
        forall|p: int| 0 <= p < old(cells)@.len() ==> (#[trigger] old(cells)@[p]).wf(),
        forall|p: usize|
            (p as int) < old(cells)@.len() ==> wired_upto(
                Tiling::OrthogonalAndDiagonal,
                dimensions@,
                (#[trigger] old(cells)@[p as int])@,
                p,
                0,
            ),
    ensures
        final(cells)@.len() == old(cells)@.len(),
        forall|p: int| 0 <= p < final(cells)@.len() ==> (#[trigger] final(cells)@[p]).wf(),
        forall|p: int|
            0 <= p < final(cells)@.len() ==> (#[trigger] final(cells)@[p])@.states == old(cells)@[p]@.states,
        forall|p: usize|
            (p as int) < final(cells)@.len() ==> wired_upto(
                Tiling::OrthogonalAndDiagonal,
                dimensions@,
                (#[trigger] final(cells)@[p as int])@,
                p,
                product(dimensions@),
            ),
{
    let ghost d = dimensions@;
    let n = dimensions.len();
    let count = cells.len();
    let mut co_ordinates: Vec<usize> = Vec::new();
    for _k in 0..n
        invariant
            co_ordinates@.len() == _k,
            forall|j: int| 0 <= j < _k ==> (#[trigger] co_ordinates@[j]) == 0,
    {
        co_ordinates.push(0);
    }
    proof {
        lemma_index_of_zeros(co_ordinates@, d);
        lemma_product_pos(d);
    }
    let mut i: usize = 0;
    while i < count
        invariant
            n == d.len(),
            n >= 1,
            d == dimensions@,
            pos_dims(d),
            product(d) <= usize::MAX,
            count as int == product(d),
            cells@.len() == count,
            i <= count,
            in_bounds(co_ordinates@, d),
            index_of(co_ordinates@, d) == if i < count {
                i as int
            } else {
                0int
            },
            forall|p: int| 0 <= p < cells@.len() ==> (#[trigger] cells@[p]).wf(),
            forall|p: int|
                0 <= p < cells@.len() ==> (#[trigger] cells@[p])@.states == old(cells)@[p]@.states,
            forall|p: usize|
                (p as int) < cells@.len() ==> wired_upto(
                    Tiling::OrthogonalAndDiagonal,
                    d,
                    (#[trigger] cells@[p as int])@,
                    p,
                    i as int,
                ),
        decreases count - i,
    {
        proof {
            lemma_index_coords_roundtrip(co_ordinates@, d);
        }
        let mut targets = orth_targets(&co_ordinates, dimensions, i);
        let mut diag = diag_targets(&co_ordinates, dimensions, i);
        let ghost ot = targets@;
        let ghost dt = diag@;
        targets.append(&mut diag);
        proof {
            vstd::seq_lib::seq_to_set_distributes_over_add(ot, dt);
            assert(targets@.to_set() == emits(Tiling::OrthogonalAndDiagonal, d, i));
            assert forall|t: int|
                0 <= t < targets@.len() implies (#[trigger] targets@[t] as int) < product(d) by {
                if t < ot.len() {
                    assert(targets@[t] == ot[t]);
                } else {
                    assert(targets@[t] == dt[t - ot.len()]);
                }
            }
        }
        let ghost prev = cells@;
        join_all(cells, i, &targets);
        proof {
            assert forall|p: usize|
                (p as int) < cells@.len() implies wired_upto(
                Tiling::OrthogonalAndDiagonal,
                d,
                (#[trigger] cells@[p as int])@,
                p,
                i as int + 1,
            ) by {
                if p == i {
                    assert(cells@[p as int]@.neighbors.to_set() == prev[p as int]@.neighbors.to_set().union(
                        emits(Tiling::OrthogonalAndDiagonal, d, i),
                    ));
                } else {
                    assert(cells@[p as int]@.neighbors.to_set() == if emits(
                        Tiling::OrthogonalAndDiagonal,
                        d,
                        i,
                    ).contains(p) {
                        prev[p as int]@.neighbors.to_set().insert(i)
                    } else {
                        prev[p as int]@.neighbors.to_set()
                    });
                }
                lemma_wired_step(
                    Tiling::OrthogonalAndDiagonal,
                    d,
                    prev[p as int]@,
                    cells@[p as int]@,
                    p,
                    i,
                );
            }
        }
        next_co_ordinates(&mut co_ordinates, dimensions);
        i = i + 1;
    }
}

/// The identities of the eight cells around the cell at `co_ordinates`, in
/// its three-by-three wraparound neighborhood.
fn ts_targets(co_ordinates: &Vec<usize>, dimensions: &Vec<usize>, i: usize) -> (targets: Vec<
    usize,
>)
    requires
        dimensions@.len() == 2,
        in_bounds(co_ordinates@, dimensions@),
        product(dimensions@) <= usize::MAX,
        co_ordinates@ == coords_of(i as int, dimensions@),
    ensures
        targets@.to_set() == ts_emits(dimensions@, i),
        forall|t: int| 0 <= t < targets@.len() ==> (#[trigger] targets@[t] as int) < product(dimensions@),
{
    let ghost d = dimensions@;
    let ghost c = co_ordinates@;
    let h = dimensions[0];
    let w = dimensions[1];
    let y = co_ordinates[0];
    let x = co_ordinates[1];
    proof {
        lemma_in_bounds_pos(c, d);
        lemma_small_mod(y as nat, h as nat);
        lemma_small_mod(x as nat, w as nat);
        assert(y == mod_add(y, 0, h));
        assert(x == mod_add(x, 0, w));
    }
    let y1 = add_mod(y, 1, h);
    let yh = add_mod(y, h - 1, h);
    let x1 = add_mod(x, 1, w);
    let xw = add_mod(x, w - 1, w);
    let mut targets: Vec<usize> = Vec::new();
    let ghost bys: Seq<int> = seq![0, 0, 1, 1, 1, d[0] - 1, d[0] - 1, d[0] - 1];
    let ghost bxs: Seq<int> = seq![1, d[1] - 1, 0, 1, d[1] - 1, 0, 1, d[1] - 1];
    let rows: [usize; 8] = [y, y, y1, y1, y1, yh, yh, yh];
    let cols: [usize; 8] = [x1, xw, x, x1, xw, x, x1, xw];
    let mut t: usize = 0;
    let mut pair: Vec<usize> = Vec::new();
    pair.push(y);
    pair.push(x);
    while t < 8
        invariant
            t <= 8,
            d == dimensions@,
            c == co_ordinates@,
            c == coords_of(i as int, d),
            in_bounds(c, d),
            d.len() == 2,
            product(d) <= usize::MAX,
            c[0] == y && c[1] == x,
            pair@.len() == 2,
            rows@ == seq![y, y, y1, y1, y1, yh, yh, yh],
            cols@ == seq![x1, xw, x, x1, xw, x, x1, xw],
            (y1 as int) == mod_add(y, 1, h) && (yh as int) == mod_add(y, d[0] - 1, h) && (x1 as int)
                == mod_add(x, 1, w) && (xw as int) == mod_add(x, d[1] - 1, w),
            y == mod_add(y, 0, h) && x == mod_add(x, 0, w),
            h == d[0] && w == d[1],
            targets@.len() == t,
            forall|q: int|
                0 <= q < t ==> (#[trigger] targets@[q] as int) == index_of(
                    seq![mod_add(c[0], bys[q], d[0]), mod_add(c[1], bxs[q], d[1])],
                    d,
                ),
            forall|q: int| 0 <= q < t ==> (#[trigger] targets@[q] as int) < product(d),
            bys == seq![0int, 0, 1, 1, 1, d[0] - 1, d[0] - 1, d[0] - 1],
            bxs == seq![1int, d[1] - 1, 0, 1, d[1] - 1, 0, 1, d[1] - 1],
        decreases 8 - t,
    {
        let rv = rows[t];
        let cv = cols[t];
        pair.set(0, rv);
        pair.set(1, cv);
        proof {
            assert(pair@ =~= seq![rv, cv]);
            assert((rv as int) == mod_add(c[0], bys[t as int], d[0]) && (cv as int) == mod_add(
                c[1],
                bxs[t as int],
                d[1],
            ));
            assert(in_bounds(pair@, d));
            lemma_index_of_bounds(pair@, d);
        }
        let id = match get_index(&pair, dimensions) {
            Ok(v) => v,
            Err(_) => vstd::pervasive::unreached(),
        };
        targets.push(id);
        proof {
            assert(seq![rv as usize, cv as usize] =~= seq![
                mod_add(c[0], bys[t as int], d[0]),
                mod_add(c[1], bxs[t as int], d[1]),
            ]);
        }
        t = t + 1;
    }
    proof {
        assert forall|j: usize| targets@.to_set().contains(j) implies ts_emits(d, i).contains(
            j,
        ) by {
            let p = choose|p: int| 0 <= p < targets@.len() && targets@[p] == j;
            assert((targets@[p] as int) == index_of(
                seq![mod_add(c[0], bys[p], d[0]), mod_add(c[1], bxs[p], d[1])],
                d,
            ));
            assert(ts_step(d, i, j));
            lemma_ts_emits(d, i, j);
        }
        assert forall|j: usize| ts_emits(d, i).contains(j) implies targets@.to_set().contains(
            j,
        ) by {
            lemma_ts_emits(d, i, j);
            if (j as int) == index_of(seq![mod_add(c[0], 0, d[0]), mod_add(c[1], 1, d[1])], d) {
                assert(targets@[0] == j);
                assert(targets@.to_set().contains(targets@[0]));
            } else if (j as int) == index_of(
                seq![mod_add(c[0], 0, d[0]), mod_add(c[1], d[1] - 1, d[1])],
                d,
            ) {
                assert(targets@[1] == j);
                assert(targets@.to_set().contains(targets@[1]));
            } else if (j as int) == index_of(
                seq![mod_add(c[0], 1, d[0]), mod_add(c[1], 0, d[1])],
                d,
            ) {
                assert(targets@[2] == j);
                assert(targets@.to_set().contains(targets@[2]));
            } else if (j as int) == index_of(
                seq![mod_add(c[0], 1, d[0]), mod_add(c[1], 1, d[1])],
                d,
            ) {
                assert(targets@[3] == j);
                assert(targets@.to_set().contains(targets@[3]));
            } else if (j as int) == index_of(
                seq![mod_add(c[0], 1, d[0]), mod_add(c[1], d[1] - 1, d[1])],
                d,
            ) {
                assert(targets@[4] == j);
                assert(targets@.to_set().contains(targets@[4]));
            } else if (j as int) == index_of(
                seq![mod_add(c[0], d[0] - 1, d[0]), mod_add(c[1], 0, d[1])],
                d,
            ) {
                assert(targets@[5] == j);
                assert(targets@.to_set().contains(targets@[5]));
            } else if (j as int) == index_of(
                seq![mod_add(c[0], d[0] - 1, d[0]), mod_add(c[1], 1, d[1])],
                d,
            ) {
                assert(targets@[6] == j);
                assert(targets@.to_set().contains(targets@[6]));
            } else {
                assert(targets@[7] == j);
                assert(targets@.to_set().contains(targets@[7]));
            }
        }
        assert(targets@.to_set() =~= ts_emits(d, i));
    }
    targets
}

/// Wires the lattice as the legacy two-dimensional touching-squares
/// neighborhood: sweeping the cells in index order, joins each to the eight
/// cells around it, wrapping.
fn connect_touching_squares<S: Copy>(cells: &mut Vec<Cell<S>>, dimensions: &Vec<usize>)
    requires
        dimensions@.len() == 2,
        pos_dims(dimensions@),
        product(dimensions@) <= usize::MAX,
        old(cells)@.len() == product(dimensions@),
        forall|p: int| 0 <= p < old(cells)@.len() ==> (#[trigger] old(cells)@[p]).wf(),
        forall|p: usize|
            (p as int) < old(cells)@.len() ==> wired_upto(
                Tiling::TouchingSquares,
                dimensions@,
                (#[trigger] old(cells)@[p as int])@,
                p,
                0,
            ),
    ensures
        final(cells)@.len() == old(cells)@.len(),
        forall|p: int| 0 <= p < final(cells)@.len() ==> (#[trigger] final(cells)@[p]).wf(),
        forall|p: int|
            0 <= p < final(cells)@.len() ==> (#[trigger] final(cells)@[p])@.states == old(cells)@[p]@.states,
        forall|p: usize|
            (p as int) < final(cells)@.len() ==> wired_upto(
                Tiling::TouchingSquares,
                dimensions@,
                (#[trigger] final(cells)@[p as int])@,
                p,
                product(dimensions@),
            ),
{
    let ghost d = dimensions@;
    let count = cells.len();
    let mut co_ordinates: Vec<usize> = Vec::new();
    co_ordinates.push(0);
    co_ordinates.push(0);
    proof {
        assert(co_ordinates@ =~= seq![0usize, 0usize]);
        lemma_index_of_zeros(co_ordinates@, d);
        lemma_product_pos(d);
    }
    let mut i: usize = 0;
    while i < count
        invariant
            d.len() == 2,
            d == dimensions@,
            pos_dims(d),
            product(d) <= usize::MAX,
            count as int == product(d),
            cells@.len() == count,
            i <= count,
            in_bounds(co_ordinates@, d),
            index_of(co_ordinates@, d) == if i < count {
                i as int
            } else {
                0int
            },
            forall|p: int| 0 <= p < cells@.len() ==> (#[trigger] cells@[p]).wf(),
            forall|p: int|
                0 <= p < cells@.len() ==> (#[trigger] cells@[p])@.states == old(cells)@[p]@.states,
            forall|p: usize|
                (p as int) < cells@.len() ==> wired_upto(
                    Tiling::TouchingSquares,
                    d,
                    (#[trigger] cells@[p as int])@,
                    p,
                    i as int,
                ),
        decreases count - i,
    {
        proof {
            lemma_index_coords_roundtrip(co_ordinates@, d);
        }
        let targets = ts_targets(&co_ordinates, dimensions, i);
        let ghost prev = cells@;
        join_all(cells, i, &targets);
        proof {
            assert forall|p: usize|
                (p as int) < cells@.len() implies wired_upto(
                Tiling::TouchingSquares,
                d,
                (#[trigger] cells@[p as int])@,
                p,
                i as int + 1,
            ) by {
                if p == i {
                    assert(cells@[p as int]@.neighbors.to_set() == prev[p as int]@.neighbors.to_set().union(
                        emits(Tiling::TouchingSquares, d, i),
                    ));
                } else {
                    assert(cells@[p as int]@.neighbors.to_set() == if emits(
                        Tiling::TouchingSquares,
                        d,
                        i,
                    ).contains(p) {
                        prev[p as int]@.neighbors.to_set().insert(i)
                    } else {
                        prev[p as int]@.neighbors.to_set()
                    });
                }
                lemma_wired_step(
                    Tiling::TouchingSquares,
                    d,
                    prev[p as int]@,
                    cells@[p as int]@,
                    p,
                    i,
                );
            }
        }
        next_co_ordinates(&mut co_ordinates, dimensions);
        i = i + 1;
    }
}

/// The identities of the cells the hexagonal wiring joins the cell at
/// `co_ordinates` to: the next cell in its row and the two cells below it.
fn hex_targets(co_ordinates: &Vec<usize>, dimensions: &Vec<usize>, i: usize) -> (targets: Vec<
    usize,
>)
    requires
        dimensions@.len() == 2,
        in_bounds(co_ordinates@, dimensions@),
        product(dimensions@) <= usize::MAX,
        co_ordinates@ == coords_of(i as int, dimensions@),
    ensures
        targets@.to_set() == hex_emits(dimensions@, i),
        forall|t: int| 0 <= t < targets@.len() ==> (#[trigger] targets@[t] as int) < product(dimensions@),
{
    let ghost d = dimensions@;
    let ghost c = co_ordinates@;
    let h = dimensions[0];
    let w = dimensions[1];
    let y = co_ordinates[0];
    let x = co_ordinates[1];
    proof {
        lemma_in_bounds_pos(c, d);
    }
    let ax = add_mod(x, 1, w);
    let yn = add_mod(y, 1, h);
    let off = w - (y % 2);
    let lx = add_mod(x, off, w);
    let rx = add_mod(lx, 1, w);
    proof {
        vstd::arithmetic::div_mod::lemma_add_mod_noop_right(1, x + off, w as int);
        assert((1 + (x + off) % (w as int)) % (w as int) == (1 + (x + off)) % (w as int));
        assert((rx as int) == mod_add(x, off + 1, w));
    }
    let mut row: Vec<usize> = Vec::new();
    row.push(y);
    row.push(ax);
    proof {
        assert(row@ =~= seq![y, ax]);
        assert(in_bounds(row@, d));
        lemma_index_of_bounds(row@, d);
    }
    let a_id = match get_index(&row, dimensions) {
        Ok(v) => v,
        Err(_) => vstd::pervasive::unreached(),
    };
    let mut left: Vec<usize> = Vec::new();
    left.push(yn);
    left.push(lx);
    proof {
        assert(left@ =~= seq![yn, lx]);
        assert(in_bounds(left@, d));
        lemma_index_of_bounds(left@, d);
    }
    let l_id = match get_index(&left, dimensions) {
        Ok(v) => v,
        Err(_) => vstd::pervasive::unreached(),
    };
    let mut right: Vec<usize> = Vec::new();
    right.push(yn);
    right.push(rx);
    proof {
        assert(right@ =~= seq![yn, rx]);
        assert(in_bounds(right@, d));
        lemma_index_of_bounds(right@, d);
    }
    let r_id = match get_index(&right, dimensions) {
        Ok(v) => v,
        Err(_) => vstd::pervasive::unreached(),
    };
    let mut targets: Vec<usize> = Vec::new();
    targets.push(a_id);
    targets.push(l_id);
    targets.push(r_id);
    proof {
        assert(targets@ =~= seq![a_id, l_id, r_id]);
        assert(c[0] == y && c[1] == x);
        assert((a_id as int) == index_of(seq![y, mod_add(x, 1, w)], d)) by {
            assert(seq![y, ax] =~= seq![y, mod_add(x, 1, w)]);
        }
        assert((l_id as int) == index_of(seq![mod_add(y, 1, h), mod_add(x, off as int, w)], d)) by {
            assert(seq![yn, lx] =~= seq![mod_add(y, 1, h), mod_add(x, off as int, w)]);
        }
        assert((r_id as int) == index_of(seq![mod_add(y, 1, h), mod_add(x, off + 1, w)], d)) by {
            assert(seq![yn, rx] =~= seq![mod_add(y, 1, h), mod_add(x, off + 1, w)]);
        }
        assert forall|j: usize| targets@.to_set().contains(j) implies hex_emits(d, i).contains(
            j,
        ) by {
            let p = choose|p: int| 0 <= p < targets@.len() && targets@[p] == j;
            assert(p == 0 || p == 1 || p == 2);
            assert(hex_step(d, i, j));
            lemma_hex_emits(d, i, j);
        }
        assert forall|j: usize| hex_emits(d, i).contains(j) implies targets@.to_set().contains(
            j,
        ) by {
            lemma_hex_emits(d, i, j);
            if (j as int) == index_of(seq![y, mod_add(x, 1, w)], d) {
                assert(targets@[0] == j);
                assert(targets@.to_set().contains(targets@[0]));
            } else if (j as int) == index_of(
                seq![mod_add(y, 1, h), mod_add(x, off as int, w)],
                d,
            ) {
                assert(targets@[1] == j);
                assert(targets@.to_set().contains(targets@[1]));
            } else {
                assert(targets@[2] == j);
                assert(targets@.to_set().contains(targets@[2]));
            }
        }
        assert(targets@.to_set() =~= hex_emits(d, i));
    }
    targets
}

/// Wires the lattice as a two-dimensional hexagonal packing: sweeping the
/// cells in index order, joins each to the next cell in its row and to the
/// two cells in the row below whose columns are offset by the row's parity.
fn connect_hexagons<S: Copy>(cells: &mut Vec<Cell<S>>, dimensions: &Vec<usize>)
    requires
        dimensions@.len() == 2,
        pos_dims(dimensions@),
        product(dimensions@) <= usize::MAX,
        old(cells)@.len() == product(dimensions@),
        forall|p: int| 0 <= p < old(cells)@.len() ==> (#[trigger] old(cells)@[p]).wf(),
        forall|p: usize|
            (p as int) < old(cells)@.len() ==> wired_upto(
                Tiling::Hexagons,
                dimensions@,
                (#[trigger] old(cells)@[p as int])@,
                p,
                0,
            ),
    ensures
        final(cells)@.len() == old(cells)@.len(),
        forall|p: int| 0 <= p < final(cells)@.len() ==> (#[trigger] final(cells)@[p]).wf(),
        forall|p: int|
            0 <= p < final(cells)@.len() ==> (#[trigger] final(cells)@[p])@.states == old(cells)@[p]@.states,
        forall|p: usize|
            (p as int) < final(cells)@.len() ==> wired_upto(
                Tiling::Hexagons,
                dimensions@,
                (#[trigger] final(cells)@[p as int])@,
                p,
                product(dimensions@),
            ),
{
    let ghost d = dimensions@;
    let n = dimensions.len();
    let count = cells.len();
    let mut co_ordinates: Vec<usize> = Vec::new();
    co_ordinates.push(0);
    co_ordinates.push(0);
    proof {
        assert(co_ordinates@ =~= seq![0usize, 0usize]);
        lemma_index_of_zeros(co_ordinates@, d);
        lemma_product_pos(d);
    }
    let mut i: usize = 0;
    while i < count
        invariant
            n == d.len(),
            n == 2,
            d == dimensions@,
            pos_dims(d),
            product(d) <= usize::MAX,
            count as int == product(d),
            cells@.len() == count,
            i <= count,
            in_bounds(co_ordinates@, d),
            index_of(co_ordinates@, d) == if i < count {
                i as int
            } else {
                0int
            },
            forall|p: int| 0 <= p < cells@.len() ==> (#[trigger] cells@[p]).wf(),
            forall|p: int|
                0 <= p < cells@.len() ==> (#[trigger] cells@[p])@.states == old(cells)@[p]@.states,
            forall|p: usize|
                (p as int) < cells@.len() ==> wired_upto(
                    Tiling::Hexagons,
                    d,
                    (#[trigger] cells@[p as int])@,
                    p,
                    i as int,
                ),
        decreases count - i,
    {
        proof {
            lemma_index_coords_roundtrip(co_ordinates@, d);
        }
        let targets = hex_targets(&co_ordinates, dimensions, i);
        let ghost prev = cells@;
        join_all(cells, i, &targets);
        proof {
            assert forall|p: usize|
                (p as int) < cells@.len() implies wired_upto(
                Tiling::Hexagons,
                d,
                (#[trigger] cells@[p as int])@,
                p,
                i as int + 1,
            ) by {
                if p == i {
                    assert(cells@[p as int]@.neighbors.to_set() == prev[p as int]@.neighbors.to_set().union(
                        emits(Tiling::Hexagons, d, i),
                    ));
                } else {
                    assert(cells@[p as int]@.neighbors.to_set() == if emits(
                        Tiling::Hexagons,
                        d,
                        i,
                    ).contains(p) {
                        prev[p as int]@.neighbors.to_set().insert(i)
                    } else {
                        prev[p as int]@.neighbors.to_set()
                    });
                }
                lemma_wired_step(Tiling::Hexagons, d, prev[p as int]@, cells@[p as int]@, p, i);
            }
        }
        next_co_ordinates(&mut co_ordinates, dimensions);
        i = i + 1;
    }
}

/// A member of a finished neighbor set lies inside the lattice and is
/// adjacent to its cell.
pub proof fn lemma_nbr_set_member(tiling: Tiling, dims: Seq<usize>, i: usize, j: usize)
    ensures
        nbr_set(tiling, dims, i).contains(j) == ((j as int) < product(dims) && adjacent(
            tiling,
            dims,
            i,
            j,
        )),
{
    broadcast use vstd::set::group_set_axioms;

}

impl<S: Copy> Region<S> for Torus<S> {
    type Loc = usize;

    open spec fn inv(&self) -> bool {
        self.wf()
    }

    open spec fn has_loc(&self, loc: usize) -> bool {
        (loc as int) < self@.cells.len()
    }

    open spec fn spec_locations(&self) -> Seq<usize> {
        Seq::new(self@.cells.len(), |k: int| k as usize)
    }

    open spec fn spec_state(&self, loc: usize, generation: usize) -> Option<S> {
        if (loc as int) < self@.cells.len() && self@.cells[loc as int].states.contains_key(
            generation,
        ) {
            Some(self@.cells[loc as int].states[generation])
        } else {
            None
        }
    }

    open spec fn neighbors_ok(&self, loc: usize) -> bool {
        true
    }

    open spec fn spec_neighbors(&self, loc: usize) -> Seq<usize> {
        self@.cells[loc as int].neighbors
    }

    fn locations(&self) -> (r: Vec<usize>) {
        let n = self.cells.len();
        let mut r: Vec<usize> = Vec::new();
        for k in 0..n
            invariant
                n == self.cells@.len(),
                r@.len() == k,
                forall|q: int| 0 <= q < k ==> (#[trigger] r@[q]) == q as usize,
        {
            r.push(k);
        }
        proof {
            assert(r@ =~= self.spec_locations());
        }
        r
    }

    fn state(&self, location: &usize, generation: usize) -> (r: Option<S>) {
        self.cells[*location].state(generation)
    }

    fn neighbors(&self, location: &usize) -> (r: Result<Vec<usize>, Error>) {
        let v = self.cells[*location].neighbors();
        proof {
            assert forall|k: int| 0 <= k < v@.len() implies (v@[k] as int) < self@.cells.len() by {
                let cv = self@.cells[*location as int];
                assert(cv == self.cells@[*location as int]@);
                assert(cv.neighbors.contains(v@[k]));
                assert(cv.neighbors.to_set().contains(v@[k])) by {
                    broadcast use vstd::set::group_set_axioms;

                }
                lemma_nbr_set_member(self@.tiling, self@.dims, *location, v@[k]);
            }
        }
        Ok(v)
    }
}

impl<S: Copy> Space<S> for Torus<S> {
    fn regions(&self) -> (r: Vec<&Torus<S>>) {
        let mut v: Vec<&Torus<S>> = Vec::new();
        v.push(self);
        v
    }

    fn reduce<A, F: Fn(&Self, &usize, A) -> A>(&self, init: A, f: F) -> (r: A) {
        let locs = self.locations();
        let ghost ls = self.spec_locations();
        let mut acc = init;
        let ghost mut chain: Seq<A> = seq![init];
        let n = locs.len();
        let mut k: usize = 0;
        while k < n
            invariant
                self.inv(),
                n == locs@.len(),
                locs@ == ls,
                ls == self.spec_locations(),
                forall|q: int| 0 <= q < ls.len() ==> self.has_loc(#[trigger] ls[q]),
                forall|x: (&Self, &usize, A)| #[trigger] call_requires(f, x),
                k <= n,
                chain.len() == k + 1,
                chain[0] == init,
                chain[k as int] == acc,
                forall|q: int|
                    0 <= q < k ==> call_ensures(f, (self, &ls[q], #[trigger] chain[q]), chain[q + 1]),
            decreases n - k,
        {
            acc = f(self, &locs[k], acc);
            proof {
                chain = chain.push(acc);
            }
            k = k + 1;
        }
        proof {
            assert(reduce_chain(f, *self, ls, init, acc, chain));
        }
        acc
    }
}

/// The state map `states2` is `t`'s cell `i` advanced one sweep at
/// `generation`: unchanged if a value for the successor generation was
/// already stored, else extended with the value the cell's rule computes
/// from `t`.
pub open spec fn cell_updated<S: Copy + State<Torus<S>>>(
    t: Torus<S>,
    states2: Map<usize, S>,
    i: usize,
    generation: usize,
) -> bool {
    let olds = t@.cells[i as int].states;
    if olds.contains_key((generation + 1) as usize) {
        states2 == olds
    } else {
        S::next(t, i, generation) matches Ok(s) && states2 == olds.insert(
            (generation + 1) as usize,
            s,
        )
    }
}

/// One cell's step of an in-order sweep: `tb` is `ta` with cell `p`
/// advanced at `generation` and nothing else touched.
pub open spec fn sweep_step<S: Copy + State<Torus<S>>>(
    ta: Torus<S>,
    tb: Torus<S>,
    p: usize,
    generation: usize,
) -> bool {
    &&& tb.wf()
    &&& tb@.tiling == ta@.tiling
    &&& tb@.dims == ta@.dims
    &&& tb@.cells.len() == ta@.cells.len()
    &&& forall|q: int|
        0 <= q < tb@.cells.len() ==> (#[trigger] tb@.cells[q]).neighbors == ta@.cells[q].neighbors
    &&& forall|q: int|
        0 <= q < tb@.cells.len() && q != p ==> (#[trigger] tb@.cells[q]).states == ta@.cells[q].states
    &&& cell_updated(ta, tb@.cells[p as int].states, p, generation)
}

/// `steps` traces an in-order sweep of the first `upto` cells from `t0`:
/// one intermediate torus per advanced cell, each cell's rule reading the
/// torus as the cells before it left it.
pub open spec fn sweep_chain<S: Copy + State<Torus<S>>>(
    t0: Torus<S>,
    steps: Seq<Torus<S>>,
    upto: int,
    generation: usize,
) -> bool {
    &&& steps.len() == upto + 1
    &&& steps[0] == t0
    &&& forall|p: int|
        0 <= p < upto ==> sweep_step(#[trigger] steps[p], steps[p + 1], p as usize, generation)
}

/// A completed sweep from `t0` to `tf`: the chain covers every cell.
pub open spec fn sweep_complete<S: Copy + State<Torus<S>>>(
    t0: Torus<S>,
    tf: Torus<S>,
    steps: Seq<Torus<S>>,
    generation: usize,
) -> bool {
    &&& sweep_chain(t0, steps, t0@.cells.len() as int, generation)
    &&& steps.last() == tf
}

/// A sweep from `t0` aborted at its first failing cell: the chain covers
/// exactly the cells before that cell, whose rule fails with `e` on the
/// torus as the earlier commits left it; the failing cell and every cell
/// after it keep their pre-sweep states.
pub open spec fn sweep_failed<S: Copy + State<Torus<S>>>(
    t0: Torus<S>,
    tf: Torus<S>,
    steps: Seq<Torus<S>>,
    e: Error,
    generation: usize,
) -> bool {
    let j = steps.len() - 1;
    &&& 1 <= steps.len() <= t0@.cells.len()
    &&& sweep_chain(t0, steps, j, generation)
    &&& steps.last() == tf
    &&& !tf@.cells[j].states.contains_key((generation + 1) as usize)
    &&& S::next(tf, j as usize, generation) == Err::<S, Error>(e)
    &&& forall|q: int|
        j <= q < tf@.cells.len() ==> (#[trigger] tf@.cells[q]).states == t0@.cells[q].states
}

impl<S: Copy + State<Torus<S>>> Torus<S> {
    /// Advances one cell to the successor of `generation`: if that entry
    /// already exists, returns without consulting the rule (the memoization
    /// guarantee); otherwise computes the rule's value from the torus as it
    /// stands and commits it. Fails exactly when the rule fails, leaving the
    /// torus unchanged.
    pub fn update_cell(&mut self, i: usize, generation: usize) -> (r: Result<(), Error>)
        requires
            old(self).wf(),
            (i as int) < old(self)@.cells.len(),
            generation < usize::MAX,
        ensures
            final(self).wf(),
            final(self)@.tiling == old(self)@.tiling,
            final(self)@.dims == old(self)@.dims,
            final(self)@.cells.len() == old(self)@.cells.len(),
            forall|p: int|
                0 <= p < final(self)@.cells.len() ==> (#[trigger] final(self)@.cells[p]).neighbors
                    == old(self)@.cells[p].neighbors,
            forall|p: int|
                0 <= p < final(self)@.cells.len() && p != i ==> (#[trigger] final(self)@.cells[p]).states
                    == old(self)@.cells[p].states,
            match r {
                Ok(()) => cell_updated(
                    *old(self),
                    final(self)@.cells[i as int].states,
                    i,
                    generation,
                ),
                Err(e) => *final(self) == *old(self) && !old(self)@.cells[i as int].states.contains_key(
                    (generation + 1) as usize,
                ) && S::next(*old(self), i, generation) == Err::<S, Error>(e),
            },
    {
        let next_gen = generation.successor();
        let already = self.cells[i].has_state(next_gen);
        if already {
            return Ok(());
        }
        let computed = S::update(&*self, &i, generation);
        match computed {
            Ok(s) => {
                let c = &mut self.cells[i];
                c.commit(next_gen, s);
                proof {
                    assert(final(self)@.cells =~= old(self)@.cells.update(
                        i as int,
                        CellView {
                            states: old(self)@.cells[i as int].states.insert(next_gen, s),
                            neighbors: old(self)@.cells[i as int].neighbors,
                        },
                    ));
                    assert forall|p: int|
                        0 <= p < self@.cells.len() implies (#[trigger] self@.cells[p]).neighbors.to_set()
                        == nbr_set(self@.tiling, self@.dims, p as usize) by {
                        assert(self@.cells[p].neighbors == old(self)@.cells[p].neighbors);
                    }
                }
                Ok(())
            },
            Err(e) => Err(e),
        }
    }

    /// Advances every cell to the successor of `generation`, calling the
    /// per-cell update in index order. A failure on any cell aborts the
    /// sweep and surfaces that cell's error: the cells before it keep their
    /// committed successor values, while the failing cell and every cell
    /// after it are left untouched.
    pub fn update_all(&mut self, generation: usize) -> (r: Result<(), Error>)
        requires
            old(self).wf(),
            generation < usize::MAX,
        ensures
            final(self).wf(),
            final(self)@.tiling == old(self)@.tiling,
            final(self)@.dims == old(self)@.dims,
            final(self)@.cells.len() == old(self)@.cells.len(),
            forall|p: int|
                0 <= p < final(self)@.cells.len() ==> (#[trigger] final(self)@.cells[p]).neighbors
                    == old(self)@.cells[p].neighbors,
            match r {
                Ok(()) => (exists|steps: Seq<Torus<S>>|
                    sweep_complete(*old(self), *final(self), steps, generation)) && forall|p: int|
                    0 <= p < final(self)@.cells.len() ==> (#[trigger] final(self)@.cells[p]).states.contains_key(
                        (generation + 1) as usize,
                    ),
                Err(e) => exists|steps: Seq<Torus<S>>|
                    sweep_failed(*old(self), *final(self), steps, e, generation),
            },
    {
        let n = self.cells.len();
        let ghost mut steps: Seq<Torus<S>> = seq![*old(self)];
        let mut i: usize = 0;
        while i < n
            invariant
                self.wf(),
                n == old(self)@.cells.len(),
                n == self@.cells.len(),
                generation < usize::MAX,
                i <= n,
                self@.tiling == old(self)@.tiling,
                self@.dims == old(self)@.dims,
                forall|p: int|
                    0 <= p < n ==> (#[trigger] self@.cells[p]).neighbors == old(self)@.cells[p].neighbors,
                forall|p: int|
                    i <= p < n ==> (#[trigger] self@.cells[p]).states == old(self)@.cells[p].states,
                forall|p: int|
                    0 <= p < i ==> (#[trigger] self@.cells[p]).states.contains_key(
                        (generation + 1) as usize,
                    ),
                steps.len() == i + 1,
                sweep_chain(*old(self), steps, i as int, generation),
                steps.last() == *self,
            decreases n - i,
        {
            let ghost prev = steps;
            let ghost before = *self;
            let stepped = self.update_cell(i, generation);
            match stepped {
                Ok(()) => {
                    proof {
                        assert(before == prev.last());
                        assert(sweep_step(prev.last(), *self, i, generation)) by {
                            assert(cell_updated(before, self@.cells[i as int].states, i, generation));
                        }
                        steps = prev.push(*self);
                        assert(sweep_chain(*old(self), steps, i + 1, generation)) by {
                            assert forall|p: int|
                                0 <= p < i + 1 implies sweep_step(
                                #[trigger] steps[p],
                                steps[p + 1],
                                p as usize,
                                generation,
                            ) by {
                                if p < i {
                                    assert(steps[p] == prev[p] && steps[p + 1] == prev[p + 1]);
                                    assert(sweep_step(prev[p], prev[p + 1], p as usize, generation));
                                } else {
                                    assert(steps[p] == prev.last() && steps[p + 1] == *self);
                                }
                            }
                        }
                        assert forall|p: int|
                            0 <= p < n implies (#[trigger] self@.cells[p]).neighbors
                            == old(self)@.cells[p].neighbors by {
                            assert(self@.cells[p].neighbors == before@.cells[p].neighbors);
                        }
                        assert forall|p: int|
                            i + 1 <= p < n implies (#[trigger] self@.cells[p]).states
                            == old(self)@.cells[p].states by {
                            assert(self@.cells[p].states == before@.cells[p].states);
                        }
                        assert forall|p: int|
                            0 <= p < i + 1 implies (#[trigger] self@.cells[p]).states.contains_key(
                            (generation + 1) as usize,
                        ) by {
                            if p < i {
                                assert(self@.cells[p].states == before@.cells[p].states);
                            } else {
                                assert(cell_updated(before, self@.cells[p].states, i, generation));
                            }
                        }
                    }
                },
                Err(e) => {
                    proof {
                        assert(*self == before);
                        assert(sweep_failed(*old(self), *self, steps, e, generation)) by {
                            assert(steps.len() - 1 == i as int);
                            assert(sweep_chain(*old(self), steps, i as int, generation));
                            assert(!self@.cells[i as int].states.contains_key(
                                (generation + 1) as usize,
                            ));
                            assert(S::next(*self, i, generation) == Err::<S, Error>(e));
                        }
                    }
                    return Err(e);
                },
            }
            i = i + 1;
        }
        proof {
            assert(steps.len() - 1 == n as int);
            assert(sweep_complete(*old(self), *self, steps, generation));
        }
                Ok(())
    }
}

/// Idempotence: once a value for the successor of `generation` is stored,
/// a further sweep of that cell leaves its state map exactly as it is, and
/// never consults the update rule.
pub proof fn lemma_update_idempotent<S: Copy + State<Torus<S>>>(
    t: Torus<S>,
    states2: Map<usize, S>,
    i: usize,
    generation: usize,
)
    requires
        t@.cells[i as int].states.contains_key((generation + 1) as usize),
        cell_updated(t, states2, i, generation),
    ensures
        states2 == t@.cells[i as int].states,
{
}

/// Determinism: two sweeps of the same cell of the same torus at the same
/// generation store the same state map; the rule's next value is a function
/// of the observable state alone.
pub proof fn lemma_update_deterministic<S: Copy + State<Torus<S>>>(
    t: Torus<S>,
    sa: Map<usize, S>,
    sb: Map<usize, S>,
    i: usize,
    generation: usize,
)
    requires
        cell_updated(t, sa, i, generation),
        cell_updated(t, sb, i, generation),
    ensures
        sa == sb,
{
}

/// The rule `S` cannot tell view-identical tori apart at `generation`: its
/// next value is a pure function of the observable state, as the state
/// capability demands of its implementers.
pub open spec fn next_view_based<S: Copy + State<Torus<S>>>(generation: usize) -> bool {
    forall|ta: Torus<S>, tb: Torus<S>, p: usize|
        #![trigger S::next(ta, p, generation), S::next(tb, p, generation)]
        ta@ == tb@ ==> S::next(ta, p, generation) == S::next(tb, p, generation)
}

#[verifier::rlimit(50)]
proof fn lemma_chain_views_equal<S: Copy + State<Torus<S>>>(
    sa: Seq<Torus<S>>,
    sb: Seq<Torus<S>>,
    upto: int,
    generation: usize,
)
    requires
        next_view_based::<S>(generation),
        0 <= upto <= usize::MAX,
        upto < sa.len(),
        upto < sb.len(),
        sa[0]@ == sb[0]@,
        forall|p: int| 0 <= p < upto ==> sweep_step(#[trigger] sa[p], sa[p + 1], p as usize, generation),
        forall|p: int| 0 <= p < upto ==> sweep_step(#[trigger] sb[p], sb[p + 1], p as usize, generation),
    ensures
        sa[upto]@ == sb[upto]@,
    decreases upto,
{
    if upto > 0 {
        lemma_chain_views_equal(sa, sb, upto - 1, generation);
        let p = upto - 1;
        let ta = sa[p];
        let tb = sb[p];
        let ta1 = sa[upto];
        let tb1 = sb[upto];
        assert(sweep_step(ta, ta1, p as usize, generation));
        assert(sweep_step(tb, tb1, p as usize, generation));
        assert((p as usize) as int == p);
        let na = S::next(ta, p as usize, generation);
        let nb = S::next(tb, p as usize, generation);
        assert(na == nb);
        assert(ta1@.cells[p].states == tb1@.cells[p].states) by {
            assert(cell_updated(ta, ta1@.cells[p].states, p as usize, generation));
            assert(cell_updated(tb, tb1@.cells[p].states, p as usize, generation));
            assert(ta@.cells[p].states == tb@.cells[p].states);
        }
        assert forall|q: int| 0 <= q < ta1@.cells.len() implies (#[trigger] ta1@.cells[q])
            == tb1@.cells[q] by {
            if q != p {
                assert(ta1@.cells[q].states == ta@.cells[q].states);
                assert(tb1@.cells[q].states == tb@.cells[q].states);
            }
            assert(ta1@.cells[q].neighbors == ta@.cells[q].neighbors);
            assert(tb1@.cells[q].neighbors == tb@.cells[q].neighbors);
            assert(ta1@.cells[q].states == tb1@.cells[q].states);
            assert(ta1@.cells[q].neighbors == tb1@.cells[q].neighbors);
        }
        assert(ta1@.cells =~= tb1@.cells);
        assert(ta1@ == tb1@);
    }
}

/// Determinism across runs: two in-order sweeps at the same generation, from
/// view-identical tori, under a rule that is a pure function of the
/// observable state, leave view-identical tori — every stored snapshot
/// agrees.
pub proof fn lemma_sweep_deterministic_runs<S: Copy + State<Torus<S>>>(
    t0a: Torus<S>,
    tfa: Torus<S>,
    sa: Seq<Torus<S>>,
    t0b: Torus<S>,
    tfb: Torus<S>,
    sb: Seq<Torus<S>>,
    generation: usize,
)
    requires
        next_view_based::<S>(generation),
        t0a@ == t0b@,
        sweep_complete(t0a, tfa, sa, generation),
        sweep_complete(t0b, tfb, sb, generation),
    ensures
        tfa@ == tfb@,
{
    let n = t0a@.cells.len() as int;
    assert(n <= usize::MAX) by {
        broadcast use vstd::std_specs::vec::axiom_spec_len;

        assert(vstd::std_specs::vec::spec_vec_len(&t0a.cells) == t0a.cells@.len());
    }
    assert(sb.len() == n + 1);
    lemma_chain_views_equal(sa, sb, n, generation);
}

/// Determinism of construction: two well-formed tori of the same tiling and
/// extents, both seeded by an initializer whose value is pinned to a
/// specification-level function of the coordinates, agree on every cell's
/// state map, and on every cell's neighbor set — the tiling's adjacency
/// leaves no freedom there.
pub proof fn lemma_construction_deterministic<S: Copy, F: Fn(&Vec<usize>) -> S>(
    f: F,
    dims: Seq<usize>,
    initial_gen: usize,
    ta: &Torus<S>,
    tb: &Torus<S>,
    gspec: spec_fn(Seq<usize>) -> S,
)
    requires
        ta.wf(),
        tb.wf(),
        ta@.tiling == tb@.tiling,
        ta@.dims == dims,
        tb@.dims == dims,
        forall|i: int|
            0 <= i < ta@.cells.len() ==> cell_seeded(
                f,
                dims,
                initial_gen,
                (#[trigger] ta@.cells[i]).states,
                i,
            ),
        forall|i: int|
            0 <= i < tb@.cells.len() ==> cell_seeded(
                f,
                dims,
                initial_gen,
                (#[trigger] tb@.cells[i]).states,
                i,
            ),
        forall|cv: &Vec<usize>, out: S| #[trigger] call_ensures(f, (cv,), out) ==> out == gspec(cv@),
    ensures
        ta@.cells.len() == tb@.cells.len(),
        forall|i: int|
            0 <= i < ta@.cells.len() ==> (#[trigger] ta@.cells[i]).states == tb@.cells[i].states,
        forall|i: int|
            0 <= i < ta@.cells.len() ==> (#[trigger] ta@.cells[i]).neighbors.to_set()
                == tb@.cells[i].neighbors.to_set(),
{
    assert forall|i: int|
        0 <= i < ta@.cells.len() implies (#[trigger] ta@.cells[i]).states == tb@.cells[i].states by {
        assert(cell_seeded(f, dims, initial_gen, ta@.cells[i].states, i));
        assert(cell_seeded(f, dims, initial_gen, tb@.cells[i].states, i));
        let sa = choose|s: S|
            init_returns(f, coords_of(i, dims), s) && ta@.cells[i].states == Map::<usize, S>::empty().insert(
                initial_gen,
                s,
            );
        let sb = choose|s: S|
            init_returns(f, coords_of(i, dims), s) && tb@.cells[i].states == Map::<usize, S>::empty().insert(
                initial_gen,
                s,
            );
        assert(init_returns(f, coords_of(i, dims), sa));
        assert(init_returns(f, coords_of(i, dims), sb));
        let cva = choose|cv: &Vec<usize>| cv@ == coords_of(i, dims) && #[trigger] call_ensures(f, (cv,), sa);
        let cvb = choose|cv: &Vec<usize>| cv@ == coords_of(i, dims) && #[trigger] call_ensures(f, (cv,), sb);
        assert(sa == gspec(coords_of(i, dims)));
        assert(sb == gspec(coords_of(i, dims)));
    }
    assert forall|i: int|
        0 <= i < ta@.cells.len() implies (#[trigger] ta@.cells[i]).neighbors.to_set()
        == tb@.cells[i].neighbors.to_set() by {
        assert(ta@.cells[i].neighbors.to_set() == nbr_set(ta@.tiling, dims, i as usize));
        assert(tb@.cells[i].neighbors.to_set() == nbr_set(tb@.tiling, dims, i as usize));
    }
}

/// Symmetry: whenever cell `b` is in cell `a`'s neighbor set, cell `a` is in
/// cell `b`'s; `join` inserts both directions, and every tiling's adjacency
/// is its own mirror image.
pub proof fn lemma_neighbor_symmetry<S: Copy>(t: &Torus<S>, a: usize, b: usize)
    requires
        t.wf(),
        (a as int) < t@.cells.len(),
        (b as int) < t@.cells.len(),
    ensures
        t@.cells[a as int].neighbors.to_set().contains(b) <==> t@.cells[b as int].neighbors.to_set().contains(
            a,
        ),
{
    lemma_nbr_set_member(t@.tiling, t@.dims, a, b);
    lemma_nbr_set_member(t@.tiling, t@.dims, b, a);
}

/// On an axis of extent at least three, one step up, one step down and
/// staying put are three different coordinates.
proof fn lemma_mod_vals(x: usize, m: usize)
    requires
        m >= 3,
        x < m,
    ensures
        mod_add(x, 1, m) != x,
        mod_add(x, m - 1, m) != x,
        mod_add(x, 1, m) != mod_add(x, m - 1, m),
        (mod_add(x, 1, m) as int) < m,
        (mod_add(x, m - 1, m) as int) < m,
{
    if x + 1 < m {
        lemma_small_mod((x + 1) as nat, m as nat);
    } else {
        vstd::arithmetic::div_mod::lemma_mod_self_0(m as int);
    }
    if x == 0 {
        lemma_small_mod((m - 1) as nat, m as nat);
    } else {
        vstd::arithmetic::div_mod::lemma_mod_add_multiples_vanish((x - 1) as int, m as int);
        lemma_small_mod((x - 1) as nat, m as nat);
    }
}

/// Stepping up then down along the same axis, or down then up, returns to
/// the start.
proof fn lemma_mod_add_inverse(x: usize, m: usize)
    requires
        m >= 1,
        x < m,
    ensures
        mod_add(mod_add(x, 1, m), m - 1, m) == x,
        mod_add(mod_add(x, m - 1, m), 1, m) == x,
{
    lemma_small_mod((m - 1) as nat, m as nat);
    lemma_small_mod(x as nat, m as nat);
    vstd::arithmetic::div_mod::lemma_mod_add_multiples_vanish(x as int, m as int);
    vstd::arithmetic::div_mod::lemma_add_mod_noop((x + 1) as int, (m - 1) as int, m as int);
    assert(x + 1 + (m - 1) == m + x);
    assert(mod_add(mod_add(x, 1, m), m - 1, m) == x);
    let d = mod_add(x, m - 1, m);
    vstd::arithmetic::div_mod::lemma_add_mod_noop((x + m - 1) as int, 1int, m as int);
    vstd::arithmetic::div_mod::lemma_add_mod_noop_right(d as int, 1int, m as int);
    assert(x + m - 1 + 1 == m + x);
    assert(mod_add(d, 1, m) == x);
}

/// Adding `b` and then `m - b` along an axis of extent `m` returns to the
/// start.
proof fn lemma_mod_add_cancel(z: usize, b: int, m: usize)
    requires
        m >= 1,
        0 <= b <= m,
        z < m,
    ensures
        mod_add(mod_add(z, b, m), m - b, m) == z,
{
    lemma_small_mod(z as nat, m as nat);
    vstd::arithmetic::div_mod::lemma_mod_add_multiples_vanish(z as int, m as int);
    if b == 0 {
        assert(mod_add(z, 0, m) == z);
        assert(mod_add(z, m as int, m) == z);
    } else if b == m {
        assert(mod_add(z, m as int, m) == z);
        assert(mod_add(z, 0, m) == z);
    } else {
        lemma_small_mod((m - b) as nat, m as nat);
        vstd::arithmetic::div_mod::lemma_add_mod_noop((z + b) as int, (m - b) as int, m as int);
        assert(z + b + (m - b) == m + z);
    }
}

/// A step of at least a full turn wraps: adding `b` is adding `b - m`.
proof fn lemma_mod_add_reduce(z: usize, b: int, m: usize)
    requires
        m >= 1,
        b >= m,
    ensures
        mod_add(z, b, m) == mod_add(z, b - m, m),
{
    vstd::arithmetic::div_mod::lemma_mod_add_multiples_vanish((z + b - m) as int, m as int);
}

/// An orthogonal step is mutual: if `b` is one step from `a`, then `a` is
/// one step from `b`, along the same axis in the opposite direction.
proof fn lemma_orth_step_symmetric(dims: Seq<usize>, a: usize, b: usize)
    requires
        pos_dims(dims),
        (a as int) < product(dims),
        orth_step(dims, a, b),
    ensures
        orth_step(dims, b, a),
{
    let k = lemma_orth_step_elim(dims, a, b);
    lemma_coords_of_index(a as int, dims);
    let ca = coords_of(a as int, dims);
    let m = dims[k];
    lemma_mod_add_bound(ca[k], 1, m);
    lemma_mod_add_bound(ca[k], m - 1, m);
    lemma_mod_add_inverse(ca[k], m);
    if (b as int) == axis_step_id(dims, a as int, k, 1) {
        let cu = ca.update(k, mod_add(ca[k], 1, m));
        assert(in_bounds(cu, dims)) by {
            assert(forall|q: int| 0 <= q < ca.len() && q != k ==> (#[trigger] cu[q]) == ca[q]);
        }
        lemma_index_coords_roundtrip(cu, dims);
        assert(coords_of(b as int, dims) == cu);
        assert(cu.update(k, mod_add(cu[k], m - 1, m)) =~= ca);
        assert((a as int) == axis_step_id(dims, b as int, k, dims[k] - 1)) by {
            assert(index_of(ca, dims) == a);
        }
        lemma_orth_step_intro(dims, b, a, k);
    } else {
        let cd2 = ca.update(k, mod_add(ca[k], m - 1, m));
        assert(in_bounds(cd2, dims)) by {
            assert(forall|q: int| 0 <= q < ca.len() && q != k ==> (#[trigger] cd2[q]) == ca[q]);
        }
        lemma_index_coords_roundtrip(cd2, dims);
        assert(coords_of(b as int, dims) == cd2);
        assert(cd2.update(k, mod_add(cd2[k], 1, m)) =~= ca);
        assert((a as int) == axis_step_id(dims, b as int, k, 1)) by {
            assert(index_of(ca, dims) == a);
        }
        lemma_orth_step_intro(dims, b, a, k);
    }
}

/// Two different in-bounds coordinate pairs have different identities.
proof fn lemma_pair_ids_differ(dims: Seq<usize>, a0: usize, a1: usize, b0: usize, b1: usize)
    requires
        dims.len() == 2,
        in_bounds(seq![a0, a1], dims),
        in_bounds(seq![b0, b1], dims),
        a0 != b0 || a1 != b1,
    ensures
        index_of(seq![a0, a1], dims) != index_of(seq![b0, b1], dims),
{
    if index_of(seq![a0, a1], dims) == index_of(seq![b0, b1], dims) {
        lemma_index_coords_roundtrip(seq![a0, a1], dims);
        lemma_index_coords_roundtrip(seq![b0, b1], dims);
        assert(seq![a0, a1] == seq![b0, b1]);
        assert(seq![a0, a1][0] == a0 && seq![a0, a1][1] == a1);
        assert(seq![b0, b1][0] == b0 && seq![b0, b1][1] == b1);
    }
}

/// Hexagonal wiring cardinality: on an even lattice whose extents are at
/// least four, every cell has exactly six distinct neighbors: the previous
/// and next cells of its row, and two cells in each of the rows above and
/// below.
pub proof fn lemma_hexagonal_degree<S: Copy>(t: &Torus<S>, i: usize)
    requires
        t.wf(),
        t@.tiling == Tiling::Hexagons,
        t@.dims[0] >= 3,
        t@.dims[1] >= 3,
        (i as int) < t@.cells.len(),
    ensures
        t@.cells[i as int].neighbors.to_set().len() == 6,
{
    let dims = t@.dims;
    let h = dims[0];
    let w = dims[1];
    lemma_coords_of_index(i as int, dims);
    let c = coords_of(i as int, dims);
    let y = c[0];
    let x = c[1];
    let y1 = mod_add(y, 1, h);
    let ym = mod_add(y, h - 1, h);
    let pi: int = (y % 2) as int;
    let off: int = w - pi;
    let pm: int = (ym % 2) as int;
    let offm: int = w - pm;
    let a_x = mod_add(x, 1, w);
    let l_x = mod_add(x, off, w);
    let r_x = mod_add(x, off + 1, w);
    let p_x = mod_add(x, w - 1, w);
    let u0_x = mod_add(x, pm, w);
    let u1_x = mod_add(x, pm + w - 1, w);
    lemma_small_mod(x as nat, w as nat);
    lemma_small_mod(y as nat, h as nat);
    lemma_mod_vals(x, w);
    lemma_mod_vals(y, h);
    lemma_mod_add_bound(y, 1, h);
    lemma_mod_add_bound(y, h - 1, h);
    lemma_mod_add_bound(x, 1, w);
    lemma_mod_add_bound(x, off, w);
    lemma_mod_add_bound(x, off + 1, w);
    lemma_mod_add_bound(x, w - 1, w);
    lemma_mod_add_bound(x, pm, w);
    lemma_mod_add_bound(x, pm + w - 1, w);
    lemma_mod_add_cancel(x, w - 1, w);
    lemma_mod_add_cancel(y, h - 1, h);
    lemma_mod_add_cancel(y, 1, h);
    lemma_mod_add_cancel(x, pm, w);
    lemma_mod_add_cancel(x, 1, w);
    lemma_mod_add_cancel(x, 0, w);
    // the two lower columns and the two row-mates are one step apart
    assert(mod_add(x, 0, w) == x);
    if pm == 0 {
        lemma_mod_add_reduce(x, w as int, w);
        assert(u1_x == p_x);
        assert(u0_x == x);
        assert(mod_add(u1_x, 1, w) == x);
    } else {
        lemma_mod_add_reduce(x, pm + w - 1, w);
        assert(u1_x == mod_add(x, 0, w));
        assert(u1_x == x);
        assert(u0_x == mod_add(x, 1, w));
        lemma_mod_add_reduce(u1_x, w as int, w);
        lemma_mod_add_cancel(u1_x, 0, w);
    }
    if pi == 0 {
        lemma_mod_add_reduce(x, w as int, w);
        lemma_mod_add_reduce(x, w as int + 1, w);
        assert(l_x == x);
        assert(r_x == mod_add(x, 1, w));
    } else {
        lemma_mod_add_reduce(x, w as int, w);
        assert(l_x == p_x);
        assert(r_x == x);
    }
    // the six neighbor identities, in a fixed order
    let rows: Seq<usize> = seq![y, y1, y1, y, ym, ym];
    let cols: Seq<usize> = seq![a_x, l_x, r_x, p_x, u0_x, u1_x];
    let ids = Seq::<usize>::new(
        6,
        |p: int| index_of(seq![rows[p], cols[p]], dims) as usize,
    );
    assert forall|p: int| 0 <= p < 6 implies {
        &&& in_bounds(seq![rows[p], cols[p]], dims)
        &&& (ids[p] as int) == index_of(seq![rows[p], cols[p]], dims)
        &&& 0 <= (ids[p] as int) < product(dims)
    } by {
        assert(rows[p] == y || rows[p] == y1 || rows[p] == ym);
        assert(in_bounds(seq![rows[p], cols[p]], dims));
        lemma_index_of_bounds(seq![rows[p], cols[p]], dims);
        assert((index_of(seq![rows[p], cols[p]], dims) as usize) as int == index_of(
            seq![rows[p], cols[p]],
            dims,
        ));
    }
    // the three emitted joins are the first three identities
    assert(hex_step(dims, i, ids[0]) && hex_step(dims, i, ids[1]) && hex_step(dims, i, ids[2])) by {
        assert(seq![rows[0], cols[0]] =~= seq![y, mod_add(x, 1, w)]);
        assert(seq![rows[1], cols[1]] =~= seq![mod_add(y, 1, h), mod_add(x, off, w)]);
        assert(seq![rows[2], cols[2]] =~= seq![mod_add(y, 1, h), mod_add(x, off + 1, w)]);
    }
    // the three received joins step back onto this cell
    assert(hex_step(dims, ids[3], i)) by {
        lemma_index_coords_roundtrip(seq![y, p_x], dims);
        assert(coords_of(ids[3] as int, dims) == seq![y, p_x]);
        assert(seq![y, mod_add(p_x, 1, w)] =~= c);
        assert((i as int) == index_of(seq![y, mod_add(p_x, 1, w)], dims));
    }
    assert(hex_step(dims, ids[4], i)) by {
        lemma_index_coords_roundtrip(seq![ym, u0_x], dims);
        assert(coords_of(ids[4] as int, dims) == seq![ym, u0_x]);
        assert(mod_add(ym, 1, h) == y);
        assert(mod_add(u0_x, offm, w) == x) by {
            assert(u0_x == mod_add(x, w - offm, w));
        }
        assert(seq![mod_add(ym, 1, h), mod_add(u0_x, offm, w)] =~= c);
        assert((i as int) == index_of(seq![mod_add(ym, 1, h), mod_add(u0_x, offm, w)], dims));
    }
    assert(hex_step(dims, ids[5], i)) by {
        lemma_index_coords_roundtrip(seq![ym, u1_x], dims);
        assert(coords_of(ids[5] as int, dims) == seq![ym, u1_x]);
        assert(mod_add(ym, 1, h) == y);
        assert(mod_add(u1_x, offm + 1, w) == x) by {
            if pm == 0 {
                lemma_mod_add_reduce(u1_x, w as int + 1, w);
                assert(mod_add(u1_x, offm + 1, w) == mod_add(u1_x, 1, w));
            } else {
                lemma_mod_add_reduce(u1_x, w as int, w);
                lemma_mod_add_cancel(u1_x, 0, w);
                assert(mod_add(u1_x, offm + 1, w) == mod_add(u1_x, 0, w));
            }
        }
        assert(seq![mod_add(ym, 1, h), mod_add(u1_x, offm + 1, w)] =~= c);
        assert((i as int) == index_of(seq![mod_add(ym, 1, h), mod_add(u1_x, offm + 1, w)], dims));
    }
    // the listed identities are exactly the adjacency of this cell
    assert forall|j: usize| ids.to_set().contains(j) implies nbr_set(
        Tiling::Hexagons,
        dims,
        i,
    ).contains(j) by {
        let p = choose|p: int| 0 <= p < ids.len() && ids[p] == j;
        if p < 3 {
            assert(hex_step(dims, i, j));
            lemma_hex_emits(dims, i, j);
        } else {
            assert(hex_step(dims, j, i));
            lemma_hex_emits(dims, j, i);
        }
        lemma_nbr_set_member(Tiling::Hexagons, dims, i, j);
    }
    assert forall|j: usize| nbr_set(Tiling::Hexagons, dims, i).contains(j) implies ids.to_set().contains(
        j,
    ) by {
        lemma_nbr_set_member(Tiling::Hexagons, dims, i, j);
        if hex_emits(dims, i).contains(j) {
            lemma_hex_emits(dims, i, j);
            if (j as int) == index_of(seq![y, mod_add(x, 1, w)], dims) {
                assert(seq![rows[0], cols[0]] =~= seq![y, mod_add(x, 1, w)]);
                assert(ids[0] == j);
                assert(ids.to_set().contains(ids[0]));
            } else if (j as int) == index_of(seq![mod_add(y, 1, h), mod_add(x, off, w)], dims) {
                assert(seq![rows[1], cols[1]] =~= seq![mod_add(y, 1, h), mod_add(x, off, w)]);
                assert(ids[1] == j);
                assert(ids.to_set().contains(ids[1]));
            } else {
                assert(seq![rows[2], cols[2]] =~= seq![mod_add(y, 1, h), mod_add(x, off + 1, w)]);
                assert(ids[2] == j);
                assert(ids.to_set().contains(ids[2]));
            }
        } else {
            assert(hex_emits(dims, j).contains(i));
            lemma_hex_emits(dims, j, i);
            lemma_coords_of_index(j as int, dims);
            let cq = coords_of(j as int, dims);
            let zy = cq[0];
            let zx = cq[1];
            let offq: int = w - (zy % 2);
            lemma_mod_add_bound(zx, 1, w);
            lemma_mod_add_bound(zy, 1, h);
            lemma_mod_add_bound(zx, offq, w);
            lemma_mod_add_bound(zx, offq + 1, w);
            if (i as int) == index_of(seq![zy, mod_add(zx, 1, w)], dims) {
                assert(in_bounds(seq![zy, mod_add(zx, 1, w)], dims));
                lemma_index_coords_roundtrip(seq![zy, mod_add(zx, 1, w)], dims);
                assert(seq![zy, mod_add(zx, 1, w)] == c);
                assert(zy == y && mod_add(zx, 1, w) == x);
                lemma_mod_add_cancel(zx, 1, w);
                assert(zx == p_x);
                assert(cq =~= seq![rows[3], cols[3]]);
                assert(ids[3] == j);
                assert(ids.to_set().contains(ids[3]));
            } else {
                assert((i as int) == index_of(seq![mod_add(zy, 1, h), mod_add(zx, offq, w)], dims)
                    || (i as int) == index_of(
                    seq![mod_add(zy, 1, h), mod_add(zx, offq + 1, w)],
                    dims,
                ));
                if (i as int) == index_of(seq![mod_add(zy, 1, h), mod_add(zx, offq, w)], dims) {
                    assert(in_bounds(seq![mod_add(zy, 1, h), mod_add(zx, offq, w)], dims));
                    lemma_index_coords_roundtrip(seq![mod_add(zy, 1, h), mod_add(zx, offq, w)], dims);
                    assert(seq![mod_add(zy, 1, h), mod_add(zx, offq, w)] == c);
                    assert(mod_add(zy, 1, h) == y && mod_add(zx, offq, w) == x);
                    lemma_mod_add_cancel(zy, 1, h);
                    assert(zy == ym);
                    assert(offq == offm);
                    lemma_mod_add_cancel(zx, offq, w);
                    assert(zx == mod_add(x, w - offm, w));
                    assert(zx == u0_x);
                    assert(cq =~= seq![rows[4], cols[4]]);
                    assert(ids[4] == j);
                    assert(ids.to_set().contains(ids[4]));
                } else {
                    assert(in_bounds(seq![mod_add(zy, 1, h), mod_add(zx, offq + 1, w)], dims));
                    lemma_index_coords_roundtrip(
                        seq![mod_add(zy, 1, h), mod_add(zx, offq + 1, w)],
                        dims,
                    );
                    assert(seq![mod_add(zy, 1, h), mod_add(zx, offq + 1, w)] == c);
                    assert(mod_add(zy, 1, h) == y && mod_add(zx, offq + 1, w) == x);
                    lemma_mod_add_cancel(zy, 1, h);
                    assert(zy == ym);
                    assert(offq == offm);
                    if pm == 0 {
                        lemma_mod_add_reduce(zx, w as int + 1, w);
                        assert(mod_add(zx, 1, w) == x);
                        lemma_mod_add_cancel(zx, 1, w);
                        assert(zx == p_x);
                        assert(zx == u1_x);
                    } else {
                        lemma_mod_add_reduce(zx, w as int, w);
                        lemma_mod_add_cancel(zx, 0, w);
                        assert(mod_add(zx, 0, w) == zx);
                        assert(zx == x);
                        assert(zx == u1_x);
                    }
                    assert(cq =~= seq![rows[5], cols[5]]);
                    assert(ids[5] == j);
                    assert(ids.to_set().contains(ids[5]));
                }
            }
        }
    }
    assert(ids.to_set() =~= nbr_set(Tiling::Hexagons, dims, i));
    // the three rows are pairwise different, and so are the columns within
    // each row, so the six identities are pairwise different
    assert forall|p1: int, p2: int| 0 <= p1 < p2 < 6 implies ids[p1] != ids[p2] by {
        assert(rows[p1] != rows[p2] || cols[p1] != cols[p2]) by {
            assert(y != y1 && y != ym && y1 != ym);
            assert(a_x != p_x);
            assert(r_x == mod_add(l_x, 1, w)) by {
                if pi == 0 {
                    lemma_mod_add_cancel(l_x, 0, w);
                } else {
                    lemma_mod_add_cancel(x, w - 1, w);
                }
            }
            lemma_mod_vals(l_x, w);
            assert(l_x != r_x);
            assert(u0_x == mod_add(u1_x, 1, w));
            lemma_mod_vals(u1_x, w);
            assert(u0_x != u1_x);
        }
        lemma_pair_ids_differ(dims, rows[p1], cols[p1], rows[p2], cols[p2]);
    }
    assert(ids.no_duplicates()) by {
        reveal(Seq::no_duplicates);
    }
    ids.unique_seq_to_set();
    assert(t@.cells[i as int].neighbors.to_set() == nbr_set(Tiling::Hexagons, dims, i));
}

/// A touching-squares step is mutual: if `b` is in `a`'s three-by-three
/// neighborhood, `a` is in `b`'s, at the opposite offset.
proof fn lemma_ts_step_symmetric(dims: Seq<usize>, a: usize, b: usize)
    requires
        dims.len() == 2,
        dims[0] >= 2,
        dims[1] >= 2,
        pos_dims(dims),
        (a as int) < product(dims),
        ts_step(dims, a, b),
    ensures
        ts_step(dims, b, a),
{
    lemma_coords_of_index(a as int, dims);
    let ca = coords_of(a as int, dims);
    let h = dims[0];
    let w = dims[1];
    let y = ca[0];
    let x = ca[1];
    lemma_small_mod(y as nat, h as nat);
    lemma_small_mod(x as nat, w as nat);
    lemma_mod_add_inverse(y, h);
    lemma_mod_add_inverse(x, w);
    lemma_mod_add_bound(y, 0, h);
    lemma_mod_add_bound(y, 1, h);
    lemma_mod_add_bound(y, h - 1, h);
    lemma_mod_add_bound(x, 0, w);
    lemma_mod_add_bound(x, 1, w);
    lemma_mod_add_bound(x, w - 1, w);
    // for each of the eight offsets, decode b's coordinates and step back
    // with the opposite offset
    assert forall|by: int, bx: int|
        (by == 0 || by == 1 || by == h - 1) && (bx == 0 || bx == 1 || bx == w - 1) && !(by == 0
            && bx == 0) && (b as int) == index_of(
            seq![mod_add(y, by, h), mod_add(x, bx, w)],
            dims,
        ) implies ts_step(dims, b, a) by {
        let cb = seq![mod_add(y, by, h), mod_add(x, bx, w)];
        assert(in_bounds(cb, dims));
        lemma_index_coords_roundtrip(cb, dims);
        assert(coords_of(b as int, dims) == cb);
        let yb = cb[0];
        let xb = cb[1];
        let byr: int = if by == 1 {
            h - 1
        } else if by == h - 1 {
            1int
        } else {
            0int
        };
        let bxr: int = if bx == 1 {
            w - 1
        } else if bx == w - 1 {
            1int
        } else {
            0int
        };
        lemma_small_mod(yb as nat, h as nat);
        lemma_small_mod(xb as nat, w as nat);
        lemma_mod_add_inverse(yb, h);
        lemma_mod_add_inverse(xb, w);
        assert(mod_add(yb, byr, h) == y);
        assert(mod_add(xb, bxr, w) == x);
        assert(seq![mod_add(yb, byr, h), mod_add(xb, bxr, w)] =~= ca);
        assert((a as int) == index_of(seq![mod_add(yb, byr, h), mod_add(xb, bxr, w)], dims));
        assert(byr == 0 || byr == 1 || byr == h - 1);
        assert(bxr == 0 || bxr == 1 || bxr == w - 1);
        assert(!(byr == 0 && bxr == 0)) by {
            if by == 1 || by == h - 1 {
                assert(byr != 0);
            } else {
                assert(bx == 1 || bx == w - 1);
                assert(bxr != 0);
            }
        }
    }
}

/// Touching-squares wiring cardinality: on a two-dimensional torus whose
/// extents are both at least three, every cell has exactly the eight
/// distinct cells of its three-by-three neighborhood as neighbors.
pub proof fn lemma_touching_squares_degree<S: Copy>(t: &Torus<S>, i: usize)
    requires
        t.wf(),
        t@.tiling == Tiling::TouchingSquares,
        t@.dims[0] >= 3,
        t@.dims[1] >= 3,
        (i as int) < t@.cells.len(),
    ensures
        t@.cells[i as int].neighbors.to_set().len() == 8,
{
    let dims = t@.dims;
    let h = dims[0];
    let w = dims[1];
    lemma_coords_of_index(i as int, dims);
    let c = coords_of(i as int, dims);
    let y = c[0];
    let x = c[1];
    let bys: Seq<int> = seq![0, 0, 1, 1, 1, h - 1, h - 1, h - 1];
    let bxs: Seq<int> = seq![1, w - 1, 0, 1, w - 1, 0, 1, w - 1];
    let ids = Seq::<usize>::new(
        8,
        |p: int| index_of(seq![mod_add(y, bys[p], h), mod_add(x, bxs[p], w)], dims) as usize,
    );
    lemma_small_mod(y as nat, h as nat);
    lemma_small_mod(x as nat, w as nat);
    lemma_mod_vals(y, h);
    lemma_mod_vals(x, w);
    lemma_mod_add_bound(y, 0, h);
    lemma_mod_add_bound(x, 0, w);
    // every listed identity decodes back to its offset pair
    assert forall|p: int| 0 <= p < 8 implies {
        &&& (ids[p] as int) == index_of(seq![mod_add(y, bys[p], h), mod_add(x, bxs[p], w)], dims)
        &&& in_bounds(seq![mod_add(y, bys[p], h), mod_add(x, bxs[p], w)], dims)
    } by {
        lemma_mod_add_bound(y, bys[p], h);
        lemma_mod_add_bound(x, bxs[p], w);
        let pair = seq![mod_add(y, bys[p], h), mod_add(x, bxs[p], w)];
        assert(in_bounds(pair, dims));
        lemma_index_of_bounds(pair, dims);
        assert((index_of(pair, dims) as usize) as int == index_of(pair, dims));
    }
    // the listed identities are exactly the emission set
    assert forall|j: usize| ids.to_set().contains(j) implies ts_emits(dims, i).contains(j) by {
        let p = choose|p: int| 0 <= p < ids.len() && ids[p] == j;
        assert((j as int) == index_of(seq![mod_add(y, bys[p], h), mod_add(x, bxs[p], w)], dims));
        assert(ts_step(dims, i, j));
        lemma_ts_emits(dims, i, j);
    }
    assert forall|j: usize| ts_emits(dims, i).contains(j) implies ids.to_set().contains(j) by {
        lemma_ts_emits(dims, i, j);
        if (j as int) == index_of(seq![mod_add(y, 0, h), mod_add(x, 1, w)], dims) {
            assert(ids[0] == j);
            assert(ids.to_set().contains(ids[0]));
        } else if (j as int) == index_of(seq![mod_add(y, 0, h), mod_add(x, w - 1, w)], dims) {
            assert(ids[1] == j);
            assert(ids.to_set().contains(ids[1]));
        } else if (j as int) == index_of(seq![mod_add(y, 1, h), mod_add(x, 0, w)], dims) {
            assert(ids[2] == j);
            assert(ids.to_set().contains(ids[2]));
        } else if (j as int) == index_of(seq![mod_add(y, 1, h), mod_add(x, 1, w)], dims) {
            assert(ids[3] == j);
            assert(ids.to_set().contains(ids[3]));
        } else if (j as int) == index_of(seq![mod_add(y, 1, h), mod_add(x, w - 1, w)], dims) {
            assert(ids[4] == j);
            assert(ids.to_set().contains(ids[4]));
        } else if (j as int) == index_of(seq![mod_add(y, h - 1, h), mod_add(x, 0, w)], dims) {
            assert(ids[5] == j);
            assert(ids.to_set().contains(ids[5]));
        } else if (j as int) == index_of(seq![mod_add(y, h - 1, h), mod_add(x, 1, w)], dims) {
            assert(ids[6] == j);
            assert(ids.to_set().contains(ids[6]));
        } else {
            assert(ids[7] == j);
            assert(ids.to_set().contains(ids[7]));
        }
    }
    assert(ids.to_set() =~= ts_emits(dims, i));
    // with both extents at least three, the eight offsets give eight
    // pairwise different cells
    assert forall|p1: int, p2: int| 0 <= p1 < p2 < 8 implies ids[p1] != ids[p2] by {
        let pair1 = seq![mod_add(y, bys[p1], h), mod_add(x, bxs[p1], w)];
        let pair2 = seq![mod_add(y, bys[p2], h), mod_add(x, bxs[p2], w)];
        lemma_mod_add_bound(y, bys[p1], h);
        lemma_mod_add_bound(x, bxs[p1], w);
        lemma_mod_add_bound(y, bys[p2], h);
        lemma_mod_add_bound(x, bxs[p2], w);
        assert(in_bounds(pair1, dims));
        assert(in_bounds(pair2, dims));
        if ids[p1] == ids[p2] {
            lemma_index_coords_roundtrip(pair1, dims);
            lemma_index_coords_roundtrip(pair2, dims);
            assert((ids[p1] as int) == index_of(pair1, dims));
            assert((ids[p2] as int) == index_of(pair2, dims));
            assert(pair1 == pair2);
            assert(mod_add(y, bys[p1], h) == mod_add(y, bys[p2], h));
            assert(mod_add(x, bxs[p1], w) == mod_add(x, bxs[p2], w));
            assert(bys[p1] == bys[p2] && bxs[p1] == bxs[p2]);
            assert(false);
        }
    }
    assert(ids.no_duplicates()) by {
        reveal(Seq::no_duplicates);
    }
    ids.unique_seq_to_set();
    // symmetry folds the adjacency down to the emission set
    assert forall|j: usize| nbr_set(Tiling::TouchingSquares, dims, i).contains(j) implies ts_emits(
        dims,
        i,
    ).contains(j) by {
        lemma_nbr_set_member(Tiling::TouchingSquares, dims, i, j);
        if !ts_emits(dims, i).contains(j) {
            assert(ts_emits(dims, j).contains(i));
            lemma_ts_emits(dims, j, i);
            lemma_ts_step_symmetric(dims, j, i);
            lemma_ts_emits(dims, i, j);
        }
    }
    assert forall|j: usize| ts_emits(dims, i).contains(j) implies nbr_set(
        Tiling::TouchingSquares,
        dims,
        i,
    ).contains(j) by {
        lemma_emits_bounded(Tiling::TouchingSquares, dims, i, j);
        lemma_nbr_set_member(Tiling::TouchingSquares, dims, i, j);
    }
    assert(nbr_set(Tiling::TouchingSquares, dims, i) =~= ts_emits(dims, i));
    assert(t@.cells[i as int].neighbors.to_set() == nbr_set(Tiling::TouchingSquares, dims, i));
}

/// Orthogonal wiring cardinality: on a torus whose every extent is at least
/// three, every cell has exactly two distinct neighbors per axis.
pub proof fn lemma_orthogonal_degree<S: Copy>(t: &Torus<S>, i: usize)
    requires
        t.wf(),
        t@.tiling == Tiling::Orthogonal,
        forall|k: int| 0 <= k < t@.dims.len() ==> (#[trigger] t@.dims[k]) >= 3,
        (i as int) < t@.cells.len(),
    ensures
        t@.cells[i as int].neighbors.to_set().len() == 2 * t@.dims.len(),
{
    let dims = t@.dims;
    let n = dims.len() as int;
    lemma_coords_of_index(i as int, dims);
    let c = coords_of(i as int, dims);
    let ids = Seq::<usize>::new(
        (2 * n) as nat,
        |p: int|
            axis_step_id(
                dims,
                i as int,
                p / 2,
                if p % 2 == 0 {
                    1int
                } else {
                    dims[p / 2] - 1
                },
            ) as usize,
    );
    // every listed identity really is the step it encodes
    assert forall|p: int| 0 <= p < 2 * n implies {
        &&& 0 <= p / 2 < n
        &&& (ids[p] as int) == axis_step_id(
            dims,
            i as int,
            p / 2,
            if p % 2 == 0 {
                1int
            } else {
                dims[p / 2] - 1
            },
        )
    } by {
        lemma_fundamental_div_mod(p, 2);
        lemma_mod_division_less_than_divisor(p, 2);
        let q = p / 2;
        let b: int = if p % 2 == 0 {
            1int
        } else {
            dims[q] - 1
        };
        let sid = axis_step_id(dims, i as int, q, b);
        lemma_mod_add_bound(c[q], 1, dims[q]);
        lemma_mod_add_bound(c[q], dims[q] - 1, dims[q]);
        let cu = c.update(q, mod_add(c[q], b, dims[q]));
        assert(in_bounds(cu, dims)) by {
            assert(forall|r: int| 0 <= r < c.len() && r != q ==> (#[trigger] cu[r]) == c[r]);
        }
        lemma_index_of_bounds(cu, dims);
        assert(0 <= sid <= usize::MAX);
        assert((sid as usize) as int == sid);
    }
    // the listed identities are exactly the emission set
    assert forall|j: usize| ids.to_set().contains(j) implies orth_emits(dims, i).contains(j) by {
        let p = choose|p: int| 0 <= p < ids.len() && ids[p] == j;
        lemma_fundamental_div_mod(p, 2);
        lemma_mod_division_less_than_divisor(p, 2);
        lemma_orth_step_intro(dims, i, j, p / 2);
        lemma_orth_emits(dims, i, j);
    }
    assert forall|j: usize| orth_emits(dims, i).contains(j) implies ids.to_set().contains(j) by {
        lemma_orth_emits(dims, i, j);
        let k = lemma_orth_step_elim(dims, i, j);
        if (j as int) == axis_step_id(dims, i as int, k, 1) {
            let p = 2 * k;
            lemma_fundamental_div_mod_converse(p, 2, k, 0);
            assert(ids[p] == j);
            assert(ids.to_set().contains(ids[p]));
        } else {
            let p = 2 * k + 1;
            lemma_fundamental_div_mod_converse(p, 2, k, 1);
            assert(ids[p] == j);
            assert(ids.to_set().contains(ids[p]));
        }
    }
    assert(ids.to_set() =~= orth_emits(dims, i));
    // with all extents at least three, the listed identities are pairwise
    // distinct
    assert forall|p1: int, p2: int| 0 <= p1 < p2 < 2 * n implies ids[p1] != ids[p2] by {
        lemma_fundamental_div_mod(p1, 2);
        lemma_mod_division_less_than_divisor(p1, 2);
        lemma_fundamental_div_mod(p2, 2);
        lemma_mod_division_less_than_divisor(p2, 2);
        let q1 = p1 / 2;
        let q2 = p2 / 2;
        let b1: int = if p1 % 2 == 0 {
            1int
        } else {
            dims[q1] - 1
        };
        let b2: int = if p2 % 2 == 0 {
            1int
        } else {
            dims[q2] - 1
        };
        let c1 = c.update(q1, mod_add(c[q1], b1, dims[q1]));
        let c2 = c.update(q2, mod_add(c[q2], b2, dims[q2]));
        lemma_mod_vals(c[q1], dims[q1]);
        lemma_mod_vals(c[q2], dims[q2]);
        assert(in_bounds(c1, dims)) by {
            assert(forall|r: int| 0 <= r < c.len() && r != q1 ==> (#[trigger] c1[r]) == c[r]);
        }
        assert(in_bounds(c2, dims)) by {
            assert(forall|r: int| 0 <= r < c.len() && r != q2 ==> (#[trigger] c2[r]) == c[r]);
        }
        if ids[p1] == ids[p2] {
            lemma_index_coords_roundtrip(c1, dims);
            lemma_index_coords_roundtrip(c2, dims);
            assert((ids[p1] as int) == index_of(c1, dims));
            assert((ids[p2] as int) == index_of(c2, dims));
            assert(c1 == c2);
            if q1 == q2 {
                assert(p1 % 2 == 0 && p2 % 2 == 1);
                assert(c1[q1] == c2[q1]);
                assert(false);
            } else {
                assert(c1[q2] == c[q2]);
                assert(c2[q2] != c[q2]);
                assert(false);
            }
        }
    }
    assert(ids.no_duplicates()) by {
        reveal(Seq::no_duplicates);
    }
    ids.unique_seq_to_set();
    // symmetry folds the adjacency down to the emission set
    assert forall|j: usize| nbr_set(Tiling::Orthogonal, dims, i).contains(j) implies orth_emits(
        dims,
        i,
    ).contains(j) by {
        lemma_nbr_set_member(Tiling::Orthogonal, dims, i, j);
        if !orth_emits(dims, i).contains(j) {
            assert(orth_emits(dims, j).contains(i));
            lemma_orth_emits(dims, j, i);
            lemma_orth_step_symmetric(dims, j, i);
            lemma_orth_emits(dims, i, j);
        }
    }
    assert forall|j: usize| orth_emits(dims, i).contains(j) implies nbr_set(
        Tiling::Orthogonal,
        dims,
        i,
    ).contains(j) by {
        lemma_emits_bounded(Tiling::Orthogonal, dims, i, j);
        lemma_nbr_set_member(Tiling::Orthogonal, dims, i, j);
    }
    assert(nbr_set(Tiling::Orthogonal, dims, i) =~= orth_emits(dims, i));
    assert(t@.cells[i as int].neighbors.to_set() == nbr_set(Tiling::Orthogonal, dims, i));
}

proof fn lemma_counting_chain(chain: Seq<usize>, m: int)
    requires
        0 <= m < chain.len(),
        chain[0] == 0,
        m <= usize::MAX,
        forall|q: int|
            0 <= q < chain.len() - 1 ==> (#[trigger] chain[q]) == usize::MAX || chain[q + 1]
                == chain[q] + 1,
    ensures
        chain[m] == m,
    decreases m,
{
    if m > 0 {
        lemma_counting_chain(chain, m - 1);
    }
}

impl<S: Copy> Torus<S> {
    /// Order-independence of `reduce` on a constant: summing one for every
    /// location yields the lattice's cardinality, the product of the
    /// extents, whatever order the fold visits them in.
    pub fn count_locations(&self) -> (n: usize)
        requires
            self.wf(),
        ensures
            n as int == product(self@.dims),
            n as int == self@.cells.len(),
    {
        let f = |r: &Torus<S>, l: &usize, a: usize| -> (res: usize)
            ensures
                res as int == if a == usize::MAX {
                    a as int
                } else {
                    a + 1
                },
            {
                if a == usize::MAX {
                    a
                } else {
                    a + 1
                }
            };
        let n = self.reduce(0, f);
        proof {
            let ls = self.spec_locations();
            let chain = choose|chain: Seq<usize>| reduce_chain(f, *self, ls, 0usize, n, chain);
            assert forall|q: int|
                0 <= q < chain.len() - 1 implies (#[trigger] chain[q]) == usize::MAX || chain[q + 1]
                == chain[q] + 1 by {
                assert(call_ensures(f, (self, &ls[q], chain[q]), chain[q + 1]));
            }
            lemma_counting_chain(chain, ls.len() as int);
        }
        n
    }
}

} // verus!
