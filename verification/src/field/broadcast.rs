//! NumPy-style broadcasting of array shapes and indices.

use vstd::prelude::*;
use crate::error::{GaloisError, Result};

verus! {

/// Product of the dimensions from `i` on.
pub open spec fn right_size(s: Seq<usize>, i: int) -> nat
    decreases s.len() - i,
{
    if i >= s.len() { 1 } else if i < 0 { right_size(s, 0) } else { (s[i] as nat) * right_size(s, i + 1) }
}

/// Product of the dimensions.
pub open spec fn shape_size(s: Seq<usize>) -> nat {
    right_size(s, 0)
}

/// Stride of dimension `i` in row-major order: the product of the later dimensions.
pub open spec fn stride_at(s: Seq<usize>, i: int) -> nat {
    right_size(s, i + 1)
}

/// The part of `linear` left for dimensions `i, i+1, ...` after the earlier ones took theirs.
pub open spec fn lin_rem(linear: nat, s: Seq<usize>, i: int) -> nat
    decreases i,
{
    if i <= 0 { linear } else { lin_rem(linear, s, i - 1) % stride_at(s, i - 1) }
}

/// Row-major coordinates of `linear`, each clamped to its dimension.
pub open spec fn coords_of(linear: nat, s: Seq<usize>) -> Seq<usize> {
    Seq::new(s.len(), |i: int| {
        let c = lin_rem(linear, s, i) / stride_at(s, i);
        let top: nat = if s[i] == 0 { 0 } else { (s[i] - 1) as nat };
        (if c < top { c } else { top }) as usize
    })
}

/// `sum c_i stride_i` over the first `n` coordinates.
pub open spec fn linear_of(c: Seq<usize>, s: Seq<usize>, n: int) -> nat
    decreases n,
{
    if n <= 0 { 0 } else { linear_of(c, s, n - 1) + (c[n - 1] as nat) * stride_at(s, n - 1) }
}

/// Coordinates, in an input of shape `s`, of an output position with coordinates `out` in
/// `ndim` dimensions: dimensions are aligned from the end, and a dimension of one is read at 0.
pub open spec fn bcast_coords(out: Seq<usize>, s: Seq<usize>, ndim: nat) -> Seq<usize> {
    let pad: int = if ndim >= s.len() { ndim - s.len() } else { 0 };
    Seq::new(s.len(), |j: int| if s[j] == 1 || j + pad >= out.len() { 0usize } else { out[j + pad] })
}

/// The dimension of `s` aligned with position `i` of `n` trailing-aligned dimensions.
pub open spec fn dim_from_end(s: Seq<usize>, i: int) -> usize {
    if i < s.len() { s[s.len() - 1 - i] } else { 1 }
}

/// Broadcast shapes are compatible: each aligned pair is equal or has a one.
pub open spec fn shapes_compatible(a: Seq<usize>, b: Seq<usize>) -> bool {
    let l: int = if a.len() >= b.len() { a.len() as int } else { b.len() as int };
    forall|i: int| 0 <= i < l ==> #[trigger] dim_from_end(a, i) == dim_from_end(b, i)
        || dim_from_end(a, i) == 1 || dim_from_end(b, i) == 1
}

/// The broadcast shape of two compatible shapes.
pub open spec fn broadcast_shape(a: Seq<usize>, b: Seq<usize>) -> Seq<usize> {
    let l: int = if a.len() >= b.len() { a.len() as int } else { b.len() as int };
    Seq::new(l as nat, |k: int| {
        let da = dim_from_end(a, l - 1 - k);
        let db = dim_from_end(b, l - 1 - k);
        if da == 1 { db } else { da }
    })
}

/// The index in an input of shape `s` feeding position `linear` of the output shape.
pub open spec fn bcast_index(out_shape: Seq<usize>, s: Seq<usize>, linear: nat) -> nat {
    let c = bcast_coords(coords_of(linear, out_shape), s, out_shape.len());
    linear_of(c, s, s.len() as int)
}

/// The stride of the last dimension is one, and earlier strides multiply up.
pub proof fn lemma_stride_step(s: Seq<usize>, i: int)
    requires
        0 <= i < s.len(),
    ensures
        stride_at(s, i - 1) == stride_at(s, i) * (s[i] as nat),
        i == s.len() - 1 ==> stride_at(s, i) == 1,
{
    assert(right_size(s, i) == (s[i] as nat) * right_size(s, i + 1));
    assert((s[i] as nat) * right_size(s, i + 1) == right_size(s, i + 1) * (s[i] as nat)) by (nonlinear_arith);
}

/// Coordinates within their dimensions address a position below the total size.
pub proof fn lemma_linear_bound(c: Seq<usize>, s: Seq<usize>, n: int)
    requires
        0 <= n <= s.len(),
        c.len() >= n,
        forall|i: int| 0 <= i < n ==> (#[trigger] c[i]) < s[i],
    ensures
        linear_of(c, s, n) + stride_at(s, n - 1) <= stride_at(s, -1),
    decreases n,
{
    if n == 0 {
        assert(s.subrange(0, s.len() as int) =~= s);
    } else {
        lemma_linear_bound(c, s, n - 1);
        lemma_stride_step(s, n - 1);
        let st = stride_at(s, n - 1);
        let ci = c[n - 1] as nat;
        let d = s[n - 1] as nat;
        assert(ci * st + st <= d * st) by (nonlinear_arith) requires ci < d, st >= 0;
        assert(stride_at(s, n - 2) == st * d);
        assert(d * st == st * d) by (nonlinear_arith);
    }
}

/// Every product of a prefix of the dimensions fits in a `usize`.
pub open spec fn prefix_fits(s: Seq<usize>) -> bool {
    forall|k: int| 0 <= k <= s.len() ==> #[trigger] left_size(s, k) <= usize::MAX
}

/// Product of the first `k` dimensions.
pub open spec fn left_size(s: Seq<usize>, k: int) -> nat
    decreases k,
{
    if k <= 0 { 1 } else { left_size(s, k - 1) * (s[k - 1] as nat) }
}

/// Every product of a suffix of the dimensions fits in a `usize`.
pub open spec fn suffix_fits(s: Seq<usize>) -> bool {
    forall|i: int| -1 <= i < s.len() ==> #[trigger] stride_at(s, i) <= usize::MAX
}

/// The left product up to `k` times the right product from `k` is the whole product.
pub proof fn lemma_left_right(s: Seq<usize>, k: int)
    requires
        0 <= k <= s.len(),
    ensures
        left_size(s, k) * right_size(s, k) == shape_size(s),
    decreases k,
{
    if k > 0 {
        lemma_left_right(s, k - 1);
        let l = left_size(s, k - 1);
        let d = s[k - 1] as nat;
        let r = right_size(s, k);
        assert(right_size(s, k - 1) == d * r);
        assert(left_size(s, k) == l * d);
        assert((l * d) * r == l * (d * r)) by (nonlinear_arith);
        assert(left_size(s, k) * right_size(s, k) == (l * d) * r);
        assert(l * right_size(s, k - 1) == shape_size(s));
        assert(left_size(s, k) * right_size(s, k) == shape_size(s));
    } else {
        assert(left_size(s, 0) == 1);
        assert(left_size(s, k) * right_size(s, k) == shape_size(s));
    }
}

/// Product of the dimensions, computed left to right; every partial product must fit.
pub fn total_size(shape: &[usize]) -> (r: usize)
    requires
        prefix_fits(shape@),
    ensures
        r == shape_size(shape@),
{
    let mut acc: usize = 1;
    let mut i: usize = 0;
    while i < shape.len()
        invariant
            i <= shape@.len(),
            prefix_fits(shape@),
            acc == left_size(shape@, i as int),
        decreases shape@.len() - i,
    {
        assert(left_size(shape@, i + 1) <= usize::MAX);
        acc = acc * shape[i];
        i = i + 1;
    }
    proof {
        lemma_left_right(shape@, shape@.len() as int);
        assert(right_size(shape@, shape@.len() as int) == 1);
        let l = left_size(shape@, shape@.len() as int);
        assert(l * 1 == l) by (nonlinear_arith);
    }
    acc
}

/// Row-major strides: the product of the later dimensions for each dimension.
pub fn row_major_strides(shape: &[usize]) -> (r: Vec<usize>)
    requires
        suffix_fits(shape@),
    ensures
        r@.len() == shape@.len(),
        forall|i: int| 0 <= i < shape@.len() ==> #[trigger] r@[i] == stride_at(shape@, i),
{
    let n = shape.len();
    let mut strides: Vec<usize> = vec![1usize; n];
    if n == 0 {
        return strides;
    }
    proof { lemma_stride_step(shape@, n - 1); }
    let mut i: usize = n - 1;
    while i > 0
        invariant
            n == shape@.len(),
            i < n,
            strides@.len() == n,
            suffix_fits(shape@),
            forall|j: int| i <= j < n ==> #[trigger] strides@[j] == stride_at(shape@, j),
        decreases i,
    {
        proof { lemma_stride_step(shape@, i as int); }
        assert(stride_at(shape@, i - 1) <= usize::MAX);
        let v = strides[i] * shape[i];
        strides.set(i - 1, v);
        i = i - 1;
    }
    strides
}

/// Row-major coordinates of `linear` in `shape`, each clamped to its dimension.
pub fn linear_to_coords(linear: usize, shape: &[usize]) -> (r: Vec<usize>)
    requires
        suffix_fits(shape@),
        forall|i: int| 0 <= i < shape@.len() ==> #[trigger] stride_at(shape@, i) > 0,
    ensures
        r@ == coords_of(linear as nat, shape@),
{
    let strides = row_major_strides(shape);
    let mut rem = linear;
    let mut out: Vec<usize> = Vec::new();
    let mut i: usize = 0;
    while i < shape.len()
        invariant
            i <= shape@.len(),
            strides@.len() == shape@.len(),
            forall|j: int| 0 <= j < shape@.len() ==> #[trigger] strides@[j] == stride_at(shape@, j),
            forall|j: int| 0 <= j < shape@.len() ==> #[trigger] stride_at(shape@, j) > 0,
            rem == lin_rem(linear as nat, shape@, i as int),
            out@ =~= coords_of(linear as nat, shape@).subrange(0, i as int),
        decreases shape@.len() - i,
    {
        let st = strides[i];
        let c = rem / st;
        rem = rem % st;
        let dim = shape[i];
        let top: usize = if dim == 0 { 0 } else { dim - 1 };
        out.push(if c < top { c } else { top });
        i = i + 1;
    }
    out
}

/// `sum coords_i stride_i` over the shared positions.
pub fn coords_to_linear(coords: &[usize], shape: &[usize]) -> (r: usize)
    requires
        suffix_fits(shape@),
        coords@.len() >= shape@.len(),
        linear_of(coords@, shape@, shape@.len() as int) <= usize::MAX,
    ensures
        r == linear_of(coords@, shape@, shape@.len() as int),
{
    let strides = row_major_strides(shape);
    let mut acc: usize = 0;
    let mut i: usize = 0;
    while i < shape.len()
        invariant
            i <= shape@.len(),
            coords@.len() >= shape@.len(),
            strides@.len() == shape@.len(),
            forall|j: int| 0 <= j < shape@.len() ==> #[trigger] strides@[j] == stride_at(shape@, j),
            linear_of(coords@, shape@, shape@.len() as int) <= usize::MAX,
            acc == linear_of(coords@, shape@, i as int),
        decreases shape@.len() - i,
    {
        proof { lemma_linear_of_mono(coords@, shape@, i + 1, shape@.len() as int); }
        acc = acc + coords[i] * strides[i];
        i = i + 1;
    }
    acc
}

/// Partial sums of `linear_of` grow.
pub proof fn lemma_linear_of_mono(c: Seq<usize>, s: Seq<usize>, m: int, n: int)
    requires
        0 <= m <= n,
    ensures
        linear_of(c, s, m) <= linear_of(c, s, n),
    decreases n,
{
    if m < n {
        lemma_linear_of_mono(c, s, m, n - 1);
    }
}

/// After the first `k` coordinates of `linear` have been taken, what they address plus what
/// is left is `linear`, and what is left is below the stride of dimension `k - 1`.
pub proof fn lemma_coords_prefix(linear: nat, s: Seq<usize>, k: int)
    requires
        linear < shape_size(s),
        0 <= k <= s.len(),
    ensures
        linear_of(coords_of(linear, s), s, k) + lin_rem(linear, s, k) == linear,
        lin_rem(linear, s, k) < stride_at(s, k - 1),
    decreases k,
{
    if k > 0 {
        let i = k - 1;
        lemma_coords_prefix(linear, s, i);
        lemma_positive_dims(s, i);
        lemma_positive_dims(s, k);
        lemma_stride_step(s, i);
        let rem = lin_rem(linear, s, i);
        let st = stride_at(s, i);
        let d = s[i] as nat;
        let c = rem / st;
        assert(st > 0);
        assert(stride_at(s, i - 1) == st * d);
        assert(c < d) by (nonlinear_arith) requires rem < st * d, st > 0, c == rem / st;
        assert(rem == c * st + rem % st) by (nonlinear_arith) requires st > 0, c == rem / st;
        assert(rem % st < st) by (nonlinear_arith) requires st > 0;
        assert(coords_of(linear, s)[i] as nat == c);
        assert(lin_rem(linear, s, k) == rem % st);
    }
}

/// Turning a position below the size of a shape into its row-major coordinates and those
/// back into a position gives the position again.
pub proof fn lemma_coords_round_trip(linear: nat, s: Seq<usize>)
    requires
        linear < shape_size(s),
    ensures
        linear_of(coords_of(linear, s), s, s.len() as int) == linear,
{
    lemma_coords_prefix(linear, s, s.len() as int);
    assert(stride_at(s, s.len() - 1) == 1);
}

/// Coordinates in an input of shape `input_shape` of the output position `out_coords` in
/// `output_ndim` dimensions (trailing dimensions aligned, a dimension of one read at 0).
pub fn broadcast_coords(out_coords: &[usize], input_shape: &[usize], output_ndim: usize) -> (r: Vec<usize>)
    ensures
        r@ == bcast_coords(out_coords@, input_shape@, output_ndim as nat),
{
    let pad: usize = if output_ndim >= input_shape.len() { output_ndim - input_shape.len() } else { 0 };
    let mut out: Vec<usize> = Vec::new();
    let mut j: usize = 0;
    while j < input_shape.len()
        invariant
            j <= input_shape@.len(),
            pad == (if output_ndim >= input_shape@.len() { output_ndim - input_shape@.len() } else { 0 }),
            out@ =~= bcast_coords(out_coords@, input_shape@, output_ndim as nat).subrange(0, j as int),
        decreases input_shape@.len() - j,
    {
        let v: usize = if input_shape[j] == 1 || j >= out_coords.len() || pad >= out_coords.len() - j {
            0
        } else {
            out_coords[j + pad]
        };
        out.push(v);
        j = j + 1;
    }
    out
}

/// The broadcast of two shapes under NumPy's rules; `ShapeMismatch` with both shapes when
/// an aligned pair of dimensions differs and neither is one.
pub fn broadcast_shapes(a: &[usize], b: &[usize]) -> (r: Result<Vec<usize>>)
    ensures
        shapes_compatible(a@, b@) ==> (r matches Ok(s) && s@ == broadcast_shape(a@, b@)),
        !shapes_compatible(a@, b@) ==> (r matches Err(GaloisError::ShapeMismatch { expected, actual })
            && expected@ == a@ && actual@ == b@),
{
    let l = if a.len() >= b.len() { a.len() } else { b.len() };
    let mut result: Vec<usize> = vec![1usize; l];
    let mut i: usize = 0;
    while i < l
        invariant
            l == (if a@.len() >= b@.len() { a@.len() } else { b@.len() }),
            i <= l,
            result@.len() == l,
            forall|j: int| 0 <= j < i ==> #[trigger] dim_from_end(a@, j) == dim_from_end(b@, j)
                || dim_from_end(a@, j) == 1 || dim_from_end(b@, j) == 1,
            forall|k: int| l - i <= k < l ==> #[trigger] result@[k] == broadcast_shape(a@, b@)[k],
        decreases l - i,
    {
        let da: usize = if i < a.len() { a[a.len() - 1 - i] } else { 1 };
        let db: usize = if i < b.len() { b[b.len() - 1 - i] } else { 1 };
        if da != db && da != 1 && db != 1 {
            assert(dim_from_end(a@, i as int) == da && dim_from_end(b@, i as int) == db);
            assert(!shapes_compatible(a@, b@));
            let ea = slice_to_vec(a);
            let eb = slice_to_vec(b);
            return Err(GaloisError::ShapeMismatch { expected: ea, actual: eb });
        }
        result.set(l - 1 - i, if da == 1 { db } else { da });
        i = i + 1;
    }
    assert(result@ =~= broadcast_shape(a@, b@));
    Ok(result)
}

/// A copy of a slice.
pub(crate) fn slice_to_vec(s: &[usize]) -> (r: Vec<usize>)
    ensures
        r@ == s@,
{
    let mut out: Vec<usize> = Vec::new();
    let mut i: usize = 0;
    while i < s.len()
        invariant
            i <= s@.len(),
            out@ =~= s@.subrange(0, i as int),
        decreases s@.len() - i,
    {
        out.push(s[i]);
        i = i + 1;
    }
    out
}

/// A nonempty shape has positive dimensions and positive strides.
pub proof fn lemma_positive_dims(s: Seq<usize>, i: int)
    requires
        shape_size(s) > 0,
        0 <= i <= s.len(),
    ensures
        right_size(s, i) > 0,
        i < s.len() ==> s[i] > 0,
    decreases i,
{
    if i > 0 {
        lemma_positive_dims(s, i - 1);
        let d = s[i - 1] as nat;
        let r = right_size(s, i);
        assert(right_size(s, i - 1) == d * r);
        assert(r > 0) by (nonlinear_arith) requires d * r > 0, d >= 0, r >= 0;
    }
    if i < s.len() {
        let d = s[i] as nat;
        let r = right_size(s, i + 1);
        assert(right_size(s, i) == d * r);
        assert(d > 0) by (nonlinear_arith) requires d * r > 0, d >= 0, r >= 0;
    }
}

/// `s` broadcasts to `out`: aligned from the end, each dimension of `s` is one or equal to
/// the dimension of `out`.
pub open spec fn fits_into(s: Seq<usize>, out: Seq<usize>) -> bool {
    &&& s.len() <= out.len()
    &&& forall|j: int| 0 <= j < s.len() ==> #[trigger] s[j] == 1 || s[j] == out[j + out.len() - s.len()]
}

/// Both shapes broadcast to their broadcast shape.
pub proof fn lemma_fits_broadcast(a: Seq<usize>, b: Seq<usize>)
    requires
        shapes_compatible(a, b),
    ensures
        fits_into(a, broadcast_shape(a, b)),
        fits_into(b, broadcast_shape(a, b)),
{
    let out = broadcast_shape(a, b);
    let l: int = if a.len() >= b.len() { a.len() as int } else { b.len() as int };
    assert forall|j: int| 0 <= j < a.len() implies #[trigger] a[j] == 1 || a[j] == out[j + out.len() - a.len()] by {
        let i = a.len() - 1 - j;
        assert(dim_from_end(a, i) == a[j]);
        assert(dim_from_end(a, i) == dim_from_end(b, i) || dim_from_end(a, i) == 1 || dim_from_end(b, i) == 1);
    }
    assert forall|j: int| 0 <= j < b.len() implies #[trigger] b[j] == 1 || b[j] == out[j + out.len() - b.len()] by {
        let i = b.len() - 1 - j;
        assert(dim_from_end(b, i) == b[j]);
        assert(dim_from_end(a, i) == dim_from_end(b, i) || dim_from_end(a, i) == 1 || dim_from_end(b, i) == 1);
    }
}

/// Every position of a nonempty output reads a position inside each input that broadcasts to it.
pub proof fn lemma_bcast_index_bound(out: Seq<usize>, s: Seq<usize>, linear: nat)
    requires
        fits_into(s, out),
        linear < shape_size(out),
    ensures
        bcast_index(out, s, linear) < shape_size(s),
        forall|i: int| 0 <= i < out.len() ==> #[trigger] stride_at(out, i) > 0,
{
    assert forall|i: int| 0 <= i < out.len() implies #[trigger] out[i] > 0 by {
        lemma_positive_dims(out, i);
    }
    assert forall|i: int| 0 <= i < out.len() implies #[trigger] stride_at(out, i) > 0 by {
        lemma_positive_dims(out, i + 1);
    }
    let co = coords_of(linear, out);
    let c = bcast_coords(co, s, out.len());
    let pad: int = out.len() - s.len();
    assert forall|j: int| 0 <= j < s.len() implies (#[trigger] c[j]) < s[j] by {
        if s[j] != 1 {
            assert(s[j] == out[j + pad]);
            assert(out[j + pad] > 0);
            assert(co[j + pad] <= out[j + pad] - 1);
        }
    }
    lemma_linear_bound(c, s, s.len() as int);
    assert(stride_at(s, s.len() - 1) == 1);
}

/// The position in an input of shape `input_shape` that feeds position `linear_idx` of an
/// output of shape `output_shape`.
pub fn broadcast_index(output_shape: &[usize], input_shape: &[usize], linear_idx: usize) -> (r: usize)
    requires
        suffix_fits(output_shape@),
        suffix_fits(input_shape@),
        forall|i: int| 0 <= i < output_shape@.len() ==> #[trigger] stride_at(output_shape@, i) > 0,
        bcast_index(output_shape@, input_shape@, linear_idx as nat) <= usize::MAX,
    ensures
        r == bcast_index(output_shape@, input_shape@, linear_idx as nat),
{
    let out_coords = linear_to_coords(linear_idx, output_shape);
    let in_coords = broadcast_coords(&out_coords, input_shape, output_shape.len());
    coords_to_linear(&in_coords, input_shape)
}

/// Shapes and sizes under which a broadcast binary operation runs: values match their
/// shapes, strides fit, and the broadcast shape of compatible shapes fits.
pub open spec fn broadcast_ready(a_shape: Seq<usize>, a: Seq<u64>, b_shape: Seq<usize>, b: Seq<u64>) -> bool {
    &&& a.len() == shape_size(a_shape)
    &&& b.len() == shape_size(b_shape)
    &&& suffix_fits(a_shape)
    &&& suffix_fits(b_shape)
    &&& shapes_compatible(a_shape, b_shape) ==> prefix_fits(broadcast_shape(a_shape, b_shape))
        && suffix_fits(broadcast_shape(a_shape, b_shape))
}

/// The operands of output position `i`.
pub open spec fn bcast_args(a_shape: Seq<usize>, a: Seq<u64>, b_shape: Seq<usize>, b: Seq<u64>, i: nat) -> (u64, u64) {
    let out = broadcast_shape(a_shape, b_shape);
    (a[bcast_index(out, a_shape, i) as int], b[bcast_index(out, b_shape, i) as int])
}

/// Reads the operands of output position `linear`.
fn operands(a_shape: &[usize], a: &[u64], b_shape: &[usize], b: &[u64], out_shape: &[usize], linear: usize) -> (r: (u64, u64))
    requires
        broadcast_ready(a_shape@, a@, b_shape@, b@),
        shapes_compatible(a_shape@, b_shape@),
        out_shape@ == broadcast_shape(a_shape@, b_shape@),
        linear < shape_size(out_shape@),
    ensures
        r == bcast_args(a_shape@, a@, b_shape@, b@, linear as nat),
{
    proof {
        lemma_fits_broadcast(a_shape@, b_shape@);
        lemma_bcast_index_bound(out_shape@, a_shape@, linear as nat);
        lemma_bcast_index_bound(out_shape@, b_shape@, linear as nat);
    }
    let out_coords = linear_to_coords(linear, out_shape);
    let a_coords = broadcast_coords(&out_coords, a_shape, out_shape.len());
    let b_coords = broadcast_coords(&out_coords, b_shape, out_shape.len());
    assert(a_coords@ == bcast_coords(coords_of(linear as nat, out_shape@), a_shape@, out_shape@.len()));
    assert(b_coords@ == bcast_coords(coords_of(linear as nat, out_shape@), b_shape@, out_shape@.len()));
    assert(a@.len() == a.len() && b@.len() == b.len());
    assert(linear_of(a_coords@, a_shape@, a_shape@.len() as int) < a@.len());
    assert(linear_of(b_coords@, b_shape@, b_shape@.len() as int) < b@.len());
    let ai = coords_to_linear(&a_coords, a_shape);
    let bi = coords_to_linear(&b_coords, b_shape);
    (a[ai], b[bi])
}

/// Applies `op` to each pair of operands of the broadcast of `a` and `b`; `ShapeMismatch`
/// with both shapes when the shapes do not broadcast.
pub fn broadcast_binary<F>(a_shape: &[usize], a: &[u64], b_shape: &[usize], b: &[u64], op: F) -> (r: Result<(Vec<usize>, Vec<u64>)>)
    where
        F: Fn(u64, u64) -> u64,
    requires
        broadcast_ready(a_shape@, a@, b_shape@, b@),
        forall|i: int, j: int| 0 <= i < a@.len() && 0 <= j < b@.len() ==> call_requires(op, (#[trigger] a@[i], #[trigger] b@[j])),
    ensures
        shapes_compatible(a_shape@, b_shape@) ==> (r matches Ok((s, v))
            && s@ == broadcast_shape(a_shape@, b_shape@)
            && v@.len() == shape_size(s@)
            && forall|i: int| 0 <= i < v@.len() ==> call_ensures(op,
                #[trigger] bcast_args(a_shape@, a@, b_shape@, b@, i as nat), v@[i])),
        !shapes_compatible(a_shape@, b_shape@) ==> (r matches Err(GaloisError::ShapeMismatch { expected, actual })
            && expected@ == a_shape@ && actual@ == b_shape@),
{
    let out_shape = match broadcast_shapes(a_shape, b_shape) {
        Ok(s) => s,
        Err(e) => { return Err(e); },
    };
    let out_len = total_size(&out_shape);
    let mut out: Vec<u64> = Vec::new();
    let mut linear: usize = 0;
    while linear < out_len
        invariant
            broadcast_ready(a_shape@, a@, b_shape@, b@),
            shapes_compatible(a_shape@, b_shape@),
            out_shape@ == broadcast_shape(a_shape@, b_shape@),
            out_len == shape_size(out_shape@),
            forall|i: int, j: int| 0 <= i < a@.len() && 0 <= j < b@.len() ==> call_requires(op, (#[trigger] a@[i], #[trigger] b@[j])),
            linear <= out_len,
            out@.len() == linear,
            forall|i: int| 0 <= i < linear ==> call_ensures(op,
                #[trigger] bcast_args(a_shape@, a@, b_shape@, b@, i as nat), out@[i]),
        decreases out_len - linear,
    {
        let (av, bv) = operands(a_shape, a, b_shape, b, &out_shape, linear);
        proof {
            lemma_fits_broadcast(a_shape@, b_shape@);
            lemma_bcast_index_bound(out_shape@, a_shape@, linear as nat);
            lemma_bcast_index_bound(out_shape@, b_shape@, linear as nat);
            let ia = bcast_index(out_shape@, a_shape@, linear as nat) as int;
            let ib = bcast_index(out_shape@, b_shape@, linear as nat) as int;
            assert(call_requires(op, (a@[ia], b@[ib])));
        }
        let v = op(av, bv);
        out.push(v);
        linear = linear + 1;
    }
    Ok((out_shape, out))
}

/// As `broadcast_binary`, for an operation that can fail: a failure at some position is returned.
pub fn broadcast_binary_result<F>(a_shape: &[usize], a: &[u64], b_shape: &[usize], b: &[u64], op: F) -> (r: Result<(Vec<usize>, Vec<u64>)>)
    where
        F: Fn(u64, u64) -> Result<u64>,
    requires
        broadcast_ready(a_shape@, a@, b_shape@, b@),
        forall|i: int, j: int| 0 <= i < a@.len() && 0 <= j < b@.len() ==> call_requires(op, (#[trigger] a@[i], #[trigger] b@[j])),
    ensures
        shapes_compatible(a_shape@, b_shape@) ==> match r {
            Ok((s, v)) => s@ == broadcast_shape(a_shape@, b_shape@)
                && v@.len() == shape_size(s@)
                && forall|i: int| 0 <= i < v@.len() ==> call_ensures(op,
                    #[trigger] bcast_args(a_shape@, a@, b_shape@, b@, i as nat), Ok::<u64, GaloisError>(v@[i])),
            Err(e) => exists|k: nat| k < shape_size(broadcast_shape(a_shape@, b_shape@))
                && call_ensures(op, #[trigger] bcast_args(a_shape@, a@, b_shape@, b@, k), Err::<u64, GaloisError>(e)),
        },
        !shapes_compatible(a_shape@, b_shape@) ==> (r matches Err(GaloisError::ShapeMismatch { expected, actual })
            && expected@ == a_shape@ && actual@ == b_shape@),
{
    let out_shape = match broadcast_shapes(a_shape, b_shape) {
        Ok(s) => s,
        Err(e) => { return Err(e); },
    };
    let out_len = total_size(&out_shape);
    let mut out: Vec<u64> = Vec::new();
    let mut linear: usize = 0;
    while linear < out_len
        invariant
            broadcast_ready(a_shape@, a@, b_shape@, b@),
            shapes_compatible(a_shape@, b_shape@),
            out_shape@ == broadcast_shape(a_shape@, b_shape@),
            out_len == shape_size(out_shape@),
            forall|i: int, j: int| 0 <= i < a@.len() && 0 <= j < b@.len() ==> call_requires(op, (#[trigger] a@[i], #[trigger] b@[j])),
            linear <= out_len,
            out@.len() == linear,
            forall|i: int| 0 <= i < linear ==> call_ensures(op,
                #[trigger] bcast_args(a_shape@, a@, b_shape@, b@, i as nat), Ok::<u64, GaloisError>(out@[i])),
        decreases out_len - linear,
    {
        let (av, bv) = operands(a_shape, a, b_shape, b, &out_shape, linear);
        proof {
            lemma_fits_broadcast(a_shape@, b_shape@);
            lemma_bcast_index_bound(out_shape@, a_shape@, linear as nat);
            lemma_bcast_index_bound(out_shape@, b_shape@, linear as nat);
            let ia = bcast_index(out_shape@, a_shape@, linear as nat) as int;
            let ib = bcast_index(out_shape@, b_shape@, linear as nat) as int;
            assert(call_requires(op, (a@[ia], b@[ib])));
        }
        match op(av, bv) {
            Ok(v) => { out.push(v); },
            Err(e) => {
                proof {
                    assert(call_ensures(op, bcast_args(a_shape@, a@, b_shape@, b@, linear as nat), Err::<u64, GaloisError>(e)));
                }
                return Err(e);
            },
        }
        linear = linear + 1;
    }
    Ok((out_shape, out))
}


/// The positions in `a` and `b` of the operands of output position `linear` of their
/// broadcast.
pub(crate) fn operand_positions(a_shape: &[usize], a_len: usize, b_shape: &[usize], b_len: usize, out_shape: &[usize],
    linear: usize) -> (r: (usize, usize))
    requires
        a_len == shape_size(a_shape@),
        b_len == shape_size(b_shape@),
        suffix_fits(a_shape@),
        suffix_fits(b_shape@),
        shapes_compatible(a_shape@, b_shape@),
        prefix_fits(broadcast_shape(a_shape@, b_shape@)),
        suffix_fits(broadcast_shape(a_shape@, b_shape@)),
        out_shape@ == broadcast_shape(a_shape@, b_shape@),
        linear < shape_size(out_shape@),
    ensures
        r.0 == bcast_index(out_shape@, a_shape@, linear as nat),
        r.1 == bcast_index(out_shape@, b_shape@, linear as nat),
        r.0 < a_len,
        r.1 < b_len,
{
    proof {
        lemma_fits_broadcast(a_shape@, b_shape@);
        lemma_bcast_index_bound(out_shape@, a_shape@, linear as nat);
        lemma_bcast_index_bound(out_shape@, b_shape@, linear as nat);
    }
    let out_coords = linear_to_coords(linear, out_shape);
    let a_coords = broadcast_coords(&out_coords, a_shape, out_shape.len());
    let b_coords = broadcast_coords(&out_coords, b_shape, out_shape.len());
    assert(a_coords@ == bcast_coords(coords_of(linear as nat, out_shape@), a_shape@, out_shape@.len()));
    assert(b_coords@ == bcast_coords(coords_of(linear as nat, out_shape@), b_shape@, out_shape@.len()));
    assert(linear_of(a_coords@, a_shape@, a_shape@.len() as int) < a_len);
    assert(linear_of(b_coords@, b_shape@, b_shape@.len() as int) < b_len);
    let ai = coords_to_linear(&a_coords, a_shape);
    let bi = coords_to_linear(&b_coords, b_shape);
    (ai, bi)
}

} // verus!
