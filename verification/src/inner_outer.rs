//! The inner (A) and outer (B) commitment stages: inner witness shape
//! checks, canonical B-slice construction and the outer image.
use vstd::prelude::*;
use crate::digits::{CommitInnerWitness, DigitBlocks, RingVec};
use crate::error::{
    AkitaError, invalid_setup, inner_group_len_error, inner_row_count_error,
    inner_block_rows_error, inner_group_len_reads, inner_row_count_reads, setup_error_reads,
    fails_with, b_row_shape_reads, same_error, usize_text_is_functional, lemma_group_len_same,
    lemma_row_count_same, lemma_b_row_shape_same,
};
use crate::slice::{CommitmentSliceGeometry, law_slices_partition_blocks};
use crate::backend::{
    CommitInnerPlan, CommittedSourceContract, ComputeBackendSetup, DigitRowsComputeBackend,
    RootCommitKernel, RootCommitSource,
};
use crate::decompose::{
    blocks_digits, blocks_view, decompose_commit_blocks, decompose_error, decompose_ok,
    decomposed_block_sizes,
};
use crate::digits::{
    all_have_dim, block_rows_coeffs, flatten_rings, lemma_flatten_len, lemma_flatten_piece,
    rows_view,
};
use crate::profile::MatrixDescriptor;
use crate::error::b_row_shape_error;

verus! {

/// Check that a backend-computed inner witness has ring dimension `d` and
/// exactly `n_a` rows for each of the `num_live_blocks` blocks.
pub fn validate_commit_inner_shape(
    inner: &CommitInnerWitness,
    num_live_blocks: usize,
    n_a: usize,
    d: usize,
) -> (r: Result<(), AkitaError>)
    ensures
        r is Ok <==> inner_shape_ok(*inner, num_live_blocks as nat, n_a as nat, d as nat),
        r matches Err(e) ==> e is InvalidSetup,
        r matches Err(e) ==> inner_shape_error_reads(
            e,
            *inner,
            num_live_blocks as nat,
            n_a as nat,
            d as nat,
        ),
{
    inner.ensure_ring_dim(d)?;
    let expected_rows = match num_live_blocks.checked_mul(n_a) {
        Some(v) => v,
        None => {
            return Err(invalid_setup("inner commitment row count overflow"));
        },
    };
    let actual_rows = inner.inner_rows.count();
    if actual_rows != expected_rows {
        return Err(inner_row_count_error(actual_rows, expected_rows));
    }
    let mut block_idx: usize = 0;
    while block_idx < num_live_blocks
        invariant
            block_idx <= num_live_blocks,
            inner.inner_rows.ring_dim == d,
            expected_rows == num_live_blocks * n_a,
            inner.inner_rows.num_elems() == expected_rows,
            block_idx > 0 ==> d >= 1,
        decreases num_live_blocks - block_idx,
    {
        proof {
            assert((block_idx + 1) * n_a <= num_live_blocks * n_a) by (nonlinear_arith)
                requires block_idx + 1 <= num_live_blocks;
        }
        let block_rows = inner.block_rows(block_idx, n_a)?;
        if block_rows.len() != n_a {
            return Err(inner_block_rows_error(block_rows.len(), block_idx, n_a));
        }
        block_idx = block_idx + 1;
    }
    Ok(())
}

/// `e` is the shape check's rejection of `inner`: a wrong ring dimension,
/// an overflowing row count, a wrong row count, or rows of dimension zero.
pub open spec fn inner_shape_error_reads(
    e: AkitaError,
    inner: CommitInnerWitness,
    num_live_blocks: nat,
    n_a: nat,
    d: nat,
) -> bool {
    if inner.inner_rows.ring_dim != d {
        setup_error_reads(e, "inner commitment has the wrong ring dimension"@)
    } else if num_live_blocks * n_a > usize::MAX {
        setup_error_reads(e, "inner commitment row count overflow"@)
    } else if inner.inner_rows.num_elems() != num_live_blocks * n_a {
        inner_row_count_reads(
            e,
            inner.inner_rows.num_elems() as usize,
            (num_live_blocks * n_a) as usize,
        )
    } else {
        setup_error_reads(e, "inner commitment ring dimension must be positive"@)
    }
}

/// A witness of ring dimension `d` with exactly `n_a` rows per live block.
pub open spec fn inner_shape_ok(
    inner: CommitInnerWitness,
    num_live_blocks: nat,
    n_a: nat,
    d: nat,
) -> bool {
    &&& inner.inner_rows.ring_dim == d
    &&& num_live_blocks * n_a <= usize::MAX
    &&& inner.inner_rows.num_elems() == num_live_blocks * n_a
    &&& (num_live_blocks > 0 ==> d >= 1)
}

/// The backend returned one inner witness per source.
pub fn validate_commit_inner_group_len(expected: usize, actual: usize) -> (r: Result<
    (),
    AkitaError,
>)
    ensures
        r is Ok <==> actual == expected,
        r matches Err(e) ==> inner_group_len_reads(e, actual, expected),
{
    if actual != expected {
        return Err(inner_group_len_error(actual, expected));
    }
    Ok(())
}

/// `n` zero digits.
pub open spec fn zero_digits(n: nat) -> Seq<i8> {
    Seq::new(n, |i: int| 0i8)
}

/// Coefficients of one block of one polynomial's digit planes.
pub open spec fn block_coeff_len(g: CommitmentSliceGeometry) -> int {
    g.per_block * g.ring_dim
}

/// One polynomial's share of slice `s`: the digit planes of the slice's
/// block range, padded with zero planes to `max_blocks` blocks.
pub open spec fn padded_slice_part(g: CommitmentSliceGeometry, plane: Seq<i8>, s: int) -> Seq<
    i8,
> {
    let bl = block_coeff_len(g);
    plane.subrange(g.start_of(s) * bl, g.end_of(s) * bl) + zero_digits(
        ((g.max_blocks - (g.end_of(s) - g.start_of(s))) * bl) as nat,
    )
}

/// Slice `s` input built from the first `n` polynomials.
pub open spec fn slice_input_prefix(
    g: CommitmentSliceGeometry,
    planes: Seq<Seq<i8>>,
    s: int,
    n: int,
) -> Seq<i8>
    decreases n,
{
    if n <= 0 {
        Seq::empty()
    } else {
        slice_input_prefix(g, planes, s, n - 1) + padded_slice_part(g, planes[n - 1], s)
    }
}

/// The canonical input of slice `s`: polynomial-major, each polynomial's
/// block range zero-padded to `max_blocks` blocks.
pub open spec fn slice_input(g: CommitmentSliceGeometry, planes: Seq<Seq<i8>>, s: int) -> Seq<
    i8,
> {
    slice_input_prefix(g, planes, s, planes.len() as int)
}

/// Every slice input, in slice order.
pub open spec fn slice_inputs(g: CommitmentSliceGeometry, planes: Seq<Seq<i8>>) -> Seq<Seq<i8>> {
    Seq::new(g.num_slices(), |s: int| slice_input(g, planes, s))
}

/// One plane vector per polynomial of the geometry, each covering every
/// live block.
pub open spec fn planes_fit(g: CommitmentSliceGeometry, planes: Seq<Seq<i8>>) -> bool {
    &&& planes.len() == g.num_polynomials
    &&& forall|p: int| 0 <= p < planes.len() ==> #[trigger] planes[p].len() == g.live_blocks
        * block_coeff_len(g)
}

/// The digit sequences behind borrowed plane slices.
pub open spec fn plane_views(planes: Seq<&[i8]>) -> Seq<Seq<i8>> {
    planes.map_values(|p: &[i8]| p@)
}

/// Receiver of the canonical slice inputs, one call per slice.
///
/// An implementation keeps, in `handed`, every input it was handed so far,
/// in order; `accepts_all` says that it never refuses an input.
pub trait SliceInputSink: Sized {
    /// The inputs handed to this sink so far, in order.
    spec fn handed(&self) -> Vec<Vec<i8>>;

    /// The answers this sink gave so far, one per input, in order.
    spec fn answers(&self) -> Vec<Result<(), AkitaError>>;

    /// This sink accepts every input handed to it.
    spec fn accepts_all(&self) -> bool;

    /// Take the next slice input: it is appended to `handed` and the answer
    /// to `answers`, and a sink that accepts all inputs succeeds.
    fn consume(&mut self, input: &[i8]) -> (r: Result<(), AkitaError>)
        ensures
            final(self).handed()@.map_values(|v: Vec<i8>| v@) == old(self).handed()@.map_values(
                |v: Vec<i8>| v@,
            ).push(input@),
            final(self).answers()@ == old(self).answers()@.push(r),
            old(self).accepts_all() ==> r is Ok && final(self).accepts_all(),
    ;
}

/// The digit sequences of the inputs a sink was handed.
pub open spec fn handed_inputs<S: SliceInputSink>(sink: &S) -> Seq<Seq<i8>> {
    sink.handed()@.map_values(|v: Vec<i8>| v@)
}

/// `now` extends `before` by `n` answers, all of them successes.
pub open spec fn accepted_after(
    before: Seq<Result<(), AkitaError>>,
    now: Seq<Result<(), AkitaError>>,
    n: nat,
) -> bool {
    &&& now.len() == before.len() + n
    &&& now.take(before.len() as int) == before
    &&& forall|i: int| before.len() <= i < now.len() ==> #[trigger] now[i] is Ok
}

/// A sink that keeps a copy of every slice input and accepts them all.
pub struct SliceInputCollector {
    pub inputs: Vec<Vec<i8>>,
    pub answers: Vec<Result<(), AkitaError>>,
}

impl SliceInputCollector {
    pub fn new() -> (r: SliceInputCollector)
        ensures
            r.inputs@.len() == 0,
            r.answers@.len() == 0,
    {
        SliceInputCollector { inputs: Vec::new(), answers: Vec::new() }
    }
}

impl SliceInputSink for SliceInputCollector {
    open spec fn handed(&self) -> Vec<Vec<i8>> {
        self.inputs
    }

    open spec fn answers(&self) -> Vec<Result<(), AkitaError>> {
        self.answers
    }

    open spec fn accepts_all(&self) -> bool {
        true
    }

    fn consume(&mut self, input: &[i8]) -> (r: Result<(), AkitaError>) {
        let ghost before = self.inputs@.map_values(|v: Vec<i8>| v@);
        let copy = vstd::slice::slice_to_vec(input);
        self.inputs.push(copy);
        self.answers.push(Ok(()));
        proof {
            assert(self.inputs@.map_values(|v: Vec<i8>| v@) =~= before.push(input@));
        }
        Ok(())
    }
}

/// Each polynomial's share of a slice is exactly `max_blocks` blocks long.
proof fn lemma_part_len(g: CommitmentSliceGeometry, plane: Seq<i8>, s: int)
    requires
        g.wf(),
        0 <= s < g.num_slices(),
        plane.len() == g.live_blocks * block_coeff_len(g),
    ensures
        padded_slice_part(g, plane, s).len() == g.max_blocks * block_coeff_len(g),
        g.start_of(s) * block_coeff_len(g) <= g.end_of(s) * block_coeff_len(g) <= plane.len(),
{
    law_slices_partition_blocks(g, s);
    let bl = block_coeff_len(g);
    let a = g.start_of(s);
    let b = g.end_of(s);
    let m = g.max_blocks as int;
    assert(bl >= 1) by (nonlinear_arith)
        requires bl == g.per_block * g.ring_dim, g.per_block >= 1, g.ring_dim >= 1;
    assert(a * bl <= b * bl && b * bl <= g.live_blocks * bl) by (nonlinear_arith)
        requires 0 <= a <= b <= g.live_blocks, bl >= 1;
    assert(b * bl - a * bl + (m - (b - a)) * bl == m * bl) by (nonlinear_arith);
    assert((m - (b - a)) * bl >= 0) by (nonlinear_arith)
        requires b - a <= m, bl >= 1;
}

/// Every plane vector covers every live block of the geometry.
pub open spec fn plane_lengths_fit(g: CommitmentSliceGeometry, planes: Seq<Seq<i8>>) -> bool {
    forall|p: int| 0 <= p < planes.len() ==> #[trigger] planes[p].len() == g.live_blocks
        * block_coeff_len(g)
}

/// Check that there is at least one plane vector and that each one covers
/// every live block of the frozen geometry.
pub fn validate_slice_planes(
    polynomial_planes: &[&[i8]],
    geometry: &CommitmentSliceGeometry,
) -> (r: Result<(), AkitaError>)
    requires
        geometry.wf(),
    ensures
        r is Ok <==> polynomial_planes@.len() >= 1 && plane_lengths_fit(
            *geometry,
            plane_views(polynomial_planes@),
        ),
        r matches Err(e) ==> setup_error_reads(
            e,
            "B slice input does not match the frozen block geometry"@,
        ),
{
    let ghost g = *geometry;
    let ghost views = plane_views(polynomial_planes@);
    let per_block = geometry.ring_elements_per_block_per_polynomial();
    let d = geometry.ring_dim;
    let ranges = geometry.block_ranges();
    if ranges.len() == 0 {
        return Err(invalid_setup("B commitment has no slices"));
    }
    let num_live_blocks = ranges[ranges.len() - 1].end;
    proof {
        law_slices_partition_blocks(g, ranges.len() - 1);
        let last = ranges[ranges.len() - 1];
        assert(last.end == g.end_of(ranges.len() - 1));
        assert(num_live_blocks == g.live_blocks);
        assert(per_block * d >= per_block) by (nonlinear_arith)
            requires d >= 1, per_block >= 0;
        assert(g.live_blocks * per_block <= g.live_blocks * (per_block * d)) by (nonlinear_arith)
            requires per_block * d >= per_block, g.live_blocks >= 0;
    }
    let expected_planes = match num_live_blocks.checked_mul(per_block) {
        Some(v) => v,
        None => {
            return Err(invalid_setup("B slice plane count overflow"));
        },
    };
    proof {
        assert(expected_planes * d == g.live_blocks * (per_block * d)) by (nonlinear_arith)
            requires expected_planes == g.live_blocks * per_block;
    }
    let expected_len = expected_planes * d;
    let n = polynomial_planes.len();
    if n == 0 {
        return Err(invalid_setup("B slice input does not match the frozen block geometry"));
    }
    let mut i: usize = 0;
    while i < n
        invariant
            g == *geometry,
            n == polynomial_planes@.len(),
            views == plane_views(polynomial_planes@),
            i <= n,
            expected_len == g.live_blocks * block_coeff_len(g),
            forall|p: int| 0 <= p < i ==> #[trigger] views[p].len() == expected_len,
        decreases n - i,
    {
        if polynomial_planes[i].len() != expected_len {
            proof {
                assert(views[i as int] == polynomial_planes@[i as int]@);
                assert(views[i as int].len() != expected_len);
            }
            return Err(invalid_setup("B slice input does not match the frozen block geometry"));
        }
        i = i + 1;
    }
    Ok(())
}

/// Build the input of slice `s` into `input`: polynomial after polynomial,
/// the slice's block range followed by zero planes up to `max_blocks`
/// blocks. Fails when the plane vectors do not fill the physical width
/// exactly, that is when their count differs from the geometry's.
pub fn build_slice_input(
    polynomial_planes: &[&[i8]],
    geometry: &CommitmentSliceGeometry,
    s: usize,
    input: &mut Vec<i8>,
) -> (r: Result<(), AkitaError>)
    requires
        geometry.wf(),
        s < geometry.num_slices(),
        plane_lengths_fit(*geometry, plane_views(polynomial_planes@)),
    ensures
        r is Ok <==> polynomial_planes@.len() == geometry.num_polynomials,
        r is Ok ==> final(input)@ == slice_input(*geometry, plane_views(polynomial_planes@), s as int),
        r matches Err(e) ==> setup_error_reads(
            e,
            "B slice input width does not match the physical matrix"@,
        ),
{
    let ghost g = *geometry;
    let ghost views = plane_views(polynomial_planes@);
    let per_block = geometry.ring_elements_per_block_per_polynomial();
    let d = geometry.ring_dim;
    let n = polynomial_planes.len();
    proof {
        law_slices_partition_blocks(g, s as int);
        assert(per_block * d >= 1) by (nonlinear_arith)
            requires per_block >= 1, d >= 1;
        assert(per_block * d <= g.live_blocks * (per_block * d)) by (nonlinear_arith)
            requires g.live_blocks >= 1, per_block * d >= 0;
        assert(g.live_blocks >= 1) by (nonlinear_arith)
            requires g.live_blocks >= g.slice_count.count(), g.slice_count.count() >= 1;
    }
    let block_len = per_block * d;
    let max_blocks = geometry.max_blocks_per_slice();
    let expected_width = geometry.physical_input_width();
    let expected_width_len = expected_width * d;
    let start = geometry.live_blocks * s / geometry.slice_count.get();
    let end = geometry.live_blocks * (s + 1) / geometry.slice_count.get();
    proof {
        let l = g.live_blocks as int;
        let c = g.slice_count.count() as int;
        assert(l * (s + 1) <= l * c) by (nonlinear_arith)
            requires l >= 0, s + 1 <= c;
        assert(l * s <= l * (s + 1)) by (nonlinear_arith)
            requires l >= 0, s >= 0;
    }
    proof {
        assert(start == g.start_of(s as int) && end == g.end_of(s as int));
        assert(expected_width_len == g.num_polynomials * (g.max_blocks * block_coeff_len(g)))
            by (nonlinear_arith)
            requires
                expected_width_len == expected_width * d,
                expected_width == g.num_polynomials * g.max_blocks * g.per_block,
                block_coeff_len(g) == g.per_block * g.ring_dim,
                d == g.ring_dim;
        assert(g.max_blocks * block_coeff_len(g) >= 1) by (nonlinear_arith)
            requires g.max_blocks >= 1, block_coeff_len(g) >= 1;
        assert(end * block_len <= g.live_blocks * block_len) by (nonlinear_arith)
            requires end <= g.live_blocks, block_len >= 1;
        assert(start * block_len <= end * block_len) by (nonlinear_arith)
            requires start <= end, block_len >= 1;
        assert((max_blocks - (end - start)) * block_len <= max_blocks * block_len)
            by (nonlinear_arith)
            requires end - start >= 0, max_blocks - (end - start) >= 0, block_len >= 1;
        assert(max_blocks * block_len <= expected_width_len) by (nonlinear_arith)
            requires
                expected_width_len == g.num_polynomials * (max_blocks * block_len),
                g.num_polynomials >= 1,
                max_blocks * block_len >= 1;
    }
    let ghost unit = g.max_blocks * block_coeff_len(g);
    input.clear();
    let plane_start = match start.checked_mul(block_len) {
        Some(v) => v,
        None => {
            return Err(invalid_setup("B slice input offset overflow"));
        },
    };
    let plane_end = match end.checked_mul(block_len) {
        Some(v) => v,
        None => {
            return Err(invalid_setup("B slice input offset overflow"));
        },
    };
    let mut k: usize = 0;
    while k < n
        invariant
            g == *geometry,
            g.wf(),
            views == plane_views(polynomial_planes@),
            n == polynomial_planes@.len(),
            0 <= s < g.num_slices(),
            start == g.start_of(s as int),
            end == g.end_of(s as int),
            0 <= start <= end <= g.live_blocks,
            end - start <= max_blocks,
            plane_start == start * block_len,
            plane_end == end * block_len,
            plane_start <= plane_end,
            plane_end <= g.live_blocks * block_coeff_len(g),
            plane_lengths_fit(g, views),
            block_len == block_coeff_len(g),
            max_blocks == g.max_blocks,
            unit == g.max_blocks * block_coeff_len(g),
            unit >= 1,
            block_len >= 1,
            expected_width_len == g.num_polynomials * unit,
            unit <= usize::MAX,
            (max_blocks - (end - start)) * block_len <= unit,
            k <= n,
            k <= g.num_polynomials,
            input@ == slice_input_prefix(g, views, s as int, k as int),
            input@.len() == k * unit,
        decreases n - k,
    {
        let plane = polynomial_planes[k];
        proof {
            assert(views[k as int] == plane@);
            assert(plane_end <= plane@.len());
        }
        if plane_end > plane.len() {
            return Err(invalid_setup("B slice input does not match the frozen block geometry"));
        }
        let ghost before = input@;
        input.extend_from_slice(&plane[plane_start..plane_end]);
        let ghost mid = input@;
        proof {
            let seg = plane@.subrange(plane_start as int, plane_end as int);
            assert forall|j: int| 0 <= j < mid.len() implies #[trigger] mid[j] == (before + seg)[j] by {
                if j >= before.len() {
                    assert(mid[j] == seg[j - before.len()]);
                }
            }
            assert(mid =~= before + seg);
        }
        let padding = match (max_blocks - (end - start)).checked_mul(block_len) {
            Some(v) => v,
            None => {
                return Err(invalid_setup("B slice padding overflow"));
            },
        };
        proof {
            lemma_part_len(g, views[k as int], s as int);
            assert(input@.len() == k * unit + (end * block_len - start * block_len));
            assert(k * unit + (end * block_len - start * block_len) + padding == (k + 1) * unit)
                by (nonlinear_arith)
                requires
                    padding == (max_blocks - (end - start)) * block_len,
                    unit == max_blocks * block_len;
            assert((k + 1) * unit <= expected_width_len <==> k + 1 <= g.num_polynomials)
                by (nonlinear_arith)
                requires expected_width_len == g.num_polynomials * unit, unit >= 1;
        }
        let padded_len = match input.len().checked_add(padding) {
            Some(len) => {
                if len <= expected_width_len {
                    len
                } else {
                    return Err(
                        invalid_setup("B slice input width does not match the physical matrix"),
                    );
                }
            },
            None => {
                return Err(invalid_setup("B slice input width does not match the physical matrix"));
            },
        };
        input.resize(padded_len, 0i8);
        proof {
            let part = padded_slice_part(g, views[k as int], s as int);
            let seg = plane@.subrange(plane_start as int, plane_end as int);
            assert(part == seg + zero_digits(padding as nat));
            assert(input@.subrange(0, mid.len() as int) == mid);
            assert forall|j: int| 0 <= j < input@.len() implies #[trigger] input@[j] == (mid
                + zero_digits(padding as nat))[j] by {
                if j < mid.len() {
                    assert(input@[j] == input@.subrange(0, mid.len() as int)[j]);
                } else {
                    assert(input@[j] == 0i8);
                }
            }
            assert(before + seg + zero_digits(padding as nat) =~= mid + zero_digits(
                padding as nat,
            ));
            assert(input@ =~= before + part);
            assert(slice_input_prefix(g, views, s as int, k + 1) == before + part);
        }
        k = k + 1;
    }
    if input.len() != expected_width_len {
        proof {
            assert(n * unit != g.num_polynomials * unit);
        }
        return Err(invalid_setup("B slice input width does not match the physical matrix"));
    }
    proof {
        assert(n == g.num_polynomials) by (nonlinear_arith)
            requires n * unit == g.num_polynomials * unit, unit >= 1;
    }
    Ok(())
}

/// Validate one committed group's per-polynomial plane counts, then stream
/// its canonical B slices through one reusable physical-width buffer.
///
/// Every slice input is handed to the sink in slice order. A plane count
/// or width that disagrees with the geometry is refused before anything
/// reaches the sink; when the sink refuses a slice, no later slice is
/// handed to it.
pub fn for_each_outer_slice_input<S: SliceInputSink>(
    polynomial_planes: &[&[i8]],
    geometry: &CommitmentSliceGeometry,
    sink: &mut S,
) -> (r: Result<(), AkitaError>)
    requires
        geometry.wf(),
    ensures
        !planes_fit(*geometry, plane_views(polynomial_planes@)) ==> fails_with(
            r,
            planes_error(*geometry, plane_views(polynomial_planes@)),
        ) && handed_inputs(final(sink)) == handed_inputs(old(sink)) && final(sink).answers()@
            == old(sink).answers()@,
        r is Ok ==> planes_fit(*geometry, plane_views(polynomial_planes@)) && handed_inputs(
            final(sink),
        ) == handed_inputs(old(sink)) + slice_inputs(
            *geometry,
            plane_views(polynomial_planes@),
        ) && accepted_after(old(sink).answers()@, final(sink).answers()@, geometry.num_slices()),
        r is Err && planes_fit(*geometry, plane_views(polynomial_planes@)) ==> exists|k: int|
            1 <= k <= geometry.num_slices() && handed_inputs(final(sink)) == handed_inputs(
                old(sink),
            ) + #[trigger] slice_inputs(*geometry, plane_views(polynomial_planes@)).take(k)
                && accepted_after(
                old(sink).answers()@,
                final(sink).answers()@.drop_last(),
                (k - 1) as nat,
            ) && final(sink).answers()@.len() > 0 && final(sink).answers()@.last() == r,
        planes_fit(*geometry, plane_views(polynomial_planes@)) && old(sink).accepts_all()
            ==> r is Ok,
{
    let ghost views = plane_views(polynomial_planes@);
    let ghost start = handed_inputs(sink);
    let ghost answers0 = sink.answers()@;
    let ghost accepts = sink.accepts_all();
    validate_slice_planes(polynomial_planes, geometry)?;
    let count = geometry.slice_count.get();
    let mut input: Vec<i8> = Vec::with_capacity(geometry.physical_width * geometry.ring_dim);
    let mut s: usize = 0;
    proof {
        assert(start + slice_inputs(*geometry, views).take(0) =~= start);
        assert(answers0.take(answers0.len() as int) =~= answers0);
    }
    while s < count
        invariant
            geometry.wf(),
            count == geometry.num_slices(),
            views == plane_views(polynomial_planes@),
            polynomial_planes@.len() >= 1,
            plane_lengths_fit(*geometry, views),
            s <= count,
            s > 0 ==> polynomial_planes@.len() == geometry.num_polynomials,
            handed_inputs(sink) == start + slice_inputs(*geometry, views).take(s as int),
            accepts ==> sink.accepts_all(),
            start == handed_inputs(old(sink)),
            accepts == old(sink).accepts_all(),
            answers0 == old(sink).answers()@,
            accepted_after(answers0, sink.answers()@, s as nat),
        decreases count - s,
    {
        match build_slice_input(polynomial_planes, geometry, s, &mut input) {
            Ok(()) => {},
            Err(e) => {
                proof {
                    assert(!planes_fit(*geometry, views));
                    assert(s == 0);
                    assert(start + slice_inputs(*geometry, views).take(0) =~= start);
                    assert(sink.answers()@.take(answers0.len() as int) =~= answers0);
                }
                return Err(e);
            },
        }
        let ghost prev_answers = sink.answers()@;
        let consumed = sink.consume(input.as_slice());
        proof {
            assert(slice_inputs(*geometry, views).take(s + 1) =~= slice_inputs(
                *geometry,
                views,
            ).take(s as int).push(input@));
            assert(handed_inputs(sink) =~= start + slice_inputs(*geometry, views).take(s + 1));
        }
        let ghost gconsumed = consumed;
        match consumed {
            Ok(()) => {},
            Err(e) => {
                proof {
                    assert(views.len() == geometry.num_polynomials);
                    assert(1 <= s + 1 <= geometry.num_slices());
                    assert(gconsumed == Err::<(), AkitaError>(e));
                    assert(sink.answers()@.drop_last() =~= prev_answers);
                }
                return Err(e);
            },
        }
        proof {
            assert(gconsumed is Ok);
            assert(sink.answers()@.take(answers0.len() as int) =~= prev_answers.take(
                answers0.len() as int,
            ));
        }
        s = s + 1;
    }
    proof {
        assert(slice_inputs(*geometry, views).take(count as int) =~= slice_inputs(*geometry, views));
        assert(views.len() == geometry.num_polynomials);
    }
    Ok(())
}

/// The rejection message of planes that do not fit the geometry: missing
/// or short plane vectors, or a count that does not fill the physical
/// width.
pub open spec fn planes_error(g: CommitmentSliceGeometry, planes: Seq<Seq<i8>>) -> Seq<char> {
    if planes.len() == 0 || !plane_lengths_fit(g, planes) {
        "B slice input does not match the frozen block geometry"@
    } else {
        "B slice input width does not match the physical matrix"@
    }
}

/// One source's digit blocks match the slice geometry: one block per live
/// block, `per_block` planes per block, planes of the outer ring dimension.
pub open spec fn digits_match(g: CommitmentSliceGeometry, digits: DigitBlocks) -> bool {
    &&& digits.block_sizes.len() == g.live_blocks
    &&& forall|b: int| 0 <= b < digits.block_sizes.len() ==> #[trigger] digits.block_sizes[b]
        == g.per_block
    &&& digits.ring_dim == g.ring_dim
}

/// One source's digit blocks have one block per live block and
/// `per_block` planes per block.
pub open spec fn digit_shape_ok(g: CommitmentSliceGeometry, digits: DigitBlocks) -> bool {
    &&& digits.block_sizes.len() == g.live_blocks
    &&& forall|b: int| 0 <= b < digits.block_sizes.len() ==> #[trigger] digits.block_sizes[b]
        == g.per_block
}

/// Every source's digit blocks match the geometry.
pub open spec fn all_digits_match(g: CommitmentSliceGeometry, digits: Seq<&DigitBlocks>) -> bool {
    forall|i: int| 0 <= i < digits.len() ==> digits_match(g, *#[trigger] digits[i])
}

/// The rejection message for the first source whose digit blocks do not
/// match the geometry.
pub open spec fn digits_error(g: CommitmentSliceGeometry, digits: Seq<&DigitBlocks>) -> Seq<char>
    decreases digits.len(),
{
    if digits.len() == 0 {
        Seq::empty()
    } else if !all_digits_match(g, digits.drop_last()) {
        digits_error(g, digits.drop_last())
    } else if !digit_shape_ok(g, *digits.last()) {
        "B slice input does not match the frozen block geometry"@
    } else {
        "digit planes have the wrong ring dimension"@
    }
}

/// The rejection message of sources whose digits do not fit the slice
/// geometry: the first mismatching source's, otherwise that of their
/// plane vectors.
pub open spec fn outer_digits_error(g: CommitmentSliceGeometry, digits: Seq<&DigitBlocks>) -> Seq<
    char,
> {
    if !all_digits_match(g, digits) {
        digits_error(g, digits)
    } else {
        planes_error(g, digit_views(digits))
    }
}

/// The message for a first mismatch at source `i`.
proof fn lemma_digits_error_at(g: CommitmentSliceGeometry, digits: Seq<&DigitBlocks>, i: int)
    requires
        0 <= i < digits.len(),
        forall|j: int| 0 <= j < i ==> digits_match(g, *#[trigger] digits[j]),
        !digits_match(g, *digits[i]),
    ensures
        digits_error(g, digits) == if !digit_shape_ok(g, *digits[i]) {
            "B slice input does not match the frozen block geometry"@
        } else {
            "digit planes have the wrong ring dimension"@
        },
    decreases digits.len(),
{
    let rest = digits.drop_last();
    if digits.len() > i + 1 {
        assert(!all_digits_match(g, rest)) by {
            assert(rest[i] == digits[i]);
        }
        lemma_digits_error_at(g, rest, i);
        assert(rest[i] == digits[i]);
    } else {
        assert(all_digits_match(g, rest)) by {
            assert forall|j: int| 0 <= j < rest.len() implies digits_match(g, *#[trigger] rest[j]) by {
                assert(rest[j] == digits[j]);
            }
        }
    }
}

/// The digit vectors of the given sources.
pub open spec fn digit_views(digits: Seq<&DigitBlocks>) -> Seq<Seq<i8>> {
    digits.map_values(|d: &DigitBlocks| d.digits@)
}

/// Check every source's digit blocks against the slice geometry and view
/// them as outer-ring digit planes.
pub fn validate_outer_slice_digits<'a>(
    polynomial_digits: &[&'a DigitBlocks],
    geometry: &CommitmentSliceGeometry,
) -> (r: Result<Vec<&'a [i8]>, AkitaError>)
    requires
        geometry.wf(),
    ensures
        r is Ok <==> forall|i: int|
            0 <= i < polynomial_digits@.len() ==> digits_match(*geometry, *#[trigger] polynomial_digits@[i]),
        r matches Ok(planes) ==> plane_views(planes@) == digit_views(polynomial_digits@),
        r matches Err(e) ==> setup_error_reads(e, digits_error(*geometry, polynomial_digits@)),
{
    let per_block = geometry.ring_elements_per_block_per_polynomial();
    let ranges = geometry.block_ranges();
    if ranges.len() == 0 {
        return Err(invalid_setup("B commitment has no slices"));
    }
    let num_live_blocks = ranges[ranges.len() - 1].end;
    proof {
        law_slices_partition_blocks(*geometry, ranges.len() - 1);
        let last = ranges[ranges.len() - 1];
        assert(last.end == geometry.end_of(ranges.len() - 1));
    }
    let mut planes: Vec<&'a [i8]> = Vec::new();
    let mut i: usize = 0;
    while i < polynomial_digits.len()
        invariant
            geometry.wf(),
            per_block == geometry.per_block,
            num_live_blocks == geometry.live_blocks,
            i <= polynomial_digits@.len(),
            planes@.len() == i,
            forall|j: int| 0 <= j < i ==> digits_match(*geometry, *#[trigger] polynomial_digits@[j]),
            forall|j: int| 0 <= j < i ==> (#[trigger] planes@[j])@ == polynomial_digits@[j].digits@,
        decreases polynomial_digits@.len() - i,
    {
        let digits = polynomial_digits[i];
        if digits.block_count() != num_live_blocks {
            proof {
                assert(!digits_match(*geometry, *polynomial_digits@[i as int]));
                lemma_digits_error_at(*geometry, polynomial_digits@, i as int);
            }
            return Err(invalid_setup("B slice input does not match the frozen block geometry"));
        }
        let sizes = digits.block_sizes();
        let mut b: usize = 0;
        while b < sizes.len()
            invariant
                i < polynomial_digits@.len(),
                digits == polynomial_digits@[i as int],
                per_block == geometry.per_block,
                sizes@ == digits.block_sizes@,
                b <= sizes@.len(),
                forall|c: int| 0 <= c < b ==> #[trigger] sizes@[c] == per_block,
                forall|j: int| 0 <= j < i ==> digits_match(*geometry, *#[trigger] polynomial_digits@[j]),
            decreases sizes@.len() - b,
        {
            if sizes[b] != per_block {
                proof {
                    assert(digits.block_sizes@[b as int] != geometry.per_block);
                    assert(!digits_match(*geometry, *polynomial_digits@[i as int]));
                    lemma_digits_error_at(*geometry, polynomial_digits@, i as int);
                }
                return Err(invalid_setup("B slice input does not match the frozen block geometry"));
            }
            b = b + 1;
        }
        let typed = match digits.typed_planes(geometry.ring_dim) {
            Ok(t) => t,
            Err(e) => {
                proof {
                    assert(!digits_match(*geometry, *polynomial_digits@[i as int]));
                    lemma_digits_error_at(*geometry, polynomial_digits@, i as int);
                }
                return Err(e);
            },
        };
        planes.push(typed);
        i = i + 1;
    }
    proof {
        assert(plane_views(planes@) =~= digit_views(polynomial_digits@));
    }
    Ok(planes)
}

/// The canonical slice inputs of a committed group, one per slice.
pub fn outer_slice_inputs(
    polynomial_digits: &[&DigitBlocks],
    geometry: &CommitmentSliceGeometry,
) -> (r: Result<Vec<Vec<i8>>, AkitaError>)
    requires
        geometry.wf(),
    ensures
        r is Ok <==> (forall|i: int|
            0 <= i < polynomial_digits@.len() ==> digits_match(*geometry, *#[trigger] polynomial_digits@[i]))
            && planes_fit(*geometry, digit_views(polynomial_digits@)),
        r matches Ok(inputs) ==> inputs@.map_values(|v: Vec<i8>| v@) == slice_inputs(
            *geometry,
            digit_views(polynomial_digits@),
        ),
        r matches Err(e) ==> setup_error_reads(
            e,
            outer_digits_error(*geometry, polynomial_digits@),
        ),
{
    let polynomial_planes = validate_outer_slice_digits(polynomial_digits, geometry)?;
    let mut collector = SliceInputCollector::new();
    proof {
        assert(handed_inputs(&collector) =~= Seq::<Seq<i8>>::empty());
    }
    match for_each_outer_slice_input(polynomial_planes.as_slice(), geometry, &mut collector) {
        Ok(()) => {},
        Err(e) => {
            proof {
                assert(plane_views(polynomial_planes@) == digit_views(polynomial_digits@));
                assert(!planes_fit(*geometry, digit_views(polynomial_digits@)));
            }
            return Err(e);
        },
    }
    proof {
        assert(Seq::<Seq<i8>>::empty() + slice_inputs(*geometry, digit_views(polynomial_digits@))
            =~= slice_inputs(*geometry, digit_views(polynomial_digits@)));
    }
    Ok(collector.inputs)
}

/// The number of ring elements in each batch.
pub open spec fn batch_lens(batches: Seq<Vec<Vec<u64>>>) -> Seq<usize> {
    batches.map_values(|b: Vec<Vec<u64>>| b.len())
}

/// The ring elements of each batch returned by a backend.
pub open spec fn batch_views(batches: Seq<Vec<Vec<u64>>>) -> Seq<Seq<Seq<u64>>> {
    batches.map_values(|b: Vec<Vec<u64>>| b@.map_values(|r: Vec<u64>| r@))
}

/// The backend returned one batch per input, each of `n_b` ring elements of
/// dimension `ring_dim`.
pub open spec fn row_batches_ok(
    batches: Seq<Seq<Seq<u64>>>,
    expected_batches: nat,
    n_b: nat,
    ring_dim: nat,
) -> bool {
    &&& batches.len() == expected_batches
    &&& forall|i: int| 0 <= i < batches.len() ==> #[trigger] batches[i].len() == n_b
    &&& forall|i: int, j: int|
        0 <= i < batches.len() && 0 <= j < batches[i].len() ==> #[trigger] batches[i][j].len()
            == ring_dim
}

/// Check the shape of the backend's B row batches and stack them, batch
/// after batch.
pub fn stack_outer_rows(
    row_batches: Vec<Vec<Vec<u64>>>,
    expected_batches: usize,
    n_b: usize,
    ring_dim: usize,
) -> (r: Result<Vec<Vec<u64>>, AkitaError>)
    ensures
        r is Ok <==> row_batches_ok(
            batch_views(row_batches@),
            expected_batches as nat,
            n_b as nat,
            ring_dim as nat,
        ),
        r matches Ok(rows) ==> rows@.map_values(|v: Vec<u64>| v@) == batch_views(
            row_batches@,
        ).flatten(),
        r matches Err(e) ==> b_row_shape_reads(
            e,
            batch_lens(row_batches@),
            expected_batches,
            n_b,
        ),
{
    let ghost views = batch_views(row_batches@);
    let mut shape_ok = row_batches.len() == expected_batches;
    let mut lens: Vec<usize> = Vec::new();
    let mut i: usize = 0;
    while i < row_batches.len()
        invariant
            views == batch_views(row_batches@),
            i <= row_batches.len(),
            lens@.len() == i,
            lens@ == batch_lens(row_batches@).take(i as int),
            shape_ok <==> (row_batches.len() == expected_batches && forall|k: int|
                0 <= k < i ==> #[trigger] views[k].len() == n_b && forall|j: int|
                    0 <= j < views[k].len() ==> #[trigger] views[k][j].len() == ring_dim),
        decreases row_batches.len() - i,
    {
        let batch = &row_batches[i];
        lens.push(batch.len());
        let mut batch_ok = batch.len() == n_b;
        let mut j: usize = 0;
        while j < batch.len()
            invariant
                views == batch_views(row_batches@),
                i < row_batches.len(),
                *batch == row_batches@[i as int],
                j <= batch.len(),
                batch_ok <==> (batch.len() == n_b && forall|jj: int|
                    0 <= jj < j ==> #[trigger] views[i as int][jj].len() == ring_dim),
            decreases batch.len() - j,
        {
            proof {
                assert(views[i as int][j as int] == batch@[j as int]@);
            }
            if batch[j].len() != ring_dim {
                batch_ok = false;
            }
            j = j + 1;
        }
        proof {
            assert(views[i as int].len() == batch.len());
        }
        shape_ok = shape_ok && batch_ok;
        i = i + 1;
    }
    proof {
        assert(batch_lens(row_batches@).take(row_batches.len() as int) =~= batch_lens(row_batches@));
    }
    if !shape_ok {
        proof {
            if row_batches_ok(views, expected_batches as nat, n_b as nat, ring_dim as nat) {
                assert forall|k: int|
                    0 <= k < row_batches.len() implies #[trigger] views[k].len() == n_b && forall|
                    j: int,
                | 0 <= j < views[k].len() ==> #[trigger] views[k][j].len() == ring_dim by {}
            }
        }
        return Err(b_row_shape_error(&lens, expected_batches, n_b));
    }
    let mut stacked: Vec<Vec<u64>> = Vec::new();
    let mut b: usize = 0;
    while b < row_batches.len()
        invariant
            views == batch_views(row_batches@),
            b <= row_batches.len(),
            stacked@.map_values(|v: Vec<u64>| v@) == views.take(b as int).flatten(),
        decreases row_batches.len() - b,
    {
        let ghost before = stacked@.map_values(|v: Vec<u64>| v@);
        let mut j: usize = 0;
        while j < row_batches[b].len()
            invariant
                views == batch_views(row_batches@),
                b < row_batches.len(),
                j <= row_batches[b as int].len(),
                stacked@.map_values(|v: Vec<u64>| v@) == before + views[b as int].take(j as int),
            decreases row_batches[b as int].len() - j,
        {
            let row = row_batches[b][j].clone();
            proof {
                assert(row@ =~= row_batches[b as int][j as int]@);
            }
            let ghost old_map = stacked@.map_values(|v: Vec<u64>| v@);
            stacked.push(row);
            proof {
                assert(stacked@.map_values(|v: Vec<u64>| v@) =~= old_map.push(row@));
                assert(views[b as int].take(j + 1) =~= views[b as int].take(j as int).push(
                    views[b as int][j as int],
                ));
                assert(views[b as int][j as int] == row_batches[b as int][j as int]@);
                assert(stacked@.map_values(|v: Vec<u64>| v@) =~= before + views[b as int].take(
                    j + 1,
                ));
            }
            j = j + 1;
        }
        proof {
            assert(views[b as int].take(j as int) =~= views[b as int]);
            assert(views.take(b + 1) =~= views.take(b as int).push(views[b as int]));
            views.take(b as int).lemma_flatten_push(views[b as int]);
        }
        b = b + 1;
    }
    proof {
        assert(views.take(b as int) =~= views);
    }
    Ok(stacked)
}

/// Stacking batches of `n_b` ring elements of dimension `d` gives
/// `batches * n_b` ring elements of dimension `d`.
proof fn lemma_flatten_uniform(batches: Seq<Seq<Seq<u64>>>, n_b: nat, d: nat)
    requires
        forall|i: int| 0 <= i < batches.len() ==> #[trigger] batches[i].len() == n_b,
        forall|i: int, j: int|
            0 <= i < batches.len() && 0 <= j < batches[i].len() ==> #[trigger] batches[i][j].len()
                == d,
    ensures
        batches.flatten().len() == batches.len() * n_b,
        forall|k: int| 0 <= k < batches.flatten().len() ==> #[trigger] batches.flatten()[k].len() == d,
    decreases batches.len(),
{
    if batches.len() > 0 {
        let rest = batches.drop_first();
        assert forall|i: int| 0 <= i < rest.len() implies #[trigger] rest[i].len() == n_b by {
            assert(rest[i] == batches[i + 1]);
        }
        assert forall|i: int, j: int|
            0 <= i < rest.len() && 0 <= j < rest[i].len() implies #[trigger] rest[i][j].len()
                == d by {
            assert(rest[i] == batches[i + 1]);
        }
        lemma_flatten_uniform(rest, n_b, d);
        assert(batches.flatten() == batches.first() + rest.flatten());
        assert(batches.len() * n_b == n_b + rest.len() * n_b) by (nonlinear_arith)
            requires rest.len() == batches.len() - 1;
        assert forall|k: int| 0 <= k < batches.flatten().len() implies #[trigger] batches.flatten()[
            k].len() == d by {
            if k < n_b {
                assert(batches.flatten()[k] == batches[0][k]);
            } else {
                assert(batches.flatten()[k] == rest.flatten()[k - n_b]);
            }
        }
    }
}

/// What stacking a backend answer gives: the backend's error as it came;
/// for well-shaped batches, the batches' rows one after another; otherwise
/// an `InvalidSetup` rejection.
pub open spec fn stacks_backend_rows(
    r: Result<Vec<Vec<u64>>, AkitaError>,
    answer: Result<Vec<Vec<Vec<u64>>>, AkitaError>,
    expected_batches: nat,
    n_b: nat,
    ring_dim: nat,
) -> bool {
    match answer {
        Err(e) => r == Err::<Vec<Vec<u64>>, AkitaError>(e),
        Ok(batches) => if row_batches_ok(batch_views(batches@), expected_batches, n_b, ring_dim) {
            r matches Ok(rows) && rows@.map_values(|v: Vec<u64>| v@) == batch_views(
                batches@,
            ).flatten()
        } else {
            r matches Err(e) && b_row_shape_reads(e, batch_lens(batches@), expected_batches as usize, n_b as usize)
        },
    }
}

/// The sources' digit blocks all match the slice geometry and cover it.
pub open spec fn outer_digits_fit(g: CommitmentSliceGeometry, digits: Seq<&DigitBlocks>) -> bool {
    &&& forall|i: int| 0 <= i < digits.len() ==> digits_match(g, *#[trigger] digits[i])
    &&& planes_fit(g, digit_views(digits))
}

/// Apply one physical B matrix to every canonical slice and stack the
/// images: one batch of `n_b` outer ring elements per slice.
///
/// The backend is handed exactly the canonical slice inputs of the
/// sources' digit planes, in slice order, and its batches are stacked in
/// that order.
pub fn commit_outer_slices<B: DigitRowsComputeBackend>(
    backend: &B,
    prepared: &B::PreparedSetup,
    n_b: usize,
    polynomial_digits: &[&DigitBlocks],
    geometry: &CommitmentSliceGeometry,
    log_basis: u32,
) -> (r: Result<Vec<Vec<u64>>, AkitaError>)
    requires
        geometry.wf(),
    ensures
        !outer_digits_fit(*geometry, polynomial_digits@) ==> fails_with(
            r,
            outer_digits_error(*geometry, polynomial_digits@),
        ),
        outer_digits_fit(*geometry, polynomial_digits@) ==> exists|ins: &[&[i8]]|
            plane_views(ins@) == slice_inputs(*geometry, digit_views(polynomial_digits@))
                && stacks_backend_rows(
                r,
                #[trigger] backend.rows_for(prepared, n_b, ins, log_basis, geometry.ring_dim),
                geometry.num_slices(),
                n_b as nat,
                geometry.ring_dim as nat,
            ),
        r matches Ok(rows) ==> rows.len() == geometry.num_slices() * n_b && forall|i: int|
            0 <= i < rows.len() ==> #[trigger] rows[i].len() == geometry.ring_dim,
{
    let inputs = outer_slice_inputs(polynomial_digits, geometry)?;
    let mut input_refs: Vec<&[i8]> = Vec::new();
    let mut i: usize = 0;
    while i < inputs.len()
        invariant
            i <= inputs.len(),
            input_refs@.len() == i,
            forall|j: int| 0 <= j < i ==> (#[trigger] input_refs@[j])@ == inputs@[j]@,
        decreases inputs.len() - i,
    {
        input_refs.push(inputs[i].as_slice());
        i = i + 1;
    }
    let refs = input_refs.as_slice();
    let ghost gslices = slice_inputs(*geometry, digit_views(polynomial_digits@));
    proof {
        assert(inputs@.map_values(|v: Vec<i8>| v@) == gslices);
        assert(plane_views(refs@) =~= gslices) by {
            assert forall|j: int| 0 <= j < refs@.len() implies #[trigger] plane_views(refs@)[j]
                == gslices[j] by {
                assert(inputs@.map_values(|v: Vec<i8>| v@)[j] == inputs@[j]@);
            }
        }
    }
    let answer = backend.digit_rows(prepared, n_b, refs, log_basis, geometry.ring_dim);
    let ghost ganswer = answer;
    let row_batches = match answer {
        Ok(b) => b,
        Err(e) => {
            proof {
                assert(stacks_backend_rows(
                    Err(e),
                    backend.rows_for(prepared, n_b, refs, log_basis, geometry.ring_dim),
                    geometry.num_slices(),
                    n_b as nat,
                    geometry.ring_dim as nat,
                ));
            }
            return Err(e);
        },
    };
    let ghost views = batch_views(row_batches@);
    let stacked = match stack_outer_rows(row_batches, input_refs.len(), n_b, geometry.ring_dim) {
        Ok(rows) => rows,
        Err(e) => {
            proof {
                assert(input_refs.len() == geometry.num_slices());
                assert(stacks_backend_rows(
                    Err(e),
                    backend.rows_for(prepared, n_b, refs, log_basis, geometry.ring_dim),
                    geometry.num_slices(),
                    n_b as nat,
                    geometry.ring_dim as nat,
                ));
            }
            return Err(e);
        },
    };
    proof {
        assert(inputs@.map_values(|v: Vec<i8>| v@).len() == geometry.num_slices());
        lemma_flatten_uniform(views, n_b as nat, geometry.ring_dim as nat);
        assert(stacked@.map_values(|v: Vec<u64>| v@).len() == stacked@.len());
        assert(views.len() == geometry.num_slices());
        assert(stacked@.len() == geometry.num_slices() * n_b);
        assert(stacked.len() <= usize::MAX);
        assert(geometry.slice_count.count() * n_b <= usize::MAX);
    }
    let _capacity = geometry.logical_output_rows(n_b)?;
    proof {
        assert forall|i: int| 0 <= i < stacked.len() implies #[trigger] stacked[i].len()
            == geometry.ring_dim by {
            assert(stacked@.map_values(|v: Vec<u64>| v@)[i] == stacked[i]@);
        }
        assert(stacks_backend_rows(
            Ok(stacked),
            backend.rows_for(prepared, n_b, refs, log_basis, geometry.ring_dim),
            geometry.num_slices(),
            n_b as nat,
            geometry.ring_dim as nat,
        ));
    }
    Ok(stacked)
}

/// Persistent inner rows of the given witnesses, in order.
pub open spec fn witness_rows(inners: Seq<CommitInnerWitness>) -> Seq<RingVec> {
    inners.map_values(|w: CommitInnerWitness| w.inner_rows)
}

/// The `n_a` rows of each of the first `num_live_blocks` blocks of a
/// witness, as ring elements.
pub open spec fn witness_blocks(w: CommitInnerWitness, num_live_blocks: nat, n_a: nat) -> Seq<
    Seq<Seq<u64>>,
> {
    let d = w.inner_rows.ring_dim as int;
    Seq::new(
        num_live_blocks,
        |b: int|
            Seq::new(
                n_a,
                |j: int| w.inner_rows.coeffs@.subrange((b * n_a + j) * d, (b * n_a + j + 1) * d),
            ),
    )
}

/// The blocks the outer stage reads from a witness are its block rows in
/// their own order: for a witness holding per-block rows (as
/// `CommitInnerWitness::from_rows` builds it), block `b` read back is block
/// `b` of the rows, row after row, for every block.
pub proof fn law_witness_blocks_are_its_rows(
    w: CommitInnerWitness,
    rows: Seq<Vec<Vec<u64>>>,
    n_a: nat,
)
    requires
        w.inner_rows.coeffs@ == block_rows_coeffs(rows),
        forall|b: int| 0 <= b < rows.len() ==> #[trigger] rows[b].len() == n_a,
        forall|b: int, j: int|
            0 <= b < rows.len() && 0 <= j < rows[b].len() ==> #[trigger] rows[b][j].len()
                == w.inner_rows.ring_dim,
    ensures
        witness_blocks(w, rows.len(), n_a) == rows_view(rows),
{
    let d = w.inner_rows.ring_dim as nat;
    let bv = rows_view(rows);
    let blocks = bv.map_values(|blk: Seq<Seq<u64>>| flatten_rings(blk));
    let c = w.inner_rows.coeffs@;
    let l = n_a * d;
    assert forall|b: int| 0 <= b < rows.len() implies #[trigger] all_have_dim(bv[b], d) by {
        assert(bv[b].len() == rows[b].len());
        assert forall|j: int| 0 <= j < bv[b].len() implies #[trigger] bv[b][j].len() == d by {
            assert(bv[b][j] == rows[b][j]@);
            assert(rows[b][j].len() == w.inner_rows.ring_dim);
        }
    }
    assert forall|b: int| 0 <= b < blocks.len() implies #[trigger] blocks[b].len() == l by {
        assert(all_have_dim(bv[b], d));
        assert(blocks[b] == flatten_rings(bv[b]));
        assert(bv[b].len() == rows[b].len());
        lemma_flatten_len(bv[b], d);
    }
    assert(c == flatten_rings(blocks));
    lemma_flatten_len(blocks, l);
    let wb = witness_blocks(w, rows.len(), n_a);
    assert forall|b: int| 0 <= b < rows.len() implies #[trigger] wb[b] == bv[b] by {
        lemma_flatten_piece(blocks, l, b);
        assert(all_have_dim(bv[b], d));
        assert(bv[b].len() == rows[b].len());
        assert(b * l + l <= rows.len() * l) by (nonlinear_arith)
            requires 0 <= b < rows.len();
        assert forall|j: int| 0 <= j < n_a implies #[trigger] wb[b][j] == bv[b][j] by {
            lemma_flatten_piece(bv[b], d, j);
            assert((b * n_a + j) * d == b * l + j * d && (b * n_a + j + 1) * d == b * l + j * d + d
                && 0 <= j * d && j * d + d <= l && 0 <= b * l) by (nonlinear_arith)
                requires l == n_a * d, 0 <= j < n_a, 0 <= b;
            assert(wb[b][j] =~= c.subrange(b * l, b * l + l).subrange(j * d, j * d + d));
        }
        assert(wb[b] =~= bv[b]);
    }
    assert(wb =~= bv);
}

/// Every witness's block rows have the B-role decomposition.
pub open spec fn witnesses_decompose(
    inners: Seq<CommitInnerWitness>,
    num_live_blocks: nat,
    n_a: nat,
    num_digits: nat,
    log_basis: nat,
    q: u64,
    d_a: nat,
    d_b: nat,
) -> bool {
    forall|i: int|
        0 <= i < inners.len() ==> decompose_ok(
            witness_blocks(#[trigger] inners[i], num_live_blocks, n_a),
            num_digits,
            log_basis,
            q,
            d_a,
            d_b,
        )
}

/// `digits` is the B-role decomposition of the block rows of `w`: its
/// digit planes, their block sizes and the outer ring dimension.
pub open spec fn decomposes_witness(
    digits: DigitBlocks,
    w: CommitInnerWitness,
    num_live_blocks: nat,
    n_a: nat,
    num_digits: nat,
    log_basis: nat,
    q: u64,
    d_a: nat,
    d_b: nat,
) -> bool {
    let blocks = witness_blocks(w, num_live_blocks, n_a);
    &&& digits.digits@ == blocks_digits(blocks, q, num_digits, log_basis)
    &&& digits.block_sizes@ == decomposed_block_sizes(blocks, num_digits, d_a, d_b)
    &&& digits.ring_dim == d_b
}

/// What the outer stage gives for a backend answer: the backend's error
/// as it came; for well-shaped batches, the persistent rows and the
/// batches' rows flattened into one vector of ring dimension `d_b`;
/// otherwise an `InvalidSetup` rejection.
pub open spec fn outer_from_answer(
    r: Result<(Vec<RingVec>, RingVec), AkitaError>,
    answer: Result<Vec<Vec<Vec<u64>>>, AkitaError>,
    rows: Seq<RingVec>,
    slices: nat,
    n_b: nat,
    d_b: nat,
) -> bool {
    match answer {
        Err(e) => r == Err::<(Vec<RingVec>, RingVec), AkitaError>(e),
        Ok(batches) => if row_batches_ok(batch_views(batches@), slices, n_b, d_b) {
            r matches Ok((inner_rows, outer)) && inner_rows@ == rows && outer.ring_dim == d_b
                && outer.coeffs@ == flatten_rings(batch_views(batches@).flatten())
        } else {
            r matches Err(e) && b_row_shape_reads(e, batch_lens(batches@), slices as usize, n_b as usize)
        },
    }
}

/// Every witness before `i` passes the shape check and decomposes.
pub open spec fn witnesses_ok_before(
    inners: Seq<CommitInnerWitness>,
    i: int,
    num_live_blocks: nat,
    n_a: nat,
    num_digits: nat,
    log_basis: nat,
    q: u64,
    d_a: nat,
    d_b: nat,
) -> bool {
    forall|j: int|
        0 <= j < i ==> inner_shape_ok(#[trigger] inners[j], num_live_blocks, n_a, d_a)
            && decompose_ok(witness_blocks(inners[j], num_live_blocks, n_a), num_digits, log_basis, q, d_a, d_b)
}

/// Where `w` is the first witness to fail, `r` is its rejection: the shape
/// check's, or else the decomposition's.
pub open spec fn witness_rejection(
    r: Result<(Vec<RingVec>, RingVec), AkitaError>,
    w: CommitInnerWitness,
    num_live_blocks: nat,
    n_a: nat,
    num_digits: nat,
    log_basis: nat,
    q: u64,
    d_a: nat,
    d_b: nat,
) -> bool {
    &&& !inner_shape_ok(w, num_live_blocks, n_a, d_a) ==> (r matches Err(e)
        && inner_shape_error_reads(e, w, num_live_blocks, n_a, d_a))
    &&& inner_shape_ok(w, num_live_blocks, n_a, d_a) && !decompose_ok(
        witness_blocks(w, num_live_blocks, n_a),
        num_digits,
        log_basis,
        q,
        d_a,
        d_b,
    ) ==> fails_with(
        r,
        decompose_error(witness_blocks(w, num_live_blocks, n_a), num_digits, log_basis, q, d_a, d_b),
    )
}

/// `digits` holds, source by source, the B-role decomposition of each
/// witness.
pub open spec fn digits_decompose_witnesses(
    digits: Seq<&DigitBlocks>,
    inners: Seq<CommitInnerWitness>,
    num_live_blocks: nat,
    n_a: nat,
    num_digits: nat,
    log_basis: nat,
    q: u64,
    d_a: nat,
    d_b: nat,
) -> bool {
    &&& digits.len() == inners.len()
    &&& forall|i: int|
        0 <= i < digits.len() ==> decomposes_witness(
            *#[trigger] digits[i],
            inners[i],
            num_live_blocks,
            n_a,
            num_digits,
            log_basis,
            q,
            d_a,
            d_b,
        )
}

/// What applying B to the sources' digits gives: when they fit the slice
/// geometry, the backend's answer on exactly their slice inputs; otherwise
/// the rejection of the digits.
pub open spec fn outer_image_outcome<B: DigitRowsComputeBackend>(
    r: Result<(Vec<RingVec>, RingVec), AkitaError>,
    backend: &B,
    prepared: &B::PreparedSetup,
    inners: Seq<CommitInnerWitness>,
    digits: Seq<&DigitBlocks>,
    n_b: usize,
    log_basis: u32,
    slice_geometry: CommitmentSliceGeometry,
    d_b: usize,
) -> bool {
    if outer_digits_fit(slice_geometry, digits) {
        exists|ins: &[&[i8]]|
            plane_views(ins@) == slice_inputs(slice_geometry, digit_views(digits))
                && outer_from_answer(
                r,
                #[trigger] backend.rows_for(prepared, n_b, ins, log_basis, slice_geometry.ring_dim),
                witness_rows(inners),
                slice_geometry.num_slices(),
                n_b as nat,
                d_b as nat,
            )
    } else {
        fails_with(r, outer_digits_error(slice_geometry, digits))
    }
}

/// The outcome of the outer stage on the backend's inner witnesses
/// `inners`: the group-length, shape and decomposition rejections, and
/// otherwise the result of applying the B matrix to the canonical slice
/// inputs of the witnesses' digit planes, in source order.
pub open spec fn outer_stage_outcome<B: DigitRowsComputeBackend>(
    r: Result<(Vec<RingVec>, RingVec), AkitaError>,
    backend: &B,
    prepared: &B::PreparedSetup,
    inners: Seq<CommitInnerWitness>,
    expected_source_count: usize,
    n_a: usize,
    num_live_blocks: usize,
    num_digits_open: usize,
    log_basis: u32,
    n_b: usize,
    slice_geometry: CommitmentSliceGeometry,
    d_a: usize,
    d_b: usize,
    field_modulus: u64,
) -> bool {
    &&& (inners.len() != expected_source_count ==> (r matches Err(e) && inner_group_len_reads(
            e,
            inners.len() as usize,
            expected_source_count,
        )))
    &&& ((exists|i: int|
            0 <= i < inners.len() && !inner_shape_ok(
                #[trigger] inners[i],
                num_live_blocks as nat,
                n_a as nat,
                d_a as nat,
            )) ==> (r matches Err(e) && e is InvalidSetup))
    &&& (!witnesses_decompose(
            inners,
            num_live_blocks as nat,
            n_a as nat,
            num_digits_open as nat,
            log_basis as nat,
            field_modulus,
            d_a as nat,
            d_b as nat,
        ) ==> (r matches Err(e) && e is InvalidSetup))
    &&& (inners.len() == expected_source_count && (forall|i: int|
            0 <= i < inners.len() ==> inner_shape_ok(
                #[trigger] inners[i],
                num_live_blocks as nat,
                n_a as nat,
                d_a as nat,
            )) && witnesses_decompose(
            inners,
            num_live_blocks as nat,
            n_a as nat,
            num_digits_open as nat,
            log_basis as nat,
            field_modulus,
            d_a as nat,
            d_b as nat,
        ) ==> exists|digits: Seq<&DigitBlocks>|
            #![trigger digits_decompose_witnesses(
                digits,
                inners,
                num_live_blocks as nat,
                n_a as nat,
                num_digits_open as nat,
                log_basis as nat,
                field_modulus,
                d_a as nat,
                d_b as nat,
            )]
            digits_decompose_witnesses(
                digits,
                inners,
                num_live_blocks as nat,
                n_a as nat,
                num_digits_open as nat,
                log_basis as nat,
                field_modulus,
                d_a as nat,
                d_b as nat,
            ) && outer_image_outcome(
                r,
                backend,
                prepared,
                inners,
                digits,
                n_b,
                log_basis,
                slice_geometry,
                d_b,
            ))
    &&& (inners.len() == expected_source_count ==> forall|i: int|
        0 <= i < inners.len() && witnesses_ok_before(
            inners,
            i,
            num_live_blocks as nat,
            n_a as nat,
            num_digits_open as nat,
            log_basis as nat,
            field_modulus,
            d_a as nat,
            d_b as nat,
        ) ==> witness_rejection(
            r,
            #[trigger] inners[i],
            num_live_blocks as nat,
            n_a as nat,
            num_digits_open as nat,
            log_basis as nat,
            field_modulus,
            d_a as nat,
            d_b as nat,
        ))
}

/// Validate and decompose `t_i`, apply the outer matrix, and erase its ring
/// dimension for compression.
///
/// Every inner witness is checked to have ring dimension `d_a` and `n_a`
/// rows per live block, its rows are decomposed into `num_digits_open`
/// balanced digits in base `2^log_basis` regrouped into planes of ring
/// dimension `d_b`, and the canonical slices of all sources, in source
/// order, go through the backend's B matrix of `n_b` rows.
pub fn compute_outer_commitment<B: DigitRowsComputeBackend>(
    backend: &B,
    prepared: &B::PreparedSetup,
    inners: Vec<CommitInnerWitness>,
    expected_source_count: usize,
    n_a: usize,
    num_live_blocks: usize,
    num_digits_open: usize,
    log_basis: u32,
    n_b: usize,
    slice_geometry: &CommitmentSliceGeometry,
    d_a: usize,
    d_b: usize,
    field_modulus: u64,
) -> (r: Result<(Vec<RingVec>, RingVec), AkitaError>)
    requires
        slice_geometry.wf(),
    ensures
        outer_stage_outcome(
            r,
            backend,
            prepared,
            inners@,
            expected_source_count,
            n_a,
            num_live_blocks,
            num_digits_open,
            log_basis,
            n_b,
            *slice_geometry,
            d_a,
            d_b,
            field_modulus,
        ),
        r matches Ok((rows, outer)) ==> {
            &&& inners@.len() == expected_source_count
            &&& forall|i: int|
                0 <= i < inners@.len() ==> inner_shape_ok(
                    #[trigger] inners@[i],
                    num_live_blocks as nat,
                    n_a as nat,
                    d_a as nat,
                )
            &&& rows@ == witness_rows(inners@)
            &&& outer.ring_dim == d_b
            &&& d_b == slice_geometry.ring_dim
            &&& outer.coeffs@.len() == slice_geometry.num_slices() * n_b * d_b
            &&& outer.wf()
        },
{
    let ghost all = inners@;
    let ghost nl = num_live_blocks as nat;
    let ghost na = n_a as nat;
    let ghost nd = num_digits_open as nat;
    let ghost lb = log_basis as nat;
    validate_commit_inner_group_len(expected_source_count, inners.len())?;
    let mut inner_rows: Vec<RingVec> = Vec::new();
    let mut digit_sets: Vec<DigitBlocks> = Vec::new();
    let mut rest = inners;
    let mut i: usize = 0;
    let total = rest.len();
    proof {
        assert(rest@.skip(0) =~= all);
    }
    while i < total
        invariant
            total == all.len(),
            total == expected_source_count,
            i <= total,
            rest@ == all.skip(i as int),
            all == inners@,
            nl == num_live_blocks,
            na == n_a,
            nd == num_digits_open,
            lb == log_basis,
            inner_rows@ == witness_rows(all.take(i as int)),
            digit_sets@.len() == i,
            forall|k: int|
                0 <= k < i ==> decomposes_witness(
                    #[trigger] digit_sets@[k],
                    all[k],
                    nl,
                    na,
                    nd,
                    lb,
                    field_modulus,
                    d_a as nat,
                    d_b as nat,
                ),
            forall|k: int|
                0 <= k < i ==> inner_shape_ok(#[trigger] all[k], nl, na, d_a as nat),
            forall|k: int|
                0 <= k < i ==> decompose_ok(
                    witness_blocks(#[trigger] all[k], nl, na),
                    nd,
                    lb,
                    field_modulus,
                    d_a as nat,
                    d_b as nat,
                ),
        decreases total - i,
    {
        let inner = rest.remove(0);
        proof {
            assert(inner == all[i as int]);
        }
        validate_commit_inner_shape(&inner, num_live_blocks, n_a, d_a)?;
        let ghost wb = witness_blocks(inner, nl, na);
        let mut blocks: Vec<Vec<Vec<u64>>> = Vec::new();
        let mut b: usize = 0;
        while b < num_live_blocks
            invariant
                inner_shape_ok(inner, nl, na, d_a as nat),
                nl == num_live_blocks,
                na == n_a,
                wb == witness_blocks(inner, nl, na),
                b <= num_live_blocks,
                blocks@.len() == b,
                forall|bb: int| 0 <= bb < b ==> blocks_view(blocks@)[bb] == #[trigger] wb[bb],
            decreases num_live_blocks - b,
        {
            proof {
                assert((b + 1) * n_a <= num_live_blocks * n_a) by (nonlinear_arith)
                    requires b + 1 <= num_live_blocks;
            }
            let rows = match inner.block_rows(b, n_a) {
                Ok(rows) => rows,
                Err(e) => {
                    proof {
                        assert(false);
                    }
                    return Err(e);
                },
            };
            let ghost before = blocks@;
            blocks.push(rows);
            proof {
                assert(rows@.map_values(|row: Vec<u64>| row@) =~= wb[b as int]);
                assert forall|bb: int| 0 <= bb < b + 1 implies blocks_view(blocks@)[bb]
                    == #[trigger] wb[bb] by {
                    if bb < b {
                        assert(blocks@[bb] == before[bb]);
                        assert(blocks_view(before)[bb] == wb[bb]);
                    } else {
                        assert(blocks@[bb] == rows);
                    }
                }
            }
            b = b + 1;
        }
        proof {
            assert(blocks_view(blocks@) =~= wb);
        }
        let digits = match decompose_commit_blocks(
            &blocks,
            num_digits_open,
            log_basis,
            field_modulus,
            d_a,
            d_b,
        ) {
            Ok(digits) => digits,
            Err(e) => {
                proof {
                    assert(!decompose_ok(
                        witness_blocks(all[i as int], nl, na),
                        nd,
                        lb,
                        field_modulus,
                        d_a as nat,
                        d_b as nat,
                    ));
                }
                return Err(e);
            },
        };
        let ghost before_sets = digit_sets@;
        digit_sets.push(digits);
        inner_rows.push(inner.into_inner_rows());
        proof {
            assert(all.take(i + 1) =~= all.take(i as int).push(all[i as int]));
            assert(witness_rows(all.take(i + 1)) =~= witness_rows(all.take(i as int)).push(
                all[i as int].inner_rows,
            ));
            assert(rest@ =~= all.skip(i + 1));
            assert forall|k: int| 0 <= k < i + 1 implies decomposes_witness(
                #[trigger] digit_sets@[k],
                all[k],
                nl,
                na,
                nd,
                lb,
                field_modulus,
                d_a as nat,
                d_b as nat,
            ) by {
                if k < i {
                    assert(digit_sets@[k] == before_sets[k]);
                }
            }
        }
        i = i + 1;
    }
    proof {
        assert(all.take(total as int) =~= all);
    }
    let mut digit_refs: Vec<&DigitBlocks> = Vec::new();
    let mut k: usize = 0;
    while k < digit_sets.len()
        invariant
            k <= digit_sets.len(),
            digit_refs@.len() == k,
            forall|j: int| 0 <= j < k ==> *#[trigger] digit_refs@[j] == digit_sets@[j],
        decreases digit_sets.len() - k,
    {
        digit_refs.push(&digit_sets[k]);
        k = k + 1;
    }
    let ghost drefs = digit_refs@;
    proof {
        assert forall|j: int| 0 <= j < drefs.len() implies decomposes_witness(
            *#[trigger] drefs[j],
            all[j],
            nl,
            na,
            nd,
            lb,
            field_modulus,
            d_a as nat,
            d_b as nat,
        ) by {
            assert(*drefs[j] == digit_sets@[j]);
        }
    }
    let digit_slice = digit_refs.as_slice();
    proof {
        assert(digit_slice@ == drefs);
    }
    let answer = commit_outer_slices(backend, prepared, n_b, digit_slice, slice_geometry, log_basis);
    let ghost ganswer = answer;
    let u = match answer {
        Ok(u) => u,
        Err(e) => {
            proof {
                assert(ganswer == Err::<Vec<Vec<u64>>, AkitaError>(e));
                if outer_digits_fit(*slice_geometry, drefs) {
                    assert(digit_views(drefs).len() == slice_geometry.num_polynomials);
                    assert(digits_match(*slice_geometry, *drefs[0]));
                    assert(decomposes_witness(
                        *drefs[0],
                        all[0],
                        nl,
                        na,
                        nd,
                        lb,
                        field_modulus,
                        d_a as nat,
                        d_b as nat,
                    ));
                    assert(d_b == slice_geometry.ring_dim);
                    let ins = choose|ins: &[&[i8]]|
                        plane_views(ins@) == slice_inputs(*slice_geometry, digit_views(drefs))
                            && stacks_backend_rows(
                            ganswer,
                            #[trigger] backend.rows_for(
                                prepared,
                                n_b,
                                ins,
                                log_basis,
                                slice_geometry.ring_dim,
                            ),
                            slice_geometry.num_slices(),
                            n_b as nat,
                            slice_geometry.ring_dim as nat,
                        );
                    assert(outer_from_answer(
                        Err(e),
                        backend.rows_for(prepared, n_b, ins, log_basis, slice_geometry.ring_dim),
                        witness_rows(all),
                        slice_geometry.num_slices(),
                        n_b as nat,
                        d_b as nat,
                    ));
                }
                assert(digits_decompose_witnesses(
                    drefs,
                    all,
                    nl,
                    na,
                    nd,
                    lb,
                    field_modulus,
                    d_a as nat,
                    d_b as nat,
                ));
                assert(outer_image_outcome(
                    Err(e),
                    backend,
                    prepared,
                    all,
                    drefs,
                    n_b,
                    log_basis,
                    *slice_geometry,
                    d_b,
                ));
            }
            return Err(e);
        },
    };
    let outer = RingVec::from_ring_elems(&u, d_b);
    proof {
        let views = digit_views(digit_refs@);
        assert(views.len() == slice_geometry.num_polynomials);
        assert(digit_refs@.len() >= 1);
        assert(digits_match(*slice_geometry, *digit_refs@[0]));
        assert(*digit_refs@[0] == digit_sets@[0]);
        assert(d_b == slice_geometry.ring_dim);
        let uv = u@.map_values(|v: Vec<u64>| v@);
        assert(crate::digits::all_have_dim(uv, d_b as nat)) by {
            assert forall|j: int| 0 <= j < uv.len() implies #[trigger] uv[j].len() == d_b by {
                assert(uv[j] == u@[j]@);
                assert(u[j].len() == slice_geometry.ring_dim);
            }
        }
        crate::digits::lemma_flatten_len(uv, d_b as nat);
        let m = slice_geometry.num_slices() * n_b;
        assert(outer.coeffs@.len() == m * d_b);
        assert((m * d_b) % (d_b as int) == 0) by (nonlinear_arith)
            requires d_b >= 1, m >= 0;
        assert(m * d_b == slice_geometry.num_slices() * n_b * d_b);
        let ins = choose|ins: &[&[i8]]|
            plane_views(ins@) == slice_inputs(*slice_geometry, digit_views(drefs))
                && stacks_backend_rows(
                ganswer,
                #[trigger] backend.rows_for(prepared, n_b, ins, log_basis, slice_geometry.ring_dim),
                slice_geometry.num_slices(),
                n_b as nat,
                slice_geometry.ring_dim as nat,
            );
        assert(outer_from_answer(
            Ok((inner_rows, outer)),
            backend.rows_for(prepared, n_b, ins, log_basis, slice_geometry.ring_dim),
            witness_rows(all),
            slice_geometry.num_slices(),
            n_b as nat,
            d_b as nat,
        ));
        assert(digits_decompose_witnesses(
            drefs,
            all,
            nl,
            na,
            nd,
            lb,
            field_modulus,
            d_a as nat,
            d_b as nat,
        ));
        assert(outer_image_outcome(
            Ok((inner_rows, outer)),
            backend,
            prepared,
            all,
            drefs,
            n_b,
            log_basis,
            *slice_geometry,
            d_b,
        ));
    }
    Ok((inner_rows, outer))
}

/// Compute one same-shape group of inner commitments `t_i`.
pub fn compute_inner_commitment<S, B: RootCommitKernel<S>>(
    backend: &B,
    prepared: &B::PreparedSetup,
    sources: Vec<S>,
    plan: CommitInnerPlan,
) -> (r: Result<Vec<CommitInnerWitness>, AkitaError>)
    ensures
        r == backend.inner_group(prepared, sources, plan),
{
    backend.commit_inner_group(prepared, sources, plan)
}

/// A-role and B-role geometry of one commitment.
#[derive(Clone, Copy, Debug, PartialEq, Eq, Structural)]
pub struct CommitmentGeometry {
    pub inner_matrix: MatrixDescriptor,
    pub outer_matrix: MatrixDescriptor,
    pub num_positions_per_block: usize,
    pub num_digits_inner: usize,
    pub log_basis_inner: u32,
    pub num_live_blocks: usize,
    pub num_digits_outer: usize,
    pub log_basis_outer: u32,
}

impl CommitmentGeometry {
    /// The plan the inner kernel receives: the A matrix's rows and ring
    /// dimension, the block positions, and the inner decomposition.
    pub open spec fn plan(&self) -> CommitInnerPlan {
        CommitInnerPlan {
            n_a: self.inner_matrix.output_rank,
            num_positions_per_block: self.num_positions_per_block,
            num_digits_inner: self.num_digits_inner,
            log_basis_inner: self.log_basis_inner,
            ring_dim: self.inner_matrix.ring_dimension,
        }
    }

    pub fn inner_plan(&self) -> (r: CommitInnerPlan)
        ensures
            r == self.plan(),
            r.ring_dim == self.inner_matrix.ring_dimension,
            r.n_a == self.inner_matrix.output_rank,
            r.num_positions_per_block == self.num_positions_per_block,
            r.num_digits_inner == self.num_digits_inner,
            r.log_basis_inner == self.log_basis_inner,
    {
        CommitInnerPlan {
            n_a: self.inner_matrix.output_rank(),
            num_positions_per_block: self.num_positions_per_block,
            num_digits_inner: self.num_digits_inner,
            log_basis_inner: self.log_basis_inner,
            ring_dim: self.inner_matrix.ring_dimension(),
        }
    }
}

/// The plan handed to source admission and to the inner kernel has the
/// inner role's shape: the A matrix's ring dimension `D_A` and row count,
/// the block positions, and the inner decomposition.
pub proof fn law_inner_plan_is_inner_role(geometry: CommitmentGeometry)
    ensures
        geometry.plan().ring_dim == geometry.inner_matrix.ring_dimension,
        geometry.plan().n_a == geometry.inner_matrix.output_rank,
        geometry.plan().num_positions_per_block == geometry.num_positions_per_block,
        geometry.plan().num_digits_inner == geometry.num_digits_inner,
        geometry.plan().log_basis_inner == geometry.log_basis_inner,
{
}

/// The first error of a sequence of outcomes, if any.
pub open spec fn first_error(outcomes: Seq<Option<AkitaError>>) -> Option<AkitaError>
    decreases outcomes.len(),
{
    if outcomes.len() == 0 {
        None
    } else {
        match first_error(outcomes.drop_last()) {
            Some(e) => Some(e),
            None => outcomes.last(),
        }
    }
}

/// An error found in a prefix is the first error of the whole sequence.
proof fn lemma_first_error_prefix(outcomes: Seq<Option<AkitaError>>, k: int)
    requires
        0 <= k <= outcomes.len(),
        first_error(outcomes.take(k)) is Some,
    ensures
        first_error(outcomes) == first_error(outcomes.take(k)),
    decreases outcomes.len() - k,
{
    if k < outcomes.len() {
        assert(outcomes.take(k + 1).drop_last() =~= outcomes.take(k));
        assert(first_error(outcomes.take(k + 1)) == first_error(outcomes.take(k)));
        lemma_first_error_prefix(outcomes, k + 1);
    } else {
        assert(outcomes.take(k) =~= outcomes);
    }
}

/// Each source's admission rejection, if any.
pub open spec fn admission_errors<P: RootCommitSource>(
    polys: Seq<P>,
    plan: CommitInnerPlan,
    contract: CommittedSourceContract,
) -> Seq<Option<AkitaError>> {
    polys.map_values(
        |p: P|
            match p.admission(plan, contract) {
                Ok(_) => None,
                Err(e) => Some(e),
            },
    )
}

/// Each source's commit-view error, if any.
pub open spec fn view_errors<P: RootCommitSource>(polys: Seq<P>, ring_dim: usize) -> Seq<
    Option<AkitaError>,
> {
    polys.map_values(
        |p: P|
            match p.view_for(ring_dim) {
                Ok(_) => None,
                Err(e) => Some(e),
            },
    )
}

/// The commit views of the sources, where every view exists.
pub open spec fn commit_views<P: RootCommitSource>(polys: Seq<P>, ring_dim: usize) -> Seq<P::View> {
    polys.map_values(|p: P| p.view_for(ring_dim)->Ok_0)
}

/// The outcome of the inner and outer stages on `polys`: the first
/// admission rejection, then the first commit-view error, then the inner
/// kernel's error, otherwise the outer stage on the kernel's witnesses.
pub open spec fn inner_outer_outcome<V, P: RootCommitSource<View = V>, B: RootCommitKernel<V>
    + DigitRowsComputeBackend>(
    r: Result<(Vec<RingVec>, RingVec), AkitaError>,
    polys: Seq<P>,
    backend: &B,
    prepared: &<B as ComputeBackendSetup>::PreparedSetup,
    geometry: CommitmentGeometry,
    slice_geometry: CommitmentSliceGeometry,
    contract: CommittedSourceContract,
    field_modulus: u64,
) -> bool {
    &&& (first_error(admission_errors(polys, geometry.plan(), contract)) matches Some(e) ==> r
            == Err::<(Vec<RingVec>, RingVec), AkitaError>(e))
    &&& (first_error(admission_errors(polys, geometry.plan(), contract)) is None ==> (first_error(
            view_errors(polys, geometry.inner_matrix.ring_dimension),
        ) matches Some(e) ==> r == Err::<(Vec<RingVec>, RingVec), AkitaError>(e)))
    &&& (first_error(admission_errors(polys, geometry.plan(), contract)) is None && first_error(
            view_errors(polys, geometry.inner_matrix.ring_dimension),
        ) is None ==> exists|views: Vec<V>|
            views@ == commit_views(polys, geometry.inner_matrix.ring_dimension) && match #[trigger] backend.inner_group(
                prepared,
                views,
                geometry.plan(),
            ) {
                Err(e) => r == Err::<(Vec<RingVec>, RingVec), AkitaError>(e),
                Ok(inners) => outer_stage_outcome(
                    r,
                    backend,
                    prepared,
                    inners@,
                    polys.len() as usize,
                    geometry.inner_matrix.output_rank,
                    geometry.num_live_blocks,
                    geometry.num_digits_outer,
                    geometry.log_basis_outer,
                    geometry.outer_matrix.output_rank,
                    slice_geometry,
                    geometry.inner_matrix.ring_dimension,
                    geometry.outer_matrix.ring_dimension,
                    field_modulus,
                ),
            })
}

/// Two results of the stages are the same: equal persistent rows and
/// outer image, or the same rejection.
pub open spec fn same_outcome(
    r1: Result<(Vec<RingVec>, RingVec), AkitaError>,
    r2: Result<(Vec<RingVec>, RingVec), AkitaError>,
) -> bool {
    match (r1, r2) {
        (Ok((a1, o1)), Ok((a2, o2))) => a1@ == a2@ && o1.ring_dim == o2.ring_dim && o1.coeffs@
            == o2.coeffs@,
        (Err(e1), Err(e2)) => same_error(e1, e2),
        _ => false,
    }
}

/// Two shape rejections of the same witness read alike.
proof fn lemma_shape_error_same(
    e1: AkitaError,
    e2: AkitaError,
    inner: CommitInnerWitness,
    num_live_blocks: nat,
    n_a: nat,
    d: nat,
)
    requires
        usize_text_is_functional(),
        inner_shape_error_reads(e1, inner, num_live_blocks, n_a, d),
        inner_shape_error_reads(e2, inner, num_live_blocks, n_a, d),
    ensures
        same_error(e1, e2),
{
    if inner.inner_rows.ring_dim == d && num_live_blocks * n_a <= usize::MAX
        && inner.inner_rows.num_elems() != num_live_blocks * n_a {
        lemma_row_count_same(
            e1,
            e2,
            inner.inner_rows.num_elems() as usize,
            (num_live_blocks * n_a) as usize,
        );
    }
}

/// Two sequences of digit blocks hold the same digits, block sizes and
/// ring dimensions, source by source.
pub open spec fn digits_agree(d1: Seq<&DigitBlocks>, d2: Seq<&DigitBlocks>) -> bool {
    &&& d1.len() == d2.len()
    &&& forall|i: int|
        0 <= i < d1.len() ==> (#[trigger] d1[i]).digits@ == d2[i].digits@ && d1[i].block_sizes@
            == d2[i].block_sizes@ && d1[i].ring_dim == d2[i].ring_dim
}

/// Digit blocks that agree fit, and are rejected, alike.
proof fn lemma_digits_agree(g: CommitmentSliceGeometry, d1: Seq<&DigitBlocks>, d2: Seq<&DigitBlocks>)
    requires
        digits_agree(d1, d2),
    ensures
        all_digits_match(g, d1) == all_digits_match(g, d2),
        digit_views(d1) == digit_views(d2),
        outer_digits_fit(g, d1) == outer_digits_fit(g, d2),
        digits_error(g, d1) == digits_error(g, d2),
        outer_digits_error(g, d1) == outer_digits_error(g, d2),
    decreases d1.len(),
{
    assert forall|i: int| 0 <= i < d1.len() implies digits_match(g, *#[trigger] d1[i]) == digits_match(
        g,
        *d2[i],
    ) && digit_shape_ok(g, *d1[i]) == digit_shape_ok(g, *d2[i]) by {
        assert(d1[i].block_sizes@ == d2[i].block_sizes@);
    }
    assert(digit_views(d1) =~= digit_views(d2)) by {
        assert forall|i: int| 0 <= i < d1.len() implies digit_views(d1)[i] == digit_views(d2)[i] by {
            assert(d1[i].digits@ == d2[i].digits@);
        }
    }
    if all_digits_match(g, d1) != all_digits_match(g, d2) {
        if all_digits_match(g, d1) {
            let i = choose|i: int| 0 <= i < d2.len() && !digits_match(g, *#[trigger] d2[i]);
            assert(digits_match(g, *d1[i]));
        } else {
            let i = choose|i: int| 0 <= i < d1.len() && !digits_match(g, *#[trigger] d1[i]);
            assert(digits_match(g, *d2[i]));
        }
    }
    if d1.len() > 0 {
        let r1 = d1.drop_last();
        let r2 = d2.drop_last();
        assert(digits_agree(r1, r2)) by {
            assert forall|i: int| 0 <= i < r1.len() implies (#[trigger] r1[i]).digits@ == r2[i].digits@
                && r1[i].block_sizes@ == r2[i].block_sizes@ && r1[i].ring_dim == r2[i].ring_dim by {
                assert(r1[i] == d1[i] && r2[i] == d2[i]);
            }
        }
        lemma_digits_agree(g, r1, r2);
        assert(d1.last() == d1[d1.len() - 1] && d2.last() == d2[d2.len() - 1]);
    }
}

/// Where some witness fails the shape check or the decomposition, the
/// first one to fail.
proof fn lemma_first_failing_witness(
    inners: Seq<CommitInnerWitness>,
    k: int,
    num_live_blocks: nat,
    n_a: nat,
    num_digits: nat,
    log_basis: nat,
    q: u64,
    d_a: nat,
    d_b: nat,
) -> (i: int)
    requires
        0 <= k <= inners.len(),
        witnesses_ok_before(inners, k, num_live_blocks, n_a, num_digits, log_basis, q, d_a, d_b),
        exists|j: int|
            k <= j < inners.len() && !(inner_shape_ok(
                #[trigger] inners[j],
                num_live_blocks,
                n_a,
                d_a,
            ) && decompose_ok(
                witness_blocks(inners[j], num_live_blocks, n_a),
                num_digits,
                log_basis,
                q,
                d_a,
                d_b,
            )),
    ensures
        k <= i < inners.len(),
        witnesses_ok_before(inners, i, num_live_blocks, n_a, num_digits, log_basis, q, d_a, d_b),
        !(inner_shape_ok(inners[i], num_live_blocks, n_a, d_a) && decompose_ok(
            witness_blocks(inners[i], num_live_blocks, n_a),
            num_digits,
            log_basis,
            q,
            d_a,
            d_b,
        )),
    decreases inners.len() - k,
{
    if !(inner_shape_ok(inners[k], num_live_blocks, n_a, d_a) && decompose_ok(
        witness_blocks(inners[k], num_live_blocks, n_a),
        num_digits,
        log_basis,
        q,
        d_a,
        d_b,
    )) {
        k
    } else {
        let j = choose|j: int|
            k <= j < inners.len() && !(inner_shape_ok(
                #[trigger] inners[j],
                num_live_blocks,
                n_a,
                d_a,
            ) && decompose_ok(
                witness_blocks(inners[j], num_live_blocks, n_a),
                num_digits,
                log_basis,
                q,
                d_a,
                d_b,
            ));
        assert(j != k);
        lemma_first_failing_witness(inners, k + 1, num_live_blocks, n_a, num_digits, log_basis, q, d_a, d_b)
    }
}

/// The outer stage is a function of the witnesses and the backend's
/// answers: two outcomes on the same inputs are the same.
pub proof fn lemma_outer_stage_same<B: DigitRowsComputeBackend>(
    r1: Result<(Vec<RingVec>, RingVec), AkitaError>,
    r2: Result<(Vec<RingVec>, RingVec), AkitaError>,
    backend: &B,
    prepared: &B::PreparedSetup,
    inners: Seq<CommitInnerWitness>,
    expected_source_count: usize,
    n_a: usize,
    num_live_blocks: usize,
    num_digits_open: usize,
    log_basis: u32,
    n_b: usize,
    slice_geometry: CommitmentSliceGeometry,
    d_a: usize,
    d_b: usize,
    field_modulus: u64,
)
    requires
        usize_text_is_functional(),
        outer_stage_outcome(
            r1,
            backend,
            prepared,
            inners,
            expected_source_count,
            n_a,
            num_live_blocks,
            num_digits_open,
            log_basis,
            n_b,
            slice_geometry,
            d_a,
            d_b,
            field_modulus,
        ),
        outer_stage_outcome(
            r2,
            backend,
            prepared,
            inners,
            expected_source_count,
            n_a,
            num_live_blocks,
            num_digits_open,
            log_basis,
            n_b,
            slice_geometry,
            d_a,
            d_b,
            field_modulus,
        ),
    ensures
        same_outcome(r1, r2),
{
    let nl = num_live_blocks as nat;
    let na = n_a as nat;
    let nd = num_digits_open as nat;
    let lb = log_basis as nat;
    let q = field_modulus;
    if inners.len() != expected_source_count {
        lemma_group_len_same(r1->Err_0, r2->Err_0, inners.len() as usize, expected_source_count);
    } else if exists|j: int|
        0 <= j < inners.len() && !(inner_shape_ok(#[trigger] inners[j], nl, na, d_a as nat)
            && decompose_ok(witness_blocks(inners[j], nl, na), nd, lb, q, d_a as nat, d_b as nat)) {
        assert(witnesses_ok_before(inners, 0, nl, na, nd, lb, q, d_a as nat, d_b as nat));
        let i = lemma_first_failing_witness(inners, 0, nl, na, nd, lb, q, d_a as nat, d_b as nat);
        assert(witness_rejection(r1, inners[i], nl, na, nd, lb, q, d_a as nat, d_b as nat));
        assert(witness_rejection(r2, inners[i], nl, na, nd, lb, q, d_a as nat, d_b as nat));
        if !inner_shape_ok(inners[i], nl, na, d_a as nat) {
            lemma_shape_error_same(r1->Err_0, r2->Err_0, inners[i], nl, na, d_a as nat);
        }
    } else {
        assert forall|i: int| 0 <= i < inners.len() implies inner_shape_ok(
            #[trigger] inners[i],
            nl,
            na,
            d_a as nat,
        ) && decompose_ok(witness_blocks(inners[i], nl, na), nd, lb, q, d_a as nat, d_b as nat) by {}
        assert(witnesses_decompose(inners, nl, na, nd, lb, q, d_a as nat, d_b as nat));
        let g1 = choose|digits: Seq<&DigitBlocks>|
            digits_decompose_witnesses(digits, inners, nl, na, nd, lb, q, d_a as nat, d_b as nat)
                && outer_image_outcome(
                r1,
                backend,
                prepared,
                inners,
                digits,
                n_b,
                log_basis,
                slice_geometry,
                d_b,
            );
        let g2 = choose|digits: Seq<&DigitBlocks>|
            digits_decompose_witnesses(digits, inners, nl, na, nd, lb, q, d_a as nat, d_b as nat)
                && outer_image_outcome(
                r2,
                backend,
                prepared,
                inners,
                digits,
                n_b,
                log_basis,
                slice_geometry,
                d_b,
            );
        assert(digits_agree(g1, g2)) by {
            assert forall|i: int| 0 <= i < g1.len() implies (#[trigger] g1[i]).digits@ == g2[i].digits@
                && g1[i].block_sizes@ == g2[i].block_sizes@ && g1[i].ring_dim == g2[i].ring_dim by {
                assert(decomposes_witness(*g1[i], inners[i], nl, na, nd, lb, q, d_a as nat, d_b as nat));
                assert(decomposes_witness(*g2[i], inners[i], nl, na, nd, lb, q, d_a as nat, d_b as nat));
            }
        }
        lemma_digits_agree(slice_geometry, g1, g2);
        if outer_digits_fit(slice_geometry, g1) {
            let views = slice_inputs(slice_geometry, digit_views(g1));
            let ins1 = choose|ins: &[&[i8]]|
                plane_views(ins@) == slice_inputs(slice_geometry, digit_views(g1))
                    && outer_from_answer(
                    r1,
                    #[trigger] backend.rows_for(prepared, n_b, ins, log_basis, slice_geometry.ring_dim),
                    witness_rows(inners),
                    slice_geometry.num_slices(),
                    n_b as nat,
                    d_b as nat,
                );
            let ins2 = choose|ins: &[&[i8]]|
                plane_views(ins@) == slice_inputs(slice_geometry, digit_views(g2))
                    && outer_from_answer(
                    r2,
                    #[trigger] backend.rows_for(prepared, n_b, ins, log_basis, slice_geometry.ring_dim),
                    witness_rows(inners),
                    slice_geometry.num_slices(),
                    n_b as nat,
                    d_b as nat,
                );
            assert(ins1 == ins2) by {
                assert(plane_views(ins1@) == plane_views(ins2@));
                assert(plane_views(ins1@).len() == ins1@.len());
                assert(plane_views(ins2@).len() == ins2@.len());
                assert forall|k: int| 0 <= k < ins1.len() implies ins1[k] == ins2[k] by {
                    assert(plane_views(ins1@)[k] == plane_views(ins2@)[k]);
                    let a = ins1@[k];
                    let b = ins2@[k];
                    assert(a@ == b@);
                    vstd::slice::axiom_slice_ext_equal(a, b);
                    assert forall|j: int| 0 <= j < a.len() implies a[j] == b[j] by {
                        assert(a@[j] == b@[j]);
                    }
                    assert(a =~= b);
                }
                vstd::slice::axiom_slice_ext_equal(ins1, ins2);
                assert(ins1 =~= ins2);
            }
            let answer = backend.rows_for(prepared, n_b, ins1, log_basis, slice_geometry.ring_dim);
            if let Ok(batches) = answer {
                if !row_batches_ok(batch_views(batches@), slice_geometry.num_slices(), n_b as nat, d_b as nat) {
                    lemma_b_row_shape_same(
                        r1->Err_0,
                        r2->Err_0,
                        batch_lens(batches@),
                        slice_geometry.num_slices() as usize,
                        n_b,
                    );
                }
            }
        }
    }
}

/// Compute the inner and outer commitment stages: admit every source,
/// build its commit view, compute the inner commitments, then the outer
/// image.
///
/// The first admission rejection is returned as it came, before any view
/// is built; then the first commit-view error; then the inner kernel's
/// error; otherwise the outer stage applied to the kernel's witnesses.
pub fn commit_inner_outer<V, P: RootCommitSource<View = V>, B: RootCommitKernel<V>
    + DigitRowsComputeBackend>(
    polys: &[P],
    backend: &B,
    prepared: &<B as ComputeBackendSetup>::PreparedSetup,
    geometry: CommitmentGeometry,
    slice_geometry: &CommitmentSliceGeometry,
    contract: CommittedSourceContract,
    field_modulus: u64,
) -> (r: Result<(Vec<RingVec>, RingVec), AkitaError>)
    requires
        slice_geometry.wf(),
    ensures
        inner_outer_outcome(
            r,
            polys@,
            backend,
            prepared,
            geometry,
            *slice_geometry,
            contract,
            field_modulus,
        ),
        r is Ok ==> first_error(admission_errors(polys@, geometry.plan(), contract)) is None
            && first_error(view_errors(polys@, geometry.inner_matrix.ring_dimension)) is None,
        r matches Ok((rows, outer)) ==> {
            &&& rows.len() == polys.len()
            &&& forall|i: int|
                0 <= i < rows.len() ==> (#[trigger] rows@[i]).ring_dim
                    == geometry.inner_matrix.ring_dimension && rows@[i].num_elems()
                    == geometry.num_live_blocks * geometry.inner_matrix.output_rank
            &&& outer.ring_dim == geometry.outer_matrix.ring_dimension
            &&& outer.ring_dim == slice_geometry.ring_dim
            &&& outer.coeffs@.len() == slice_geometry.num_slices()
                * geometry.outer_matrix.output_rank * geometry.outer_matrix.ring_dimension
            &&& outer.wf()
        },
{
    let d_a = geometry.inner_matrix.ring_dimension();
    let d_b = geometry.outer_matrix.ring_dimension();
    let plan = geometry.inner_plan();
    let ghost adm = admission_errors(polys@, plan, contract);
    let ghost verr = view_errors(polys@, d_a);
    let mut i: usize = 0;
    proof {
        assert(adm.take(0) =~= Seq::<Option<AkitaError>>::empty());
    }
    while i < polys.len()
        invariant
            i <= polys.len(),
            adm == admission_errors(polys@, plan, contract),
            plan == geometry.plan(),
            first_error(adm.take(i as int)) is None,
        decreases polys.len() - i,
    {
        match polys[i].fits_accepted_interval(&plan, &contract) {
            Ok(()) => {},
            Err(e) => {
                proof {
                    assert(adm.take(i + 1).drop_last() =~= adm.take(i as int));
                    assert(adm[i as int] == Some(e));
                    lemma_first_error_prefix(adm, i + 1);
                }
                return Err(e);
            },
        }
        proof {
            assert(adm.take(i + 1).drop_last() =~= adm.take(i as int));
            assert(adm[i as int] is None);
        }
        i = i + 1;
    }
    proof {
        assert(adm.take(polys.len() as int) =~= adm);
        assert(verr.take(0) =~= Seq::<Option<AkitaError>>::empty());
    }
    let mut views: Vec<V> = Vec::new();
    let mut j: usize = 0;
    while j < polys.len()
        invariant
            j <= polys.len(),
            verr == view_errors(polys@, d_a),
            d_a == geometry.inner_matrix.ring_dimension,
            plan == geometry.plan(),
            adm == admission_errors(polys@, plan, contract),
            first_error(adm) is None,
            first_error(verr.take(j as int)) is None,
            views@.len() == j,
            forall|k: int| 0 <= k < j ==> views@[k] == (#[trigger] polys@[k]).view_for(d_a)->Ok_0,
        decreases polys.len() - j,
    {
        let view = match polys[j].commit_view(d_a) {
            Ok(view) => view,
            Err(e) => {
                proof {
                    assert(verr.take(j + 1).drop_last() =~= verr.take(j as int));
                    assert(verr[j as int] == Some(e));
                    lemma_first_error_prefix(verr, j + 1);
                }
                return Err(e);
            },
        };
        proof {
            assert(verr.take(j + 1).drop_last() =~= verr.take(j as int));
            assert(verr[j as int] is None);
        }
        views.push(view);
        j = j + 1;
    }
    proof {
        assert(verr.take(polys.len() as int) =~= verr);
        assert(views@ =~= commit_views(polys@, d_a));
    }
    let ghost gviews = views;
    let kernel_answer = compute_inner_commitment(backend, prepared, views, plan);
    let ghost gkernel = kernel_answer;
    let inners = match kernel_answer {
        Ok(inners) => inners,
        Err(e) => {
            proof {
                assert(backend.inner_group(prepared, gviews, plan) == Err::<
                    Vec<CommitInnerWitness>,
                    AkitaError,
                >(e));
            }
            return Err(e);
        },
    };
    let ghost all = inners@;
    let outer_answer = compute_outer_commitment(
        backend,
        prepared,
        inners,
        polys.len(),
        plan.n_a,
        geometry.num_live_blocks,
        geometry.num_digits_outer,
        geometry.log_basis_outer,
        geometry.outer_matrix.output_rank(),
        slice_geometry,
        d_a,
        d_b,
        field_modulus,
    );
    proof {
        assert(backend.inner_group(prepared, gviews, plan) == gkernel);
    }
    let (rows, outer) = match outer_answer {
        Ok(pair) => pair,
        Err(e) => {
            return Err(e);
        },
    };
    proof {
        assert forall|k: int| 0 <= k < rows.len() implies (#[trigger] rows@[k]).ring_dim
            == geometry.inner_matrix.ring_dimension && rows@[k].num_elems()
            == geometry.num_live_blocks * geometry.inner_matrix.output_rank by {
            assert(rows@[k] == all[k].inner_rows);
            assert(inner_shape_ok(
                all[k],
                geometry.num_live_blocks as nat,
                geometry.inner_matrix.output_rank as nat,
                d_a as nat,
            ));
        }
    }
    Ok((rows, outer))
}

/// Determinism of the inner and outer stages: two runs on the same
/// sources, backend, prepared setup, geometry and contract give the same
/// rows and outer image, or the same rejection. This holds for an inner
/// kernel that answers alike on commit views that read alike, with std
/// rendering each number as one text.
pub proof fn law_commit_inner_outer_deterministic<V, P: RootCommitSource<View = V>, B: RootCommitKernel<V>
    + DigitRowsComputeBackend>(
    r1: Result<(Vec<RingVec>, RingVec), AkitaError>,
    r2: Result<(Vec<RingVec>, RingVec), AkitaError>,
    polys: Seq<P>,
    backend: &B,
    prepared: &<B as ComputeBackendSetup>::PreparedSetup,
    geometry: CommitmentGeometry,
    slice_geometry: CommitmentSliceGeometry,
    contract: CommittedSourceContract,
    field_modulus: u64,
)
    requires
        usize_text_is_functional(),
        forall|v1: Vec<V>, v2: Vec<V>|
            #![trigger backend.inner_group(prepared, v1, geometry.plan()), backend.inner_group(prepared, v2, geometry.plan())]
            v1@ == v2@ ==> backend.inner_group(prepared, v1, geometry.plan()) == backend.inner_group(
                prepared,
                v2,
                geometry.plan(),
            ),
        inner_outer_outcome(
            r1,
            polys,
            backend,
            prepared,
            geometry,
            slice_geometry,
            contract,
            field_modulus,
        ),
        inner_outer_outcome(
            r2,
            polys,
            backend,
            prepared,
            geometry,
            slice_geometry,
            contract,
            field_modulus,
        ),
    ensures
        same_outcome(r1, r2),
{
    let adm = first_error(admission_errors(polys, geometry.plan(), contract));
    let verr = first_error(view_errors(polys, geometry.inner_matrix.ring_dimension));
    if adm is Some {
        assert(r1 == r2);
    } else if verr is Some {
        assert(r1 == r2);
    } else {
        let views1 = choose|views: Vec<V>|
            views@ == commit_views(polys, geometry.inner_matrix.ring_dimension) && match #[trigger] backend.inner_group(
                prepared,
                views,
                geometry.plan(),
            ) {
                Err(e) => r1 == Err::<(Vec<RingVec>, RingVec), AkitaError>(e),
                Ok(inners) => outer_stage_outcome(
                    r1,
                    backend,
                    prepared,
                    inners@,
                    polys.len() as usize,
                    geometry.inner_matrix.output_rank,
                    geometry.num_live_blocks,
                    geometry.num_digits_outer,
                    geometry.log_basis_outer,
                    geometry.outer_matrix.output_rank,
                    slice_geometry,
                    geometry.inner_matrix.ring_dimension,
                    geometry.outer_matrix.ring_dimension,
                    field_modulus,
                ),
            };
        let views2 = choose|views: Vec<V>|
            views@ == commit_views(polys, geometry.inner_matrix.ring_dimension) && match #[trigger] backend.inner_group(
                prepared,
                views,
                geometry.plan(),
            ) {
                Err(e) => r2 == Err::<(Vec<RingVec>, RingVec), AkitaError>(e),
                Ok(inners) => outer_stage_outcome(
                    r2,
                    backend,
                    prepared,
                    inners@,
                    polys.len() as usize,
                    geometry.inner_matrix.output_rank,
                    geometry.num_live_blocks,
                    geometry.num_digits_outer,
                    geometry.log_basis_outer,
                    geometry.outer_matrix.output_rank,
                    slice_geometry,
                    geometry.inner_matrix.ring_dimension,
                    geometry.outer_matrix.ring_dimension,
                    field_modulus,
                ),
            };
        let answer = backend.inner_group(prepared, views1, geometry.plan());
        assert(answer == backend.inner_group(prepared, views2, geometry.plan()));
        if let Ok(inners) = answer {
            lemma_outer_stage_same(
                r1,
                r2,
                backend,
                prepared,
                inners@,
                polys.len() as usize,
                geometry.inner_matrix.output_rank,
                geometry.num_live_blocks,
                geometry.num_digits_outer,
                geometry.log_basis_outer,
                geometry.outer_matrix.output_rank,
                slice_geometry,
                geometry.inner_matrix.ring_dimension,
                geometry.outer_matrix.ring_dimension,
                field_modulus,
            );
        } else {
            assert(r1 == r2);
        }
    }
    if r1 == r2 && r1 is Err {
        let e = r1->Err_0;
        assert(same_error(e, e));
    }
}

/// Slice inputs built from `k` polynomials hold `k` padded shares.
proof fn lemma_prefix_len(g: CommitmentSliceGeometry, planes: Seq<Seq<i8>>, s: int, k: int)
    requires
        g.wf(),
        planes_fit(g, planes),
        0 <= s < g.num_slices(),
        0 <= k <= planes.len(),
    ensures
        slice_input_prefix(g, planes, s, k).len() == k * (g.max_blocks * block_coeff_len(g)),
    decreases k,
{
    if k > 0 {
        lemma_prefix_len(g, planes, s, k - 1);
        assert(planes[k - 1].len() == g.live_blocks * block_coeff_len(g));
        lemma_part_len(g, planes[k - 1], s);
        let u = g.max_blocks * block_coeff_len(g);
        assert(slice_input_prefix(g, planes, s, k) == slice_input_prefix(g, planes, s, k - 1)
            + padded_slice_part(g, planes[k - 1], s));
        assert(slice_input_prefix(g, planes, s, k - 1).len() == (k - 1) * u);
        assert(padded_slice_part(g, planes[k - 1], s).len() == u);
        assert((k - 1) * u + u == k * u) by (nonlinear_arith);
        assert(slice_input_prefix(g, planes, s, k).len() == (k - 1) * u + u);
    } else {
        assert(0 * (g.max_blocks * block_coeff_len(g)) == 0);
    }
}

/// Adding polynomials never changes the columns already laid out.
proof fn lemma_prefix_stable(
    g: CommitmentSliceGeometry,
    planes: Seq<Seq<i8>>,
    s: int,
    k: int,
    n: int,
    i: int,
)
    requires
        g.wf(),
        planes_fit(g, planes),
        0 <= s < g.num_slices(),
        0 <= k <= n <= planes.len(),
        0 <= i < slice_input_prefix(g, planes, s, k).len(),
    ensures
        slice_input_prefix(g, planes, s, n)[i] == slice_input_prefix(g, planes, s, k)[i],
    decreases n - k,
{
    if n > k {
        lemma_prefix_stable(g, planes, s, k, n - 1, i);
        lemma_prefix_len(g, planes, s, k);
        lemma_prefix_len(g, planes, s, n - 1);
        assert(k * (g.max_blocks * block_coeff_len(g)) <= (n - 1) * (g.max_blocks
            * block_coeff_len(g))) by (nonlinear_arith)
            requires k <= n - 1, g.max_blocks * block_coeff_len(g) >= 0;
        assert(g.max_blocks * block_coeff_len(g) >= 0) by (nonlinear_arith)
            requires g.max_blocks >= 0, block_coeff_len(g) >= 0;
        assert(block_coeff_len(g) >= 0) by (nonlinear_arith)
            requires block_coeff_len(g) == g.per_block * g.ring_dim;
    }
}

/// Column layout of a slice input, checked against an independent
/// block-diagonal description: column `((p * max_blocks + lb) * per_block
/// + off) * ring_dim + c` of slice `s` holds coefficient `c` of plane
/// `off` of global block `start(s) + lb` of polynomial `p` when that block
/// lies in the slice, and zero otherwise; the input is exactly the physical
/// B width.
pub proof fn law_slice_input_columns(
    g: CommitmentSliceGeometry,
    planes: Seq<Seq<i8>>,
    s: int,
    p: int,
    lb: int,
    off: int,
    c: int,
)
    requires
        g.wf(),
        planes_fit(g, planes),
        0 <= s < g.num_slices(),
        0 <= p < g.num_polynomials,
        0 <= lb < g.max_blocks,
        0 <= off < g.per_block,
        0 <= c < g.ring_dim,
    ensures
        slice_input(g, planes, s).len() == g.physical_width * g.ring_dim,
        slice_input(g, planes, s)[((p * g.max_blocks + lb) * g.per_block + off) * g.ring_dim + c]
            == if lb < g.end_of(s) - g.start_of(s) {
            planes[p][((g.start_of(s) + lb) * g.per_block + off) * g.ring_dim + c]
        } else {
            0i8
        },
{
    let bl = block_coeff_len(g);
    let unit = g.max_blocks * bl;
    let d = g.ring_dim as int;
    let pb = g.per_block as int;
    let m = g.max_blocks as int;
    let n = planes.len() as int;
    lemma_prefix_len(g, planes, s, n);
    assert(g.physical_width * g.ring_dim == n * unit) by (nonlinear_arith)
        requires
            g.physical_width == g.num_polynomials * g.max_blocks * g.per_block,
            n == g.num_polynomials,
            unit == g.max_blocks * bl,
            bl == g.per_block * g.ring_dim;
    let j = (lb * pb + off) * d + c;
    let idx = ((p * m + lb) * pb + off) * d + c;
    let pm = p * m;
    assert((pm + lb) * pb == pm * pb + lb * pb) by (nonlinear_arith);
    assert((pm * pb + (lb * pb + off)) * d == (pm * pb) * d + (lb * pb + off) * d)
        by (nonlinear_arith);
    assert((pm * pb) * d == p * (m * (pb * d))) by (nonlinear_arith)
        requires pm == p * m;
    assert(idx == p * unit + j);
    assert(0 <= j < unit && j == lb * bl + (off * d + c)) by (nonlinear_arith)
        requires
            j == (lb * pb + off) * d + c,
            0 <= lb < m,
            0 <= off < pb,
            0 <= c < d,
            unit == m * bl,
            bl == pb * d;
    assert(0 <= off * d + c < bl) by (nonlinear_arith)
        requires 0 <= off < pb, 0 <= c < d, bl == pb * d;
    lemma_prefix_len(g, planes, s, p);
    lemma_prefix_len(g, planes, s, p + 1);
    assert(p * unit + j < (p + 1) * unit) by (nonlinear_arith)
        requires j < unit;
    assert(0 <= p * unit) by (nonlinear_arith)
        requires p >= 0, unit >= 0;
    assert(unit >= 0) by (nonlinear_arith)
        requires m >= 0, bl >= 0, unit == m * bl;
    assert(bl >= 0) by (nonlinear_arith)
        requires bl == pb * d, pb >= 0, d >= 0;
    lemma_prefix_stable(g, planes, s, p + 1, n, idx);
    let part = padded_slice_part(g, planes[p], s);
    lemma_part_len(g, planes[p], s);
    let a = g.start_of(s);
    let b = g.end_of(s);
    assert(slice_input_prefix(g, planes, s, p + 1)[idx] == part[j]);
    assert((b - a) * bl == b * bl - a * bl) by (nonlinear_arith);
    if lb < b - a {
        assert(j < (b - a) * bl) by (nonlinear_arith)
            requires j == lb * bl + (off * d + c), 0 <= off * d + c < bl, lb < b - a, lb >= 0;
        assert(a * bl + j == ((a + lb) * pb + off) * d + c) by (nonlinear_arith)
            requires j == (lb * pb + off) * d + c, bl == pb * d;
    } else {
        assert(j >= (b - a) * bl) by (nonlinear_arith)
            requires j == lb * bl + (off * d + c), off * d + c >= 0, lb >= b - a, bl >= 0;
    }
}

} // verus!
