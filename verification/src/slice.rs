//! Canonical partition of the live blocks into outer-commitment slices.
use vstd::prelude::*;
use crate::error::{AkitaError, invalid_setup, setup_error_reads};

verus! {

/// Number of canonical slices the outer (B) matrix is applied to.
#[derive(Clone, Copy, Debug, PartialEq, Eq, Structural)]
pub enum CommitmentSliceCount {
    One,
    Two,
    Four,
    Eight,
}

impl CommitmentSliceCount {
    pub const ONE: CommitmentSliceCount = CommitmentSliceCount::One;
    pub const TWO: CommitmentSliceCount = CommitmentSliceCount::Two;
    pub const FOUR: CommitmentSliceCount = CommitmentSliceCount::Four;
    pub const EIGHT: CommitmentSliceCount = CommitmentSliceCount::Eight;
    /// Every supported slice count, in increasing order.
    pub const ALL: [CommitmentSliceCount; 4] = [
        CommitmentSliceCount::One,
        CommitmentSliceCount::Two,
        CommitmentSliceCount::Four,
        CommitmentSliceCount::Eight,
    ];

    /// The number of slices.
    pub open spec fn count(self) -> nat {
        match self {
            CommitmentSliceCount::One => 1,
            CommitmentSliceCount::Two => 2,
            CommitmentSliceCount::Four => 4,
            CommitmentSliceCount::Eight => 8,
        }
    }

    /// The number of slices.
    pub fn get(&self) -> (r: usize)
        ensures
            r == self.count(),
    {
        match self {
            CommitmentSliceCount::One => 1,
            CommitmentSliceCount::Two => 2,
            CommitmentSliceCount::Four => 4,
            CommitmentSliceCount::Eight => 8,
        }
    }
}

/// Half-open range `start..end` of live block indices.
#[derive(Clone, Copy, Debug, PartialEq, Eq, Structural)]
pub struct BlockRange {
    pub start: usize,
    pub end: usize,
}

impl BlockRange {
    /// Number of blocks in the range.
    pub fn len(&self) -> (r: usize)
        requires
            self.start <= self.end,
        ensures
            r == self.end - self.start,
    {
        self.end - self.start
    }
}

/// First block of slice `s` when `live` blocks are split into `count` slices.
pub open spec fn slice_start(live: nat, count: nat, s: int) -> int {
    (live * s) / (count as int)
}

/// One past the last block of slice `s`.
pub open spec fn slice_end(live: nat, count: nat, s: int) -> int {
    (live * (s + 1)) / (count as int)
}

/// `ceil(live / count)`: the widest slice, in blocks.
pub open spec fn max_slice_blocks(live: nat, count: nat) -> nat {
    ((live + count - 1) as int / count as int) as nat
}

/// Exact geometry of one sliced outer commitment: `live_blocks` blocks are
/// split into `slice_count` consecutive near-equal ranges; each slice input
/// holds, polynomial after polynomial, that range's digit planes padded with
/// zero planes to `max_blocks` blocks.
#[derive(Clone, Copy, Debug, PartialEq, Eq, Structural)]
pub struct CommitmentSliceGeometry {
    pub slice_count: CommitmentSliceCount,
    pub live_blocks: usize,
    pub num_polynomials: usize,
    /// Outer-ring digit planes per block and polynomial.
    pub per_block: usize,
    /// Outer ring dimension: coefficients per digit plane.
    pub ring_dim: usize,
    pub max_blocks: usize,
    /// Digit planes in one slice input (the B matrix width).
    pub physical_width: usize,
}

/// Conditions under which `CommitmentSliceGeometry::try_new` succeeds.
pub open spec fn slice_geometry_ok(
    count: CommitmentSliceCount,
    live_blocks: nat,
    num_polynomials: nat,
    n_a: nat,
    num_digits: nat,
    d_a: nat,
    d_b: nat,
) -> bool {
    let coeffs = n_a * num_digits * d_a;
    let per_block = coeffs / d_b;
    let max_blocks = max_slice_blocks(live_blocks, count.count());
    let width = num_polynomials * max_blocks * per_block;
    &&& live_blocks >= count.count()
    &&& live_blocks * count.count() <= usize::MAX
    &&& num_polynomials >= 1
    &&& d_b >= 1
    &&& n_a * num_digits <= usize::MAX
    &&& coeffs <= usize::MAX
    &&& coeffs >= 1
    &&& coeffs % d_b == 0
    &&& live_blocks * coeffs <= usize::MAX
    &&& num_polynomials * max_blocks <= usize::MAX
    &&& width <= usize::MAX
    &&& width * d_b <= usize::MAX
}

/// The rejection message of `try_new` on arguments it refuses: the first
/// check that fails.
pub open spec fn slice_geometry_error(
    count: CommitmentSliceCount,
    live_blocks: nat,
    num_polynomials: nat,
    n_a: nat,
    num_digits: nat,
    d_a: nat,
    d_b: nat,
) -> Seq<char> {
    let c = count.count();
    let coeffs = n_a * num_digits * d_a;
    if live_blocks < c {
        "slice count exceeds the live block count"@
    } else if live_blocks * c > usize::MAX {
        "slice range overflow"@
    } else if num_polynomials == 0 {
        "slice geometry requires at least one polynomial"@
    } else if d_b == 0 {
        "outer ring dimension must be positive"@
    } else if n_a * num_digits > usize::MAX || coeffs > usize::MAX {
        "slice block width overflow"@
    } else if coeffs == 0 {
        "slice blocks must be nonempty"@
    } else if coeffs % d_b != 0 {
        "inner digits do not tile the outer ring dimension"@
    } else if live_blocks * coeffs > usize::MAX {
        "slice digit count overflow"@
    } else {
        "slice width overflow"@
    }
}

/// The geometry `try_new` builds from its arguments.
pub open spec fn slice_geometry_of(
    count: CommitmentSliceCount,
    live_blocks: nat,
    num_polynomials: nat,
    n_a: nat,
    num_digits: nat,
    d_a: nat,
    d_b: nat,
) -> CommitmentSliceGeometry {
    let per_block = (n_a * num_digits * d_a) / d_b;
    let max_blocks = max_slice_blocks(live_blocks, count.count());
    CommitmentSliceGeometry {
        slice_count: count,
        live_blocks: live_blocks as usize,
        num_polynomials: num_polynomials as usize,
        per_block: per_block as usize,
        ring_dim: d_b as usize,
        max_blocks: max_blocks as usize,
        physical_width: (num_polynomials * max_blocks * per_block) as usize,
    }
}

impl CommitmentSliceGeometry {
    /// Internal consistency of a geometry built by `try_new`.
    pub open spec fn wf(&self) -> bool {
        let count = self.slice_count.count();
        &&& self.live_blocks >= count
        &&& self.live_blocks * count <= usize::MAX
        &&& self.num_polynomials >= 1
        &&& self.per_block >= 1
        &&& self.ring_dim >= 1
        &&& self.max_blocks == max_slice_blocks(self.live_blocks as nat, count)
        &&& self.max_blocks >= 1
        &&& self.physical_width == self.num_polynomials * self.max_blocks * self.per_block
        &&& self.physical_width * self.ring_dim <= usize::MAX
        &&& self.live_blocks * (self.per_block * self.ring_dim) <= usize::MAX
    }

    /// Number of slices.
    pub open spec fn num_slices(&self) -> nat {
        self.slice_count.count()
    }

    /// First block of slice `s`.
    pub open spec fn start_of(&self, s: int) -> int {
        slice_start(self.live_blocks as nat, self.slice_count.count(), s)
    }

    /// One past the last block of slice `s`.
    pub open spec fn end_of(&self, s: int) -> int {
        slice_end(self.live_blocks as nat, self.slice_count.count(), s)
    }

    /// Coefficients in one block of one polynomial.
    pub open spec fn block_coeffs(&self) -> nat {
        (self.per_block * self.ring_dim) as nat
    }

    /// Build the slice geometry of a group of `num_polynomials` polynomials
    /// whose `live_blocks` blocks each hold `n_a` inner rows of ring
    /// dimension `d_a`, decomposed into `num_digits` digits and regrouped
    /// into planes of the outer ring dimension `d_b`.
    pub fn try_new(
        slice_count: CommitmentSliceCount,
        live_blocks: usize,
        num_polynomials: usize,
        n_a: usize,
        num_digits: usize,
        d_a: usize,
        d_b: usize,
    ) -> (r: Result<CommitmentSliceGeometry, AkitaError>)
        ensures
            r is Ok <==> slice_geometry_ok(
                slice_count,
                live_blocks as nat,
                num_polynomials as nat,
                n_a as nat,
                num_digits as nat,
                d_a as nat,
                d_b as nat,
            ),
            r matches Ok(g) ==> g == slice_geometry_of(
                slice_count,
                live_blocks as nat,
                num_polynomials as nat,
                n_a as nat,
                num_digits as nat,
                d_a as nat,
                d_b as nat,
            ) && g.wf(),
            r matches Err(e) ==> setup_error_reads(
                e,
                slice_geometry_error(
                    slice_count,
                    live_blocks as nat,
                    num_polynomials as nat,
                    n_a as nat,
                    num_digits as nat,
                    d_a as nat,
                    d_b as nat,
                ),
            ),
    {
        let count = slice_count.get();
        if live_blocks < count {
            return Err(invalid_setup("slice count exceeds the live block count"));
        }
        let range_scale = match live_blocks.checked_mul(count) {
            Some(v) => v,
            None => {
                return Err(invalid_setup("slice range overflow"));
            },
        };
        if num_polynomials == 0 {
            return Err(invalid_setup("slice geometry requires at least one polynomial"));
        }
        if d_b == 0 {
            return Err(invalid_setup("outer ring dimension must be positive"));
        }
        let rows_digits = match n_a.checked_mul(num_digits) {
            Some(v) => v,
            None => {
                return Err(invalid_setup("slice block width overflow"));
            },
        };
        let coeffs = match rows_digits.checked_mul(d_a) {
            Some(v) => v,
            None => {
                return Err(invalid_setup("slice block width overflow"));
            },
        };
        if coeffs == 0 {
            return Err(invalid_setup("slice blocks must be nonempty"));
        }
        if coeffs % d_b != 0 {
            return Err(invalid_setup("inner digits do not tile the outer ring dimension"));
        }
        let per_block = coeffs / d_b;
        if live_blocks.checked_mul(coeffs).is_none() {
            return Err(invalid_setup("slice digit count overflow"));
        }
        let max_blocks = live_blocks / count + if live_blocks % count == 0 { 0 } else { 1 };
        proof {
            let l = live_blocks as int;
            let c = count as int;
            assert(max_blocks == (l + c - 1) / c) by (nonlinear_arith)
                requires
                    c >= 1,
                    l >= 0,
                    max_blocks == l / c + if l % c == 0 { 0int } else { 1int },
            {
                let q = l / c;
                let rr = l % c;
                assert(l == c * q + rr);
                if rr == 0 {
                    assert(l + c - 1 == c * q + (c - 1));
                } else {
                    assert(l + c - 1 == c * (q + 1) + (rr - 1));
                }
            }
            assert(max_blocks >= 1) by (nonlinear_arith)
                requires l >= c, c >= 1, max_blocks == (l + c - 1) / c;
            assert(coeffs == n_a * num_digits * d_a) by (nonlinear_arith)
                requires rows_digits == n_a * num_digits, coeffs == rows_digits * d_a;
        }
        let polys_blocks = match num_polynomials.checked_mul(max_blocks) {
            Some(v) => v,
            None => {
                return Err(invalid_setup("slice width overflow"));
            },
        };
        let width = match polys_blocks.checked_mul(per_block) {
            Some(v) => v,
            None => {
                return Err(invalid_setup("slice width overflow"));
            },
        };
        if width.checked_mul(d_b).is_none() {
            return Err(invalid_setup("slice width overflow"));
        }
        proof {
            assert(per_block >= 1) by (nonlinear_arith)
                requires coeffs >= 1, coeffs % d_b == 0, per_block == coeffs / d_b, d_b >= 1;
            assert(per_block * d_b == coeffs) by (nonlinear_arith)
                requires coeffs % d_b == 0, per_block == coeffs / d_b, d_b >= 1;
        }
        Ok(
            CommitmentSliceGeometry {
                slice_count,
                live_blocks,
                num_polynomials,
                per_block,
                ring_dim: d_b,
                max_blocks,
                physical_width: width,
            },
        )
    }

    /// The slice count.
    pub fn slice_count(&self) -> (r: CommitmentSliceCount)
        ensures
            r == self.slice_count,
    {
        self.slice_count
    }

    /// Outer-ring digit planes per block and polynomial.
    pub fn ring_elements_per_block_per_polynomial(&self) -> (r: usize)
        ensures
            r == self.per_block,
    {
        self.per_block
    }

    /// The widest slice, in blocks.
    pub fn max_blocks_per_slice(&self) -> (r: usize)
        ensures
            r == self.max_blocks,
    {
        self.max_blocks
    }

    /// Digit planes in one slice input: the physical B matrix width.
    pub fn physical_input_width(&self) -> (r: usize)
        ensures
            r == self.physical_width,
    {
        self.physical_width
    }

    /// Rows of the stacked outer image: one batch of `n_b` rows per slice.
    pub fn logical_output_rows(&self, n_b: usize) -> (r: Result<usize, AkitaError>)
        ensures
            r is Ok <==> self.slice_count.count() * n_b <= usize::MAX,
            r matches Ok(v) ==> v == self.slice_count.count() * n_b,
            r matches Err(e) ==> setup_error_reads(e, "B commitment output row count overflow"@),
    {
        match self.slice_count.get().checked_mul(n_b) {
            Some(v) => Ok(v),
            None => Err(invalid_setup("B commitment output row count overflow")),
        }
    }

    /// The block range of every slice, in slice order.
    pub fn block_ranges(&self) -> (r: Vec<BlockRange>)
        requires
            self.wf(),
        ensures
            r.len() == self.num_slices(),
            forall|s: int|
                #![trigger r[s]]
                0 <= s < r.len() ==> r[s].start == self.start_of(s) && r[s].end == self.end_of(s),
    {
        let count = self.slice_count.get();
        let mut ranges: Vec<BlockRange> = Vec::new();
        let mut s: usize = 0;
        while s < count
            invariant
                self.wf(),
                count == self.num_slices(),
                s <= count,
                ranges.len() == s,
                forall|t: int|
                    #![trigger ranges[t]]
                    0 <= t < s ==> ranges[t].start == self.start_of(t) && ranges[t].end
                        == self.end_of(t),
            decreases count - s,
        {
            proof {
                let l = self.live_blocks as int;
                assert(l * (s + 1) <= l * count) by (nonlinear_arith)
                    requires l >= 0, s + 1 <= count;
                assert(l * s <= l * (s + 1)) by (nonlinear_arith)
                    requires l >= 0, s >= 0;
            }
            let start = self.live_blocks * s / count;
            let end = self.live_blocks * (s + 1) / count;
            assert(start == self.start_of(s as int));
            assert(end == self.end_of(s as int));
            ranges.push(BlockRange { start, end });
            s = s + 1;
        }
        assert forall|t: int|
            #![trigger ranges[t]]
            0 <= t < ranges.len() implies ranges[t].start == self.start_of(t) && ranges[t].end
                == self.end_of(t) by {
            assert(t < s);
        }
        ranges
    }
}

/// A geometry built from arguments `try_new` accepts is well formed, and
/// none of its fields is truncated.
pub proof fn lemma_slice_geometry_of_wf(
    count: CommitmentSliceCount,
    live_blocks: nat,
    num_polynomials: nat,
    n_a: nat,
    num_digits: nat,
    d_a: nat,
    d_b: nat,
)
    requires
        slice_geometry_ok(count, live_blocks, num_polynomials, n_a, num_digits, d_a, d_b),
    ensures
        ({
            let g = slice_geometry_of(count, live_blocks, num_polynomials, n_a, num_digits, d_a, d_b);
            &&& g.wf()
            &&& g.slice_count == count
            &&& g.live_blocks == live_blocks
            &&& g.num_polynomials == num_polynomials
            &&& g.ring_dim == d_b
            &&& g.per_block == (n_a * num_digits * d_a) / d_b
            &&& g.max_blocks == max_slice_blocks(live_blocks, count.count())
            &&& g.physical_width == num_polynomials * g.max_blocks * g.per_block
        }),
{
    let c = count.count() as int;
    let l = live_blocks as int;
    let coeffs = n_a * num_digits * d_a;
    let pb = coeffs / d_b;
    let m = max_slice_blocks(live_blocks, count.count()) as int;
    assert(1 <= m <= l) by (nonlinear_arith)
        requires l >= c, c >= 1, m == (l + c - 1) / c;
    assert(1 <= pb <= coeffs && pb * d_b == coeffs) by (nonlinear_arith)
        requires coeffs >= 1, d_b >= 1, coeffs % d_b == 0, pb == coeffs / d_b;
    assert(d_b <= coeffs) by (nonlinear_arith)
        requires coeffs >= 1, d_b >= 1, pb * d_b == coeffs, pb >= 1;
    assert(num_polynomials <= num_polynomials * m) by (nonlinear_arith)
        requires m >= 1;
    assert(l <= l * c) by (nonlinear_arith)
        requires c >= 1, l >= 0;
    let g = slice_geometry_of(count, live_blocks, num_polynomials, n_a, num_digits, d_a, d_b);
    assert(g.per_block == pb);
    assert(g.max_blocks == m);
    assert(g.ring_dim == d_b);
    assert(g.live_blocks == l);
    assert(g.num_polynomials == num_polynomials);
    assert(num_polynomials * m * pb <= usize::MAX);
    assert(g.physical_width == num_polynomials * m * pb);
    assert(l * (pb * d_b) <= usize::MAX);
    assert(g.live_blocks * (g.per_block * g.ring_dim) <= usize::MAX);
    assert(g.physical_width * g.ring_dim <= usize::MAX);
    assert(g.wf());
}

/// The slices partition the live blocks: they start at block 0, each one
/// begins where the previous one ends, none is empty or longer than
/// `max_blocks`, and the last one ends at the last live block.
pub proof fn law_slices_partition_blocks(g: CommitmentSliceGeometry, s: int)
    requires
        g.wf(),
        0 <= s < g.num_slices(),
    ensures
        g.start_of(0) == 0,
        g.end_of(g.num_slices() - 1) == g.live_blocks,
        s + 1 < g.num_slices() ==> g.end_of(s) == g.start_of(s + 1),
        0 <= g.start_of(s) <= g.end_of(s) <= g.live_blocks,
        g.end_of(s) - g.start_of(s) <= g.max_blocks,
        g.end_of(s) - g.start_of(s) >= 1,
{
    let l = g.live_blocks as int;
    let c = g.num_slices() as int;
    let a = l * s;
    let q = a / c;
    let r = a % c;
    let q2 = l / c;
    let r2 = l % c;
    assert(a == c * q + r && 0 <= r < c) by (nonlinear_arith)
        requires c >= 1, q == a / c, r == a % c;
    assert(l == c * q2 + r2 && 0 <= r2 < c && q2 >= 1) by (nonlinear_arith)
        requires c >= 1, l >= c, q2 == l / c, r2 == l % c;
    assert(l * (s + 1) == c * (q + q2) + (r + r2)) by (nonlinear_arith)
        requires a == l * s, a == c * q + r, l == c * q2 + r2;
    assert((l * (s + 1)) / c >= q + q2) by (nonlinear_arith)
        requires l * (s + 1) == c * (q + q2) + (r + r2), c >= 1, r + r2 >= 0;
    crate::arith::lemma_range_len_bound(l, c, s);
    assert(l * 0 == 0);
    assert((l * c) / c == l) by (nonlinear_arith)
        requires c >= 1;
    assert(l * s >= 0) by (nonlinear_arith)
        requires l >= 0, s >= 0;
    assert(l * (s + 1) <= l * c) by (nonlinear_arith)
        requires l >= 0, s + 1 <= c;
    assert((l * (s + 1)) / c <= (l * c) / c) by (nonlinear_arith)
        requires l * (s + 1) <= l * c, c >= 1, l * (s + 1) >= 0;
    assert((l * s) / c >= 0) by (nonlinear_arith)
        requires l * s >= 0, c >= 1;
    assert(l * ((s + 1) - 1 + 1) == l * (s + 1));
}

} // verus!
