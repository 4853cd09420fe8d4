//! Flat ring-element vectors, inner commitment witnesses and digit blocks.
use vstd::prelude::*;
use crate::error::{AkitaError, fails_with, invalid_setup, setup_error_reads};

verus! {

/// Ring elements of one ring dimension, stored as their concatenated
/// coefficient vectors.
#[derive(Clone, Debug, PartialEq, Eq)]
pub struct RingVec {
    pub ring_dim: usize,
    pub coeffs: Vec<u64>,
}

/// Concatenation of the given ring elements' coefficients.
pub open spec fn flatten_rings(rows: Seq<Seq<u64>>) -> Seq<u64>
    decreases rows.len(),
{
    if rows.len() == 0 {
        Seq::empty()
    } else {
        flatten_rings(rows.drop_last()) + rows.last()
    }
}

/// Every ring element has exactly `d` coefficients.
pub open spec fn all_have_dim(rows: Seq<Seq<u64>>, d: nat) -> bool {
    forall|i: int| 0 <= i < rows.len() ==> #[trigger] rows[i].len() == d
}

pub proof fn lemma_flatten_len(rows: Seq<Seq<u64>>, d: nat)
    requires
        all_have_dim(rows, d),
    ensures
        flatten_rings(rows).len() == rows.len() * d,
    decreases rows.len(),
{
    if rows.len() > 0 {
        lemma_flatten_len(rows.drop_last(), d);
        assert(rows.len() * d == (rows.len() - 1) * d + d) by (nonlinear_arith);
    }
}

/// In a concatenation of ring elements of `d` coefficients each, element
/// `i` occupies coefficients `i * d .. (i + 1) * d`.
pub proof fn lemma_flatten_piece(rows: Seq<Seq<u64>>, d: nat, i: int)
    requires
        all_have_dim(rows, d),
        0 <= i < rows.len(),
    ensures
        flatten_rings(rows).subrange(i * d, i * d + d) == rows[i],
    decreases rows.len(),
{
    let n = rows.len() as int;
    let init = rows.drop_last();
    assert forall|k: int| 0 <= k < init.len() implies #[trigger] init[k].len() == d by {
        assert(init[k] == rows[k]);
    }
    lemma_flatten_len(init, d);
    assert(rows.last().len() == d);
    if i == n - 1 {
        assert(flatten_rings(rows).subrange(i * d, i * d + d) =~= rows.last());
    } else {
        lemma_flatten_piece(init, d, i);
        assert(0 <= i * d && i * d + d <= (n - 1) * d) by (nonlinear_arith)
            requires 0 <= i, i + 1 <= n - 1;
        assert(flatten_rings(rows).subrange(i * d, i * d + d) =~= flatten_rings(init).subrange(
            i * d,
            i * d + d,
        ));
    }
}

/// The rejection message for coefficients that do not tile ring elements
/// of dimension `ring_dim`.
pub open spec fn tiling_error(ring_dim: usize) -> Seq<char> {
    if ring_dim == 0 {
        "ring dimension must be positive"@
    } else {
        "coefficient count is not a whole number of ring elements"@
    }
}

impl RingVec {
    /// Positive ring dimension and a whole number of ring elements.
    pub open spec fn wf(&self) -> bool {
        self.ring_dim >= 1 && self.coeffs@.len() % (self.ring_dim as nat) == 0
    }

    /// Number of ring elements.
    pub open spec fn num_elems(&self) -> nat {
        if self.ring_dim == 0 {
            0
        } else {
            self.coeffs@.len() / (self.ring_dim as nat)
        }
    }

    /// Interpret `coeffs` as ring elements of dimension `ring_dim`.
    pub fn from_coeffs_with_ring_dim(coeffs: Vec<u64>, ring_dim: usize) -> (r: Result<
        RingVec,
        AkitaError,
    >)
        ensures
            r is Ok <==> ring_dim >= 1 && coeffs@.len() % (ring_dim as nat) == 0,
            r matches Ok(v) ==> v.ring_dim == ring_dim && v.coeffs@ == coeffs@,
            r matches Err(e) ==> setup_error_reads(e, tiling_error(ring_dim)),
    {
        if ring_dim == 0 {
            return Err(invalid_setup("ring dimension must be positive"));
        }
        if coeffs.len() % ring_dim != 0 {
            return Err(invalid_setup("coefficient count is not a whole number of ring elements"));
        }
        Ok(RingVec { ring_dim, coeffs })
    }

    /// Concatenate ring elements of dimension `ring_dim`.
    pub fn from_ring_elems(rows: &Vec<Vec<u64>>, ring_dim: usize) -> (r: RingVec)
        ensures
            r.ring_dim == ring_dim,
            r.coeffs@ == flatten_rings(rows@.map_values(|v: Vec<u64>| v@)),
    {
        let mut coeffs: Vec<u64> = Vec::new();
        let mut i: usize = 0;
        while i < rows.len()
            invariant
                i <= rows.len(),
                coeffs@ == flatten_rings(rows@.map_values(|v: Vec<u64>| v@).take(i as int)),
            decreases rows.len() - i,
        {
            proof {
                let all = rows@.map_values(|v: Vec<u64>| v@);
                assert(all.take(i + 1).drop_last() =~= all.take(i as int));
                assert(all.take(i + 1).last() == rows[i as int]@);
            }
            coeffs.extend_from_slice(rows[i].as_slice());
            i = i + 1;
        }
        proof {
            let all = rows@.map_values(|v: Vec<u64>| v@);
            assert(all.take(rows.len() as int) =~= all);
        }
        RingVec { ring_dim, coeffs }
    }

    /// Number of ring elements.
    pub fn count(&self) -> (r: usize)
        ensures
            r == self.num_elems(),
    {
        if self.ring_dim == 0 {
            0
        } else {
            self.coeffs.len() / self.ring_dim
        }
    }

    /// Number of coefficients.
    pub fn coeff_len(&self) -> (r: usize)
        ensures
            r == self.coeffs.len(),
    {
        self.coeffs.len()
    }

    pub fn into_coeffs(self) -> (r: Vec<u64>)
        ensures
            r@ == self.coeffs@,
    {
        self.coeffs
    }
}

/// Inner commitment `t_i` of one source: its A-rows, block after block.
/// The ring elements of each block of rows.
pub open spec fn rows_view(rows: Seq<Vec<Vec<u64>>>) -> Seq<Seq<Seq<u64>>> {
    rows.map_values(|blk: Vec<Vec<u64>>| blk@.map_values(|row: Vec<u64>| row@))
}

/// The coefficients of every row, block after block and row after row.
pub open spec fn block_rows_coeffs(rows: Seq<Vec<Vec<u64>>>) -> Seq<u64> {
    flatten_rings(rows_view(rows).map_values(|blk: Seq<Seq<u64>>| flatten_rings(blk)))
}

#[derive(Clone, Debug, PartialEq, Eq)]
pub struct CommitInnerWitness {
    pub inner_rows: RingVec,
}

impl CommitInnerWitness {
    /// Build a witness from per-block rows of ring elements of dimension
    /// `ring_dim`: it holds every row's coefficients, block after block and
    /// row after row.
    pub fn from_rows(rows: Vec<Vec<Vec<u64>>>, ring_dim: usize) -> (r: Result<
        CommitInnerWitness,
        AkitaError,
    >)
        ensures
            r is Ok <==> ring_dim >= 1 && forall|b: int, j: int|
                0 <= b < rows.len() && 0 <= j < rows[b].len() ==> #[trigger] rows[b][j].len()
                    == ring_dim,
            r matches Ok(w) ==> w.inner_rows.ring_dim == ring_dim && w.inner_rows.wf()
                && w.inner_rows.coeffs@ == block_rows_coeffs(rows@),
            r matches Err(e) ==> e is InvalidSetup,
    {
        if ring_dim == 0 {
            return Err(invalid_setup("ring dimension must be positive"));
        }
        let ghost bv = rows_view(rows@);
        let mut coeffs: Vec<u64> = Vec::new();
        proof {
            let dn = ring_dim as nat;
            assert(0nat % dn == 0) by (nonlinear_arith)
                requires dn >= 1;
            assert(bv.take(0).map_values(|blk: Seq<Seq<u64>>| flatten_rings(blk)) =~= Seq::<
                Seq<u64>,
            >::empty());
        }
        let mut b: usize = 0;
        while b < rows.len()
            invariant
                ring_dim >= 1,
                b <= rows.len(),
                bv == rows_view(rows@),
                coeffs@.len() % (ring_dim as nat) == 0,
                coeffs@ == flatten_rings(
                    bv.take(b as int).map_values(|blk: Seq<Seq<u64>>| flatten_rings(blk)),
                ),
                forall|bb: int, j: int|
                    0 <= bb < b && 0 <= j < rows[bb].len() ==> #[trigger] rows[bb][j].len()
                        == ring_dim,
            decreases rows.len() - b,
        {
            let ghost before = coeffs@;
            let mut j: usize = 0;
            proof {
                assert(bv[b as int].take(0) =~= Seq::<Seq<u64>>::empty());
                assert(before + flatten_rings(bv[b as int].take(0)) =~= before);
            }
            while j < rows[b].len()
                invariant
                    ring_dim >= 1,
                    b < rows.len(),
                    bv == rows_view(rows@),
                    j <= rows[b as int].len(),
                    coeffs@.len() % (ring_dim as nat) == 0,
                    coeffs@ == before + flatten_rings(bv[b as int].take(j as int)),
                    forall|bb: int, jj: int|
                        0 <= bb < b && 0 <= jj < rows[bb].len() ==> #[trigger] rows[bb][jj].len()
                            == ring_dim,
                    forall|jj: int| 0 <= jj < j ==> #[trigger] rows[b as int][jj].len() == ring_dim,
                decreases rows[b as int].len() - j,
            {
                if rows[b][j].len() != ring_dim {
                    return Err(invalid_setup("inner row has the wrong ring dimension"));
                }
                proof {
                    let old_len = coeffs.len() as int;
                    assert((old_len + ring_dim) % (ring_dim as int) == 0) by (nonlinear_arith)
                        requires old_len % (ring_dim as int) == 0, ring_dim >= 1;
                    assert(bv[b as int].take(j + 1).drop_last() =~= bv[b as int].take(j as int));
                    assert(bv[b as int][j as int] == rows[b as int][j as int]@);
                }
                coeffs.extend_from_slice(rows[b][j].as_slice());
                proof {
                    assert(coeffs@ =~= before + flatten_rings(bv[b as int].take(j + 1)));
                }
                j = j + 1;
            }
            proof {
                assert(bv[b as int].take(rows[b as int].len() as int) =~= bv[b as int]);
                let m = bv.take(b + 1).map_values(|blk: Seq<Seq<u64>>| flatten_rings(blk));
                assert(m.drop_last() =~= bv.take(b as int).map_values(
                    |blk: Seq<Seq<u64>>| flatten_rings(blk),
                ));
            }
            b = b + 1;
        }
        proof {
            assert(bv.take(rows.len() as int) =~= bv);
        }
        Ok(CommitInnerWitness { inner_rows: RingVec { ring_dim, coeffs } })
    }

    /// The witness rows have ring dimension `d`.
    pub fn ensure_ring_dim(&self, d: usize) -> (r: Result<(), AkitaError>)
        ensures
            r is Ok <==> self.inner_rows.ring_dim == d,
            r matches Err(e) ==> setup_error_reads(
                e,
                "inner commitment has the wrong ring dimension"@,
            ),
    {
        if self.inner_rows.ring_dim != d {
            return Err(invalid_setup("inner commitment has the wrong ring dimension"));
        }
        Ok(())
    }

    /// The `n_a` rows of block `block_idx`, as ring elements.
    pub fn block_rows(&self, block_idx: usize, n_a: usize) -> (r: Result<Vec<Vec<u64>>, AkitaError>)
        ensures
            r is Ok <==> self.inner_rows.ring_dim >= 1 && (block_idx + 1) * n_a
                <= self.inner_rows.num_elems(),
            r matches Ok(rows) ==> rows.len() == n_a && forall|j: int|
                0 <= j < n_a ==> (#[trigger] rows[j])@ == self.inner_rows.coeffs@.subrange(
                    (block_idx * n_a + j) * self.inner_rows.ring_dim,
                    (block_idx * n_a + j + 1) * self.inner_rows.ring_dim,
                ),
            r matches Err(e) ==> e is InvalidSetup,
            self.inner_rows.ring_dim == 0 ==> fails_with(
                r,
                "inner commitment ring dimension must be positive"@,
            ),
    {
        let d = self.inner_rows.ring_dim;
        if d == 0 {
            return Err(invalid_setup("inner commitment ring dimension must be positive"));
        }
        let count = self.inner_rows.count();
        let first = match block_idx.checked_mul(n_a) {
            Some(v) => v,
            None => {
                proof {
                    assert((block_idx + 1) * n_a >= block_idx * n_a) by (nonlinear_arith);
                }
                return Err(invalid_setup("inner commitment block index overflow"));
            },
        };
        if first > count || count - first < n_a {
            proof {
                assert((block_idx + 1) * n_a == block_idx * n_a + n_a) by (nonlinear_arith);
            }
            return Err(invalid_setup("inner commitment block is out of range"));
        }
        proof {
            assert((block_idx + 1) * n_a == block_idx * n_a + n_a) by (nonlinear_arith);
            assert(count * d <= self.inner_rows.coeffs.len()) by (nonlinear_arith)
                requires count == self.inner_rows.coeffs@.len() as int / (d as int), d >= 1;
        }
        let mut rows: Vec<Vec<u64>> = Vec::new();
        let mut j: usize = 0;
        while j < n_a
            invariant
                d == self.inner_rows.ring_dim,
                d >= 1,
                first == block_idx * n_a,
                first + n_a <= count,
                count * d <= self.inner_rows.coeffs.len(),
                j <= n_a,
                rows.len() == j,
                forall|jj: int|
                    0 <= jj < j ==> (#[trigger] rows[jj])@ == self.inner_rows.coeffs@.subrange(
                        (block_idx * n_a + jj) * d,
                        (block_idx * n_a + jj + 1) * d,
                    ),
            decreases n_a - j,
        {
            proof {
                assert((first + j + 1) * d <= count * d) by (nonlinear_arith)
                    requires first + j + 1 <= count, d >= 1;
                assert((first + j + 1) * d == (first + j) * d + d) by (nonlinear_arith);
            }
            let lo = (first + j) * d;
            let hi = lo + d;
            let row = vstd::slice::slice_to_vec(&self.inner_rows.coeffs.as_slice()[lo..hi]);
            rows.push(row);
            j = j + 1;
        }
        Ok(rows)
    }

    /// The persistent inner rows.
    pub fn into_inner_rows(self) -> (r: RingVec)
        ensures
            r == self.inner_rows,
    {
        self.inner_rows
    }
}

/// Total of a sequence of block sizes.
pub open spec fn sum_sizes(sizes: Seq<usize>) -> nat
    decreases sizes.len(),
{
    if sizes.len() == 0 {
        0
    } else {
        sum_sizes(sizes.drop_last()) + (sizes.last() as nat)
    }
}

/// Signed digit planes of one decomposed source, block after block: block
/// `b` holds `block_sizes[b]` digit planes of `ring_dim` digits each.
#[derive(Clone, Debug, PartialEq, Eq)]
pub struct DigitBlocks {
    pub digits: Vec<i8>,
    pub block_sizes: Vec<usize>,
    pub ring_dim: usize,
}

impl DigitBlocks {
    /// Exact layout: a positive ring dimension and as many digits as the
    /// block sizes describe.
    pub open spec fn layout_ok(digits: Seq<i8>, block_sizes: Seq<usize>, ring_dim: nat) -> bool {
        &&& ring_dim >= 1
        &&& digits.len() == sum_sizes(block_sizes) * ring_dim
    }

    pub fn new(digits: Vec<i8>, block_sizes: Vec<usize>, ring_dim: usize) -> (r: Result<
        DigitBlocks,
        AkitaError,
    >)
        ensures
            r is Ok <==> Self::layout_ok(digits@, block_sizes@, ring_dim as nat),
            r matches Ok(d) ==> d.digits@ == digits@ && d.block_sizes@ == block_sizes@
                && d.ring_dim == ring_dim,
            r matches Err(e) ==> e is InvalidSetup,
    {
        if ring_dim == 0 {
            return Err(invalid_setup("digit ring dimension must be positive"));
        }
        let mut total: usize = 0;
        let mut i: usize = 0;
        while i < block_sizes.len()
            invariant
                i <= block_sizes.len(),
                total == sum_sizes(block_sizes@.take(i as int)),
                total <= digits.len(),
                ring_dim >= 1,
            decreases block_sizes.len() - i,
        {
            proof {
                assert(block_sizes@.take(i + 1).drop_last() =~= block_sizes@.take(i as int));
            }
            if block_sizes[i] > digits.len() - total {
                proof {
                    lemma_sum_sizes_prefix_monotone(block_sizes@, i + 1);
                    assert(sum_sizes(block_sizes@) * ring_dim >= sum_sizes(block_sizes@))
                        by (nonlinear_arith)
                        requires ring_dim >= 1;
                }
                return Err(invalid_setup("digit blocks exceed the digit count"));
            }
            total = total + block_sizes[i];
            i = i + 1;
        }
        proof {
            assert(block_sizes@.take(block_sizes.len() as int) =~= block_sizes@);
        }
        match total.checked_mul(ring_dim) {
            Some(n) => {
                if n != digits.len() {
                    return Err(invalid_setup("digit count disagrees with the block sizes"));
                }
            },
            None => {
                return Err(invalid_setup("digit count disagrees with the block sizes"));
            },
        }
        Ok(DigitBlocks { digits, block_sizes, ring_dim })
    }

    pub fn block_count(&self) -> (r: usize)
        ensures
            r == self.block_sizes.len(),
    {
        self.block_sizes.len()
    }

    pub fn block_sizes(&self) -> (r: &[usize])
        ensures
            r@ == self.block_sizes@,
    {
        self.block_sizes.as_slice()
    }

    /// The digits, viewed as planes of ring dimension `d`.
    pub fn typed_planes(&self, d: usize) -> (r: Result<&[i8], AkitaError>)
        ensures
            r is Ok <==> self.ring_dim == d,
            r matches Ok(p) ==> p@ == self.digits@,
            r matches Err(e) ==> setup_error_reads(e, "digit planes have the wrong ring dimension"@),
    {
        if self.ring_dim != d {
            return Err(invalid_setup("digit planes have the wrong ring dimension"));
        }
        Ok(self.digits.as_slice())
    }
}

/// A prefix of block sizes never sums to more than the whole.
pub proof fn lemma_sum_sizes_prefix_monotone(sizes: Seq<usize>, i: int)
    requires
        0 <= i <= sizes.len(),
    ensures
        sum_sizes(sizes.take(i)) <= sum_sizes(sizes),
    decreases sizes.len() - i,
{
    if i < sizes.len() {
        lemma_sum_sizes_prefix_monotone(sizes, i + 1);
        assert(sizes.take(i + 1).drop_last() =~= sizes.take(i));
    } else {
        assert(sizes.take(i) =~= sizes);
    }
}

} // verus!
