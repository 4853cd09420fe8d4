//! Balanced gadget decomposition of inner commitment rows into the signed
//! digit planes the outer (B) matrix consumes.
use vstd::prelude::*;
use crate::arith::two_pow;
use crate::digits::DigitBlocks;
use crate::error::{AkitaError, invalid_setup, setup_error_reads};

verus! {

/// Representative of `c` modulo `q` in `(-q/2, q/2]`.
pub open spec fn centered(c: u64, q: u64) -> int {
    if 2 * c <= q {
        c as int
    } else {
        c - q
    }
}

/// Balanced digit of `v` in base `b`: the remainder of `v` modulo `b`,
/// shifted into `[-b/2, b/2)`.
pub open spec fn bal_digit(v: int, b: int) -> int {
    let r = v % b;
    if 2 * r >= b {
        r - b
    } else {
        r
    }
}

/// What remains of `v` after its lowest balanced digit is removed.
pub open spec fn bal_next(v: int, b: int) -> int {
    (v - bal_digit(v, b)) / b
}

/// The `k` lowest balanced digits of `v` in base `b`, lowest first.
pub open spec fn bal_digits(v: int, b: int, k: nat) -> Seq<int>
    decreases k,
{
    if k == 0 {
        Seq::empty()
    } else {
        seq![bal_digit(v, b)] + bal_digits(bal_next(v, b), b, (k - 1) as nat)
    }
}

/// What remains of `v` after `k` balanced digits are removed.
pub open spec fn bal_rest(v: int, b: int, k: nat) -> int
    decreases k,
{
    if k == 0 {
        v
    } else {
        bal_rest(bal_next(v, b), b, (k - 1) as nat)
    }
}

/// `sum_j ds[j] * b^j`.
pub open spec fn recompose(ds: Seq<int>, b: int) -> int
    decreases ds.len(),
{
    if ds.len() == 0 {
        0
    } else {
        ds[0] + b * recompose(ds.drop_first(), b)
    }
}

/// `b^k` over the integers.
pub open spec fn int_pow(b: int, k: nat) -> int
    decreases k,
{
    if k == 0 {
        1
    } else {
        b * int_pow(b, (k - 1) as nat)
    }
}

/// Coefficient `c` of the field of order `q` has an exact `num_digits`-digit
/// balanced decomposition in base `2^log_basis`.
pub open spec fn coeff_representable(c: u64, q: u64, num_digits: nat, log_basis: nat) -> bool {
    &&& c < q
    &&& bal_rest(centered(c, q), two_pow(log_basis) as int, num_digits) == 0
}

/// Digit `j` of coefficient `c`.
pub open spec fn coeff_digit(c: u64, q: u64, num_digits: nat, log_basis: nat, j: int) -> int {
    bal_digits(centered(c, q), two_pow(log_basis) as int, num_digits)[j]
}

/// Digit planes of one ring element: plane `j` holds digit `j` of every
/// coefficient, in coefficient order.
pub open spec fn row_digits(row: Seq<u64>, q: u64, num_digits: nat, log_basis: nat) -> Seq<i8> {
    Seq::new(
        num_digits * row.len(),
        |i: int| coeff_digit(row[i % (row.len() as int)], q, num_digits, log_basis, i / (row.len() as int)) as i8,
    )
}

/// Digit planes of one block: its rows' planes, row after row.
pub open spec fn block_digits(
    rows: Seq<Seq<u64>>,
    q: u64,
    num_digits: nat,
    log_basis: nat,
) -> Seq<i8> {
    rows.map_values(|row: Seq<u64>| row_digits(row, q, num_digits, log_basis)).flatten()
}

/// Digit planes of all blocks, block after block.
pub open spec fn blocks_digits(
    blocks: Seq<Seq<Seq<u64>>>,
    q: u64,
    num_digits: nat,
    log_basis: nat,
) -> Seq<i8> {
    blocks.map_values(|rows: Seq<Seq<u64>>| block_digits(rows, q, num_digits, log_basis)).flatten()
}

pub proof fn lemma_bal_step(v: int, b: int)
    requires
        2 <= b <= 256,
        b % 2 == 0,
    ensures
        -(b / 2) <= bal_digit(v, b) < b / 2,
        v == bal_digit(v, b) + b * bal_next(v, b),
        -0x1_0000_0000_0000_0000 <= v <= 0x1_0000_0000_0000_0000 ==> -0x1_0000_0000_0000_0000
            <= bal_next(v, b) <= 0x1_0000_0000_0000_0000,
{
    let r = v % b;
    let d = bal_digit(v, b);
    let q = v / b;
    assert(v == b * q + r && 0 <= r < b) by (nonlinear_arith)
        requires b >= 2, q == v / b, r == v % b;
    assert(-(b / 2) <= d < b / 2) by (nonlinear_arith)
        requires 0 <= r < b, d == (if 2 * r >= b { r - b } else { r }), b % 2 == 0, b >= 2;
    let n = if 2 * r >= b { q + 1 } else { q };
    assert(v - d == b * n) by (nonlinear_arith)
        requires v == b * q + r, d == (if 2 * r >= b { r - b } else { r }), n == (if 2 * r >= b {
            q + 1
        } else {
            q
        });
    assert((v - d) / b == n) by (nonlinear_arith)
        requires v - d == b * n, b >= 2;
    if -0x1_0000_0000_0000_0000 <= v <= 0x1_0000_0000_0000_0000 {
        assert(-0x1_0000_0000_0000_0000 <= n <= 0x1_0000_0000_0000_0000) by (nonlinear_arith)
            requires
                v - d == b * n,
                b >= 2,
                -(b / 2) <= d < b / 2,
                b <= 256,
                -0x1_0000_0000_0000_0000 <= v <= 0x1_0000_0000_0000_0000,
        {
        }
    }
}

/// Removing `j + 1` digits removes `j` digits and then one more.
pub proof fn lemma_bal_rest_step(v: int, b: int, j: nat)
    ensures
        bal_rest(v, b, j + 1) == bal_next(bal_rest(v, b, j), b),
    decreases j,
{
    if j > 0 {
        lemma_bal_rest_step(bal_next(v, b), b, (j - 1) as nat);
        assert(bal_rest(v, b, j + 1) == bal_rest(bal_next(v, b), b, j));
        assert(bal_rest(v, b, j) == bal_rest(bal_next(v, b), b, (j - 1) as nat));
    } else {
        assert(bal_rest(v, b, 1) == bal_rest(bal_next(v, b), b, 0));
    }
}

/// Digit `j` of a `k`-digit decomposition is the lowest digit of what
/// remains after `j` digits.
pub proof fn lemma_bal_digits_index(v: int, b: int, k: nat, j: nat)
    requires
        j < k,
    ensures
        bal_digits(v, b, k).len() == k,
        bal_digits(v, b, k)[j as int] == bal_digit(bal_rest(v, b, j), b),
    decreases k,
{
    lemma_bal_digits_len(v, b, k);
    if j > 0 {
        lemma_bal_digits_index(bal_next(v, b), b, (k - 1) as nat, (j - 1) as nat);
        assert(bal_rest(v, b, j) == bal_rest(bal_next(v, b), b, (j - 1) as nat));
    }
}

pub proof fn lemma_bal_digits_len(v: int, b: int, k: nat)
    ensures
        bal_digits(v, b, k).len() == k,
    decreases k,
{
    if k > 0 {
        lemma_bal_digits_len(bal_next(v, b), b, (k - 1) as nat);
    }
}

/// Every balanced digit lies in `[-b/2, b/2)`.
pub proof fn lemma_bal_digits_bounded(v: int, b: int, k: nat, j: int)
    requires
        2 <= b <= 256,
        b % 2 == 0,
        0 <= j < k,
    ensures
        -(b / 2) <= bal_digits(v, b, k)[j] < b / 2,
{
    lemma_bal_digits_index(v, b, k, j as nat);
    lemma_bal_step(bal_rest(v, b, j as nat), b);
}

/// Recomposition: the `k` balanced digits of `v` and the remainder after
/// them give back `v`, that is
/// `sum_j digit_j * b^j + b^k * rest == v`; when the remainder is zero the
/// digits alone recompose `v`.
pub proof fn law_balanced_digits_recompose(v: int, b: int, k: nat)
    requires
        2 <= b <= 256,
        b % 2 == 0,
    ensures
        recompose(bal_digits(v, b, k), b) + int_pow(b, k) * bal_rest(v, b, k) == v,
        bal_rest(v, b, k) == 0 ==> recompose(bal_digits(v, b, k), b) == v,
    decreases k,
{
    if k > 0 {
        let n = bal_next(v, b);
        let d = bal_digit(v, b);
        law_balanced_digits_recompose(n, b, (k - 1) as nat);
        lemma_bal_step(v, b);
        let ds = bal_digits(v, b, k);
        assert(ds.drop_first() =~= bal_digits(n, b, (k - 1) as nat));
        assert(ds[0] == d);
        let rc = recompose(bal_digits(n, b, (k - 1) as nat), b);
        let p = int_pow(b, (k - 1) as nat);
        let rest = bal_rest(n, b, (k - 1) as nat);
        assert(rc + p * rest == n);
        assert(int_pow(b, k) == b * p);
        assert(d + b * rc + (b * p) * rest == v) by (nonlinear_arith)
            requires rc + p * rest == n, v == d + b * n;
    }
}

/// The digits of a representable coefficient are balanced, each in
/// `[-2^log_basis / 2, 2^log_basis / 2)`, and recompose, lowest first in
/// base `2^log_basis`, to the coefficient's centered value.
pub proof fn law_coefficient_digits_recompose(c: u64, q: u64, num_digits: nat, log_basis: nat)
    requires
        1 <= log_basis <= 8,
        coeff_representable(c, q, num_digits, log_basis),
    ensures
        recompose(
            bal_digits(centered(c, q), two_pow(log_basis) as int, num_digits),
            two_pow(log_basis) as int,
        ) == centered(c, q),
        forall|j: int|
            0 <= j < num_digits ==> -(two_pow(log_basis) / 2) <= #[trigger] coeff_digit(
                c,
                q,
                num_digits,
                log_basis,
                j,
            ) < two_pow(log_basis) / 2,
{
    let b = two_pow(log_basis) as int;
    assert(two_pow(8) == 256 && two_pow(1) == 2) by {
        reveal_with_fuel(two_pow, 9);
    }
    crate::arith::lemma_two_pow_monotone(log_basis, 8);
    crate::arith::lemma_two_pow_monotone(1, log_basis);
    assert(b == 2 * two_pow((log_basis - 1) as nat));
    law_balanced_digits_recompose(centered(c, q), b, num_digits);
    assert forall|j: int| 0 <= j < num_digits implies -(two_pow(log_basis) / 2)
        <= #[trigger] coeff_digit(c, q, num_digits, log_basis, j) < two_pow(log_basis) / 2 by {
        lemma_bal_digits_bounded(centered(c, q), b, num_digits, j);
    }
}

/// `2^log_basis` for a supported digit basis.
fn digit_base(log_basis: u32) -> (b: i128)
    requires
        1 <= log_basis <= 8,
    ensures
        b == two_pow(log_basis as nat),
        2 <= b <= 256,
        b % 2 == 0,
{
    let mut b: i128 = 1;
    let mut i: u32 = 0;
    while i < log_basis
        invariant
            i <= log_basis <= 8,
            b == two_pow(i as nat),
            1 <= b <= 256,
        decreases log_basis - i,
    {
        proof {
            reveal_with_fuel(two_pow, 9);
            crate::arith::lemma_two_pow_monotone((i + 1) as nat, 8);
            assert(two_pow((i + 1) as nat) == 2 * two_pow(i as nat));
        }
        b = b * 2;
        i = i + 1;
    }
    proof {
        assert(two_pow(log_basis as nat) == 2 * two_pow((log_basis - 1) as nat));
    }
    b
}

/// The `num_digits` balanced digits of coefficient `c` in base
/// `2^log_basis`, lowest first, or `None` when `c` is not canonical or its
/// centered value needs more digits.
pub fn decompose_coefficient(c: u64, q: u64, num_digits: usize, log_basis: u32) -> (r: Option<
    Vec<i8>,
>)
    requires
        q >= 1,
        1 <= log_basis <= 8,
    ensures
        r is Some <==> coeff_representable(c, q, num_digits as nat, log_basis as nat),
        r matches Some(ds) ==> ds.len() == num_digits && forall|j: int|
            0 <= j < num_digits ==> #[trigger] ds[j] == coeff_digit(
                c,
                q,
                num_digits as nat,
                log_basis as nat,
                j,
            ),
{
    if c >= q {
        return None;
    }
    let b = digit_base(log_basis);
    let ghost bi = b as int;
    let ci = c as i128;
    let qi = q as i128;
    let mut v: i128 = if 2 * ci <= qi {
        ci
    } else {
        ci - qi
    };
    let ghost v0 = centered(c, q);
    assert(v == v0);
    let mut ds: Vec<i8> = Vec::new();
    let mut j: usize = 0;
    while j < num_digits
        invariant
            bi == b as int,
            2 <= b <= 256,
            b % 2 == 0,
            j <= num_digits,
            v == bal_rest(v0, bi, j as nat),
            -0x1_0000_0000_0000_0000 <= v <= 0x1_0000_0000_0000_0000,
            ds@.len() == j,
            forall|i: int| 0 <= i < j ==> #[trigger] ds@[i] == bal_digits(v0, bi, num_digits as nat)[i],
        decreases num_digits - j,
    {
        proof {
            lemma_bal_step(v as int, bi);
            lemma_bal_digits_index(v0, bi, num_digits as nat, j as nat);
            lemma_bal_rest_step(v0, bi, j as nat);
        }
        let rem = if v >= 0 {
            v % b
        } else {
            let m = (-v) % b;
            if m == 0 {
                0
            } else {
                b - m
            }
        };
        proof {
            let vv = v as int;
            if vv < 0 {
                let m = (-vv) % bi;
                let q1 = (-vv) / bi;
                assert(-vv == q1 * bi + m && 0 <= m < bi) by (nonlinear_arith)
                    requires bi >= 2, m == (-vv) % bi, q1 == (-vv) / bi;
                if m == 0 {
                    assert(vv == (-q1) * bi + 0) by (nonlinear_arith)
                        requires -vv == q1 * bi + m, m == 0;
                    vstd::arithmetic::div_mod::lemma_fundamental_div_mod_converse(
                        vv,
                        bi,
                        -q1,
                        0,
                    );
                } else {
                    assert(vv == (-q1 - 1) * bi + (bi - m)) by (nonlinear_arith)
                        requires -vv == q1 * bi + m;
                    vstd::arithmetic::div_mod::lemma_fundamental_div_mod_converse(
                        vv,
                        bi,
                        -q1 - 1,
                        bi - m,
                    );
                }
                assert(vv % bi == (if m == 0 { 0 } else { bi - m }));
            }
        }
        let d = if 2 * rem >= b {
            rem - b
        } else {
            rem
        };
        assert(d == bal_digit(v as int, bi));
        ds.push(d as i8);
        let t = v - d;
        let nv = if t >= 0 {
            t / b
        } else {
            -((-t) / b)
        };
        proof {
            let n = bal_next(v as int, bi);
            let ti = t as int;
            assert(ti == bi * n);
            if ti < 0 {
                assert((-ti) / bi == -n) by (nonlinear_arith)
                    requires ti == bi * n, ti < 0, bi >= 2;
            } else {
                assert(ti / bi == n) by (nonlinear_arith)
                    requires ti == bi * n, bi >= 2;
            }
        }
        v = nv;
        j = j + 1;
    }
    if v != 0 {
        return None;
    }
    Some(ds)
}

/// The ring elements of every block.
pub open spec fn blocks_view(blocks: Seq<Vec<Vec<u64>>>) -> Seq<Seq<Seq<u64>>> {
    blocks.map_values(|rows: Vec<Vec<u64>>| rows@.map_values(|row: Vec<u64>| row@))
}

/// Conditions under which `decompose_commit_blocks` succeeds.
pub open spec fn decompose_ok(
    blocks: Seq<Seq<Seq<u64>>>,
    num_digits: nat,
    log_basis: nat,
    q: u64,
    d_a: nat,
    d_b: nat,
) -> bool {
    &&& 1 <= log_basis <= 8
    &&& q >= 1
    &&& d_b >= 1
    &&& num_digits * d_a <= usize::MAX
    &&& forall|b: int|
        0 <= b < blocks.len() ==> #[trigger] blocks[b].len() * (num_digits * d_a) <= usize::MAX
            && (blocks[b].len() * (num_digits * d_a)) % d_b == 0
    &&& forall|b: int, r: int|
        0 <= b < blocks.len() && 0 <= r < blocks[b].len() ==> #[trigger] blocks[b][r].len() == d_a
    &&& forall|b: int, r: int, t: int|
        0 <= b < blocks.len() && 0 <= r < blocks[b].len() && 0 <= t < blocks[b][r].len()
            ==> coeff_representable(#[trigger] blocks[b][r][t], q, num_digits, log_basis)
}

/// One inner row has `d_a` coefficients, each with an exact decomposition.
pub open spec fn row_ok(row: Seq<u64>, q: u64, num_digits: nat, log_basis: nat, d_a: nat) -> bool {
    &&& row.len() == d_a
    &&& forall|t: int| 0 <= t < row.len() ==> coeff_representable(#[trigger] row[t], q, num_digits, log_basis)
}

/// Every row of a block decomposes.
pub open spec fn rows_ok(rows: Seq<Seq<u64>>, q: u64, num_digits: nat, log_basis: nat, d_a: nat) -> bool {
    forall|r: int| 0 <= r < rows.len() ==> row_ok(#[trigger] rows[r], q, num_digits, log_basis, d_a)
}

/// One block decomposes into a whole number of outer-ring digit planes.
pub open spec fn block_ok(
    rows: Seq<Seq<u64>>,
    num_digits: nat,
    log_basis: nat,
    q: u64,
    d_a: nat,
    d_b: nat,
) -> bool {
    &&& rows.len() * (num_digits * d_a) <= usize::MAX
    &&& (rows.len() * (num_digits * d_a)) % d_b == 0
    &&& rows_ok(rows, q, num_digits, log_basis, d_a)
}

/// Every block decomposes.
pub open spec fn blocks_ok(
    blocks: Seq<Seq<Seq<u64>>>,
    num_digits: nat,
    log_basis: nat,
    q: u64,
    d_a: nat,
    d_b: nat,
) -> bool {
    forall|b: int| 0 <= b < blocks.len() ==> block_ok(#[trigger] blocks[b], num_digits, log_basis, q, d_a, d_b)
}

/// The rejection message for the first row of a block that does not
/// decompose.
pub open spec fn rows_error(rows: Seq<Seq<u64>>, q: u64, num_digits: nat, log_basis: nat, d_a: nat) -> Seq<
    char,
>
    decreases rows.len(),
{
    if rows.len() == 0 {
        Seq::empty()
    } else if !rows_ok(rows.drop_last(), q, num_digits, log_basis, d_a) {
        rows_error(rows.drop_last(), q, num_digits, log_basis, d_a)
    } else if rows.last().len() != d_a {
        "inner row has the wrong ring dimension"@
    } else {
        "inner coefficient exceeds the digit range"@
    }
}

/// The rejection message for a block that does not decompose.
pub open spec fn block_error(
    rows: Seq<Seq<u64>>,
    num_digits: nat,
    log_basis: nat,
    q: u64,
    d_a: nat,
    d_b: nat,
) -> Seq<char> {
    if rows.len() * (num_digits * d_a) > usize::MAX {
        "digit plane count overflow"@
    } else if (rows.len() * (num_digits * d_a)) % d_b != 0 {
        "inner digits do not tile the outer ring dimension"@
    } else {
        rows_error(rows, q, num_digits, log_basis, d_a)
    }
}

/// The rejection message for the first block that does not decompose.
pub open spec fn blocks_error(
    blocks: Seq<Seq<Seq<u64>>>,
    num_digits: nat,
    log_basis: nat,
    q: u64,
    d_a: nat,
    d_b: nat,
) -> Seq<char>
    decreases blocks.len(),
{
    if blocks.len() == 0 {
        Seq::empty()
    } else if !blocks_ok(blocks.drop_last(), num_digits, log_basis, q, d_a, d_b) {
        blocks_error(blocks.drop_last(), num_digits, log_basis, q, d_a, d_b)
    } else {
        block_error(blocks.last(), num_digits, log_basis, q, d_a, d_b)
    }
}

/// The rejection message of `decompose_commit_blocks`: the first check
/// that fails, in the order the checks run.
pub open spec fn decompose_error(
    blocks: Seq<Seq<Seq<u64>>>,
    num_digits: nat,
    log_basis: nat,
    q: u64,
    d_a: nat,
    d_b: nat,
) -> Seq<char> {
    if log_basis < 1 || log_basis > 8 {
        "digit basis out of range"@
    } else if q == 0 {
        "field modulus must be positive"@
    } else if d_b == 0 {
        "outer ring dimension must be positive"@
    } else if num_digits * d_a > usize::MAX {
        "digit plane count overflow"@
    } else {
        blocks_error(blocks, num_digits, log_basis, q, d_a, d_b)
    }
}

/// The message for a first failing row `r`.
proof fn lemma_rows_error_at(
    rows: Seq<Seq<u64>>,
    q: u64,
    num_digits: nat,
    log_basis: nat,
    d_a: nat,
    r: int,
)
    requires
        0 <= r < rows.len(),
        forall|k: int| 0 <= k < r ==> row_ok(#[trigger] rows[k], q, num_digits, log_basis, d_a),
        !row_ok(rows[r], q, num_digits, log_basis, d_a),
    ensures
        rows_error(rows, q, num_digits, log_basis, d_a) == if rows[r].len() != d_a {
            "inner row has the wrong ring dimension"@
        } else {
            "inner coefficient exceeds the digit range"@
        },
    decreases rows.len(),
{
    let rest = rows.drop_last();
    if rows.len() > r + 1 {
        assert(rest[r] == rows[r]);
        assert(!rows_ok(rest, q, num_digits, log_basis, d_a));
        assert forall|k: int| 0 <= k < r implies row_ok(#[trigger] rest[k], q, num_digits, log_basis, d_a) by {
            assert(rest[k] == rows[k]);
        }
        lemma_rows_error_at(rest, q, num_digits, log_basis, d_a, r);
    } else {
        assert forall|k: int| 0 <= k < rest.len() implies row_ok(#[trigger] rest[k], q, num_digits, log_basis, d_a) by {
            assert(rest[k] == rows[k]);
        }
    }
}

/// The message for a first failing block `b`.
proof fn lemma_blocks_error_at(
    blocks: Seq<Seq<Seq<u64>>>,
    num_digits: nat,
    log_basis: nat,
    q: u64,
    d_a: nat,
    d_b: nat,
    b: int,
)
    requires
        0 <= b < blocks.len(),
        forall|k: int| 0 <= k < b ==> block_ok(#[trigger] blocks[k], num_digits, log_basis, q, d_a, d_b),
        !block_ok(blocks[b], num_digits, log_basis, q, d_a, d_b),
    ensures
        blocks_error(blocks, num_digits, log_basis, q, d_a, d_b) == block_error(
            blocks[b],
            num_digits,
            log_basis,
            q,
            d_a,
            d_b,
        ),
    decreases blocks.len(),
{
    let rest = blocks.drop_last();
    if blocks.len() > b + 1 {
        assert(rest[b] == blocks[b]);
        assert(!blocks_ok(rest, num_digits, log_basis, q, d_a, d_b));
        assert forall|k: int| 0 <= k < b implies block_ok(#[trigger] rest[k], num_digits, log_basis, q, d_a, d_b) by {
            assert(rest[k] == blocks[k]);
        }
        lemma_blocks_error_at(rest, num_digits, log_basis, q, d_a, d_b, b);
    } else {
        assert forall|k: int| 0 <= k < rest.len() implies block_ok(#[trigger] rest[k], num_digits, log_basis, q, d_a, d_b) by {
            assert(rest[k] == blocks[k]);
        }
    }
}

/// The blocks of a decomposable prefix each decompose.
proof fn lemma_prefix_blocks_ok(
    blocks: Seq<Seq<Seq<u64>>>,
    num_digits: nat,
    log_basis: nat,
    q: u64,
    d_a: nat,
    d_b: nat,
    b: int,
)
    requires
        0 <= b <= blocks.len(),
        decompose_ok(blocks.take(b), num_digits, log_basis, q, d_a, d_b),
    ensures
        forall|k: int| 0 <= k < b ==> block_ok(#[trigger] blocks[k], num_digits, log_basis, q, d_a, d_b),
{
    assert forall|k: int| 0 <= k < b implies block_ok(#[trigger] blocks[k], num_digits, log_basis, q, d_a, d_b) by {
        let pre = blocks.take(b);
        assert(pre[k] == blocks[k]);
        assert forall|r: int| 0 <= r < blocks[k].len() implies row_ok(#[trigger] blocks[k][r], q, num_digits, log_basis, d_a) by {
            assert(pre[k][r] == blocks[k][r]);
            assert forall|t: int| 0 <= t < blocks[k][r].len() implies coeff_representable(#[trigger] blocks[k][r][t], q, num_digits, log_basis) by {
                assert(pre[k][r][t] == blocks[k][r][t]);
            }
        }
    }
}

/// Digit planes of `d_b` digits per block: `rows * num_digits * d_a / d_b`.
pub open spec fn decomposed_block_sizes(
    blocks: Seq<Seq<Seq<u64>>>,
    num_digits: nat,
    d_a: nat,
    d_b: nat,
) -> Seq<usize> {
    Seq::new(
        blocks.len(),
        |b: int| ((blocks[b].len() * (num_digits * d_a)) / d_b) as usize,
    )
}

/// Decompose the inner rows of every block into `num_digits` balanced
/// digits in base `2^log_basis` and regroup them into digit planes of the
/// outer ring dimension `d_b`.
///
/// Each row is laid out digit plane after digit plane, each plane holding
/// that digit of every coefficient in order; every coefficient is first
/// centered and then split into balanced digits.
pub fn decompose_commit_blocks(
    blocks: &Vec<Vec<Vec<u64>>>,
    num_digits: usize,
    log_basis: u32,
    modulus: u64,
    d_a: usize,
    d_b: usize,
) -> (r: Result<DigitBlocks, AkitaError>)
    ensures
        r is Ok <==> decompose_ok(
            blocks_view(blocks@),
            num_digits as nat,
            log_basis as nat,
            modulus,
            d_a as nat,
            d_b as nat,
        ),
        r matches Ok(digits) ==> digits.digits@ == blocks_digits(
            blocks_view(blocks@),
            modulus,
            num_digits as nat,
            log_basis as nat,
        ) && digits.block_sizes@ == decomposed_block_sizes(
            blocks_view(blocks@),
            num_digits as nat,
            d_a as nat,
            d_b as nat,
        ) && digits.ring_dim == d_b,
        r matches Err(e) ==> setup_error_reads(
            e,
            decompose_error(
                blocks_view(blocks@),
                num_digits as nat,
                log_basis as nat,
                modulus,
                d_a as nat,
                d_b as nat,
            ),
        ),
{
    let ghost bv = blocks_view(blocks@);
    let ghost nd = num_digits as nat;
    let ghost lb = log_basis as nat;
    if log_basis == 0 || log_basis > 8 {
        return Err(invalid_setup("digit basis out of range"));
    }
    if modulus == 0 {
        return Err(invalid_setup("field modulus must be positive"));
    }
    if d_b == 0 {
        return Err(invalid_setup("outer ring dimension must be positive"));
    }
    let per_row = match num_digits.checked_mul(d_a) {
        Some(v) => v,
        None => {
            return Err(invalid_setup("digit plane count overflow"));
        },
    };
    let mut digits: Vec<i8> = Vec::new();
    let mut sizes: Vec<usize> = Vec::new();
    let mut b: usize = 0;
    while b < blocks.len()
        invariant
            bv == blocks_view(blocks@),
            nd == num_digits,
            lb == log_basis,
            1 <= log_basis <= 8,
            modulus >= 1,
            d_b >= 1,
            per_row == num_digits * d_a,
            b <= blocks.len(),
            digits@ == blocks_digits(bv.take(b as int), modulus, nd, lb),
            sizes@ == decomposed_block_sizes(bv.take(b as int), nd, d_a as nat, d_b as nat),
            decompose_ok(bv.take(b as int), nd, lb, modulus, d_a as nat, d_b as nat),
        decreases blocks.len() - b,
    {
        let rows = &blocks[b];
        let ghost rv = bv[b as int];
        proof {
            assert(rv == rows@.map_values(|row: Vec<u64>| row@));
        }
        proof {
            lemma_prefix_blocks_ok(bv, nd, lb, modulus, d_a as nat, d_b as nat, b as int);
        }
        let block_coeffs = match rows.len().checked_mul(per_row) {
            Some(v) => v,
            None => {
                proof {
                    lemma_blocks_error_at(bv, nd, lb, modulus, d_a as nat, d_b as nat, b as int);
                    assert(!decompose_ok(bv, nd, lb, modulus, d_a as nat, d_b as nat)) by {
                        assert(bv[b as int].len() == rows.len());
                    }
                }
                return Err(invalid_setup("digit plane count overflow"));
            },
        };
        if block_coeffs % d_b != 0 {
            proof {
                lemma_blocks_error_at(bv, nd, lb, modulus, d_a as nat, d_b as nat, b as int);
                assert(!decompose_ok(bv, nd, lb, modulus, d_a as nat, d_b as nat)) by {
                    assert(bv[b as int].len() == rows.len());
                }
            }
            return Err(invalid_setup("inner digits do not tile the outer ring dimension"));
        }
        let ghost block_start = digits@;
        let mut r: usize = 0;
        while r < rows.len()
            invariant
                bv == blocks_view(blocks@),
                b < blocks.len(),
                *rows == blocks@[b as int],
                rv == bv[b as int],
                rv == rows@.map_values(|row: Vec<u64>| row@),
                nd == num_digits,
                lb == log_basis,
                1 <= log_basis <= 8,
                modulus >= 1,
                r <= rows.len(),
                per_row == num_digits * d_a,
                block_coeffs == rows.len() * per_row,
                block_coeffs % d_b == 0,
                d_b >= 1,
                forall|k: int|
                    0 <= k < b ==> block_ok(#[trigger] bv[k], nd, lb, modulus, d_a as nat, d_b as nat),
                digits@ == block_start + block_digits(rv.take(r as int), modulus, nd, lb),
                forall|rr: int| 0 <= rr < r ==> #[trigger] rv[rr].len() == d_a,
                forall|rr: int, t: int|
                    0 <= rr < r && 0 <= t < rv[rr].len() ==> coeff_representable(
                        #[trigger] rv[rr][t],
                        modulus,
                        nd,
                        lb,
                    ),
            decreases rows.len() - r,
        {
            let row = &rows[r];
            proof {
                assert(rv[r as int] == row@);
            }
            if row.len() != d_a {
                proof {
                    assert forall|k: int| 0 <= k < r implies row_ok(
                        #[trigger] rv[k],
                        modulus,
                        nd,
                        lb,
                        d_a as nat,
                    ) by {}
                    lemma_rows_error_at(rv, modulus, nd, lb, d_a as nat, r as int);
                    lemma_blocks_error_at(bv, nd, lb, modulus, d_a as nat, d_b as nat, b as int);
                    assert(!decompose_ok(bv, nd, lb, modulus, d_a as nat, d_b as nat)) by {
                        assert(bv[b as int][r as int].len() != d_a);
                    }
                }
                return Err(invalid_setup("inner row has the wrong ring dimension"));
            }
            let mut coeff_digits: Vec<Vec<i8>> = Vec::new();
            let mut t: usize = 0;
            while t < row.len()
                invariant
                    bv == blocks_view(blocks@),
                    b < blocks.len(),
                    *rows == blocks@[b as int],
                    rv == bv[b as int],
                    r < rows.len(),
                    row@ == rv[r as int],
                    nd == num_digits,
                    lb == log_basis,
                    1 <= log_basis <= 8,
                    modulus >= 1,
                    t <= row.len(),
                    row@.len() == d_a,
                    per_row == num_digits * d_a,
                    block_coeffs == rows.len() * per_row,
                    block_coeffs % d_b == 0,
                    d_b >= 1,
                    forall|k: int|
                        0 <= k < b ==> block_ok(#[trigger] bv[k], nd, lb, modulus, d_a as nat, d_b as nat),
                    forall|rr: int| 0 <= rr < r ==> #[trigger] rv[rr].len() == d_a,
                    forall|rr: int, tt: int|
                        0 <= rr < r && 0 <= tt < rv[rr].len() ==> coeff_representable(
                            #[trigger] rv[rr][tt],
                            modulus,
                            nd,
                            lb,
                        ),
                    coeff_digits@.len() == t,
                    forall|tt: int|
                        0 <= tt < t ==> coeff_representable(#[trigger] row@[tt], modulus, nd, lb),
                    forall|tt: int|
                        0 <= tt < t ==> (#[trigger] coeff_digits@[tt])@.len() == num_digits,
                    forall|tt: int, j: int|
                        0 <= tt < t && 0 <= j < num_digits ==> #[trigger] coeff_digits@[tt]@[j]
                            == coeff_digit(row@[tt], modulus, nd, lb, j),
                decreases row.len() - t,
            {
                match decompose_coefficient(row[t], modulus, num_digits, log_basis) {
                    Some(ds) => {
                        coeff_digits.push(ds);
                    },
                    None => {
                        proof {
                            assert(!decompose_ok(bv, nd, lb, modulus, d_a as nat, d_b as nat)) by {
                                assert(bv[b as int][r as int][t as int] == row@[t as int]);
                            }
                            assert forall|k: int| 0 <= k < r implies row_ok(
                                #[trigger] rv[k],
                                modulus,
                                nd,
                                lb,
                                d_a as nat,
                            ) by {}
                            assert(!row_ok(rv[r as int], modulus, nd, lb, d_a as nat));
                            lemma_rows_error_at(rv, modulus, nd, lb, d_a as nat, r as int);
                            lemma_blocks_error_at(
                                bv,
                                nd,
                                lb,
                                modulus,
                                d_a as nat,
                                d_b as nat,
                                b as int,
                            );
                        }
                        return Err(invalid_setup("inner coefficient exceeds the digit range"));
                    },
                }
                t = t + 1;
            }
            let ghost row_start = digits@;
            let len = row.len();
            let mut j: usize = 0;
            while j < num_digits
                invariant
                    len == row@.len(),
                    coeff_digits@.len() == len,
                    forall|tt: int|
                        0 <= tt < len ==> (#[trigger] coeff_digits@[tt])@.len() == num_digits,
                    forall|tt: int, jj: int|
                        0 <= tt < len && 0 <= jj < num_digits ==> #[trigger] coeff_digits@[tt]@[jj]
                            == coeff_digit(row@[tt], modulus, nd, lb, jj),
                    nd == num_digits,
                    j <= num_digits,
                    digits@ == row_start + row_digits(row@, modulus, nd, lb).take(j * len),
                    j * len <= num_digits * len,
                decreases num_digits - j,
            {
                proof {
                    assert((j + 1) * len <= num_digits * len) by (nonlinear_arith)
                        requires j + 1 <= num_digits, len >= 0;
                }
                let mut t2: usize = 0;
                while t2 < len
                    invariant
                        len == row@.len(),
                        coeff_digits@.len() == len,
                        forall|tt: int|
                            0 <= tt < len ==> (#[trigger] coeff_digits@[tt])@.len() == num_digits,
                        forall|tt: int, jj: int|
                            0 <= tt < len && 0 <= jj < num_digits ==> #[trigger] coeff_digits@[tt]@[jj] == coeff_digit(
                                row@[tt],
                                modulus,
                                nd,
                                lb,
                                jj,
                            ),
                        nd == num_digits,
                        j < num_digits,
                        t2 <= len,
                        digits@ == row_start + row_digits(row@, modulus, nd, lb).take(
                            j * len + t2,
                        ),
                        (j + 1) * len <= num_digits * len,
                    decreases len - t2,
                {
                    let digit = coeff_digits[t2][j];
                    proof {
                        let i = j * len + t2;
                        let rd = row_digits(row@, modulus, nd, lb);
                        assert(i < num_digits * len) by (nonlinear_arith)
                            requires i == j * len + t2, t2 < len, (j + 1) * len <= num_digits * len;
                        assert(i % (len as int) == t2 && i / (len as int) == j) by (nonlinear_arith)
                            requires i == j * len + t2, 0 <= t2 < len;
                        assert(rd[i] == digit);
                        assert(rd.take(i + 1) =~= rd.take(i).push(digit));
                    }
                    digits.push(digit);
                    t2 = t2 + 1;
                }
                proof {
                    assert((j + 1) * len == j * len + len) by (nonlinear_arith);
                }
                j = j + 1;
            }
            proof {
                let rd = row_digits(row@, modulus, nd, lb);
                assert(rd.take(num_digits * len) =~= rd);
                let f = |row: Seq<u64>| row_digits(row, modulus, nd, lb);
                assert(rv.take(r + 1) =~= rv.take(r as int).push(row@));
                assert(rv.take(r + 1).map_values(f) =~= rv.take(r as int).map_values(f).push(rd));
                rv.take(r as int).map_values(f).lemma_flatten_push(rd);
            }
            r = r + 1;
        }
        proof {
            assert(rv.take(r as int) =~= rv);
            let f = |rows: Seq<Seq<u64>>| block_digits(rows, modulus, nd, lb);
            assert(bv.take(b + 1) =~= bv.take(b as int).push(rv));
            assert(bv.take(b + 1).map_values(f) =~= bv.take(b as int).map_values(f).push(
                block_digits(rv, modulus, nd, lb),
            ));
            bv.take(b as int).map_values(f).lemma_flatten_push(block_digits(rv, modulus, nd, lb));
        }
        sizes.push(block_coeffs / d_b);
        proof {
            assert(sizes@ =~= decomposed_block_sizes(bv.take(b + 1), nd, d_a as nat, d_b as nat));
            assert(decompose_ok(bv.take(b + 1), nd, lb, modulus, d_a as nat, d_b as nat)) by {
                assert forall|bb: int, rr: int|
                    0 <= bb < b + 1 && 0 <= rr < bv.take(b + 1)[bb].len() implies #[trigger] bv.take(
                    b + 1,
                )[bb][rr].len() == d_a by {
                    if bb < b {
                        assert(bv.take(b + 1)[bb] == bv.take(b as int)[bb]);
                    }
                }
                assert forall|bb: int, rr: int, tt: int|
                    0 <= bb < b + 1 && 0 <= rr < bv.take(b + 1)[bb].len() && 0 <= tt < bv.take(
                        b + 1,
                    )[bb][rr].len() implies coeff_representable(
                    #[trigger] bv.take(b + 1)[bb][rr][tt],
                    modulus,
                    nd,
                    lb,
                ) by {
                    if bb < b {
                        assert(bv.take(b + 1)[bb] == bv.take(b as int)[bb]);
                    }
                }
                assert forall|bb: int|
                    0 <= bb < b + 1 implies #[trigger] bv.take(b + 1)[bb].len() * (nd * (
                    d_a as nat)) <= usize::MAX && (bv.take(b + 1)[bb].len() * (nd * (d_a as nat)))
                    % (d_b as nat) == 0 by {
                    if bb < b {
                        assert(bv.take(b + 1)[bb] == bv.take(b as int)[bb]);
                    }
                }
            }
        }
        b = b + 1;
    }
    proof {
        assert(bv.take(b as int) =~= bv);
    }
    Ok(DigitBlocks { digits, block_sizes: sizes, ring_dim: d_b })
}

} // verus!
