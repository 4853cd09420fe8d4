//! Error type shared by every validation and commitment routine.
use vstd::prelude::*;
use vstd::string::to_string_from_display_ensures;

verus! {

/// Errors reported by parameter validation and the commitment stages.
#[derive(Debug, Clone)]
pub enum AkitaError {
    /// The parameters, the request or a backend result disagree with the
    /// committed geometry.
    InvalidSetup(String),
    /// A proof or compression output is malformed.
    InvalidProof,
}

impl AkitaError {
    /// Whether this error is an `InvalidSetup` rejection.
    pub fn is_invalid_setup(&self) -> (r: bool)
        ensures
            r == (*self is InvalidSetup),
    {
        match self {
            AkitaError::InvalidSetup(_) => true,
            AkitaError::InvalidProof => false,
        }
    }
}

/// `e` is an `InvalidSetup` rejection whose message reads `text`.
pub open spec fn setup_error_reads(e: AkitaError, text: Seq<char>) -> bool {
    e matches AkitaError::InvalidSetup(m) && m@ == text
}

/// `r` is an `InvalidSetup` rejection whose message reads `text`.
pub open spec fn fails_with<T>(r: Result<T, AkitaError>, text: Seq<char>) -> bool {
    r matches Err(e) && setup_error_reads(e, text)
}

/// `text` is what std's `to_string` renders for `n`.
pub open spec fn usize_text(n: usize, text: Seq<char>) -> bool {
    exists|s: String| #[trigger] to_string_from_display_ensures::<usize>(&n, s) && s@ == text
}

/// The concatenation of the given texts, in order.
pub open spec fn concat_texts(parts: Seq<&str>) -> Seq<char>
    decreases parts.len(),
{
    if parts.len() == 0 {
        Seq::empty()
    } else {
        concat_texts(parts.drop_last()) + parts.last()@
    }
}

/// The texts joined with `", "` between neighbours.
pub open spec fn comma_joined(texts: Seq<Seq<char>>) -> Seq<char>
    decreases texts.len(),
{
    if texts.len() == 0 {
        Seq::empty()
    } else if texts.len() == 1 {
        texts[0]
    } else {
        comma_joined(texts.drop_last()) + ", "@ + texts.last()
    }
}

/// `text` is the bracketed, comma-separated rendering of `lens`.
pub open spec fn usize_list_text(lens: Seq<usize>, text: Seq<char>) -> bool {
    exists|texts: Seq<Seq<char>>|
        #![trigger comma_joined(texts)]
        texts.len() == lens.len() && (forall|k: int|
            0 <= k < lens.len() ==> usize_text(lens[k], #[trigger] texts[k])) && text == "["@
            + comma_joined(texts) + "]"@
}

/// `e` reports an inner witness with `actual` rows where `expected` were
/// due.
pub open spec fn inner_row_count_reads(e: AkitaError, actual: usize, expected: usize) -> bool {
    exists|a: Seq<char>, x: Seq<char>|
        #![trigger usize_text(actual, a), usize_text(expected, x)]
        usize_text(actual, a) && usize_text(expected, x) && setup_error_reads(
            e,
            "backend returned "@ + a + " inner commitment rows, expected "@ + x,
        )
}

/// `e` reports `actual` inner witnesses returned for `expected` sources.
pub open spec fn inner_group_len_reads(e: AkitaError, actual: usize, expected: usize) -> bool {
    exists|a: Seq<char>, x: Seq<char>|
        #![trigger usize_text(actual, a), usize_text(expected, x)]
        usize_text(actual, a) && usize_text(expected, x) && setup_error_reads(
            e,
            "backend returned "@ + a + " inner commitments for "@ + x + " sources"@,
        )
}

/// `e` reports that `n_ring_elems * d_a` overflows `usize`.
pub open spec fn flat_len_overflow_reads(e: AkitaError, n_ring_elems: usize, d_a: usize) -> bool {
    exists|n: Seq<char>, d: Seq<char>|
        #![trigger usize_text(n_ring_elems, n), usize_text(d_a, d)]
        usize_text(n_ring_elems, n) && usize_text(d_a, d) && setup_error_reads(
            e,
            "n_ring_elems="@ + n + " * d_a="@ + d + " overflows usize"@,
        )
}

/// `e` reports backend B row batches of lengths `lens` where
/// `expected_batches` batches of `n_b` rows were due.
pub open spec fn b_row_shape_reads(
    e: AkitaError,
    lens: Seq<usize>,
    expected_batches: usize,
    n_b: usize,
) -> bool {
    exists|shape: Seq<char>, x: Seq<char>, n: Seq<char>|
        #![trigger usize_list_text(lens, shape), usize_text(expected_batches, x), usize_text(n_b, n)]
        usize_list_text(lens, shape) && usize_text(expected_batches, x) && usize_text(n_b, n)
            && setup_error_reads(
            e,
            "backend returned B commitment row shape "@ + shape + ", expected "@ + x
                + " batches of "@ + n + " rows"@,
        )
}

/// Two errors are the same rejection: both `InvalidProof`, or both
/// `InvalidSetup` with messages that read alike.
pub open spec fn same_error(e1: AkitaError, e2: AkitaError) -> bool {
    match (e1, e2) {
        (AkitaError::InvalidProof, AkitaError::InvalidProof) => true,
        (AkitaError::InvalidSetup(m1), AkitaError::InvalidSetup(m2)) => m1@ == m2@,
        _ => false,
    }
}

/// std renders each `usize` as one text.
pub open spec fn usize_text_is_functional() -> bool {
    forall|n: usize, a: Seq<char>, b: Seq<char>|
        #[trigger] usize_text(n, a) && #[trigger] usize_text(n, b) ==> a == b
}

/// Two group-length rejections for the same counts read alike.
pub proof fn lemma_group_len_same(e1: AkitaError, e2: AkitaError, actual: usize, expected: usize)
    requires
        usize_text_is_functional(),
        inner_group_len_reads(e1, actual, expected),
        inner_group_len_reads(e2, actual, expected),
    ensures
        same_error(e1, e2),
{
    let (a1, x1) = choose|a: Seq<char>, x: Seq<char>|
        usize_text(actual, a) && usize_text(expected, x) && setup_error_reads(
            e1,
            "backend returned "@ + a + " inner commitments for "@ + x + " sources"@,
        );
    let (a2, x2) = choose|a: Seq<char>, x: Seq<char>|
        usize_text(actual, a) && usize_text(expected, x) && setup_error_reads(
            e2,
            "backend returned "@ + a + " inner commitments for "@ + x + " sources"@,
        );
    assert(a1 == a2 && x1 == x2);
}

/// Two row-count rejections for the same counts read alike.
pub proof fn lemma_row_count_same(e1: AkitaError, e2: AkitaError, actual: usize, expected: usize)
    requires
        usize_text_is_functional(),
        inner_row_count_reads(e1, actual, expected),
        inner_row_count_reads(e2, actual, expected),
    ensures
        same_error(e1, e2),
{
    let (a1, x1) = choose|a: Seq<char>, x: Seq<char>|
        usize_text(actual, a) && usize_text(expected, x) && setup_error_reads(
            e1,
            "backend returned "@ + a + " inner commitment rows, expected "@ + x,
        );
    let (a2, x2) = choose|a: Seq<char>, x: Seq<char>|
        usize_text(actual, a) && usize_text(expected, x) && setup_error_reads(
            e2,
            "backend returned "@ + a + " inner commitment rows, expected "@ + x,
        );
    assert(a1 == a2 && x1 == x2);
}

/// Two row-shape rejections for the same lengths read alike.
pub proof fn lemma_b_row_shape_same(
    e1: AkitaError,
    e2: AkitaError,
    lens: Seq<usize>,
    expected_batches: usize,
    n_b: usize,
)
    requires
        usize_text_is_functional(),
        b_row_shape_reads(e1, lens, expected_batches, n_b),
        b_row_shape_reads(e2, lens, expected_batches, n_b),
    ensures
        same_error(e1, e2),
{
    let (s1, x1, n1) = choose|shape: Seq<char>, x: Seq<char>, n: Seq<char>|
        usize_list_text(lens, shape) && usize_text(expected_batches, x) && usize_text(n_b, n)
            && setup_error_reads(
            e1,
            "backend returned B commitment row shape "@ + shape + ", expected "@ + x
                + " batches of "@ + n + " rows"@,
        );
    let (s2, x2, n2) = choose|shape: Seq<char>, x: Seq<char>, n: Seq<char>|
        usize_list_text(lens, shape) && usize_text(expected_batches, x) && usize_text(n_b, n)
            && setup_error_reads(
            e2,
            "backend returned B commitment row shape "@ + shape + ", expected "@ + x
                + " batches of "@ + n + " rows"@,
        );
    let t1 = choose|texts: Seq<Seq<char>>|
        texts.len() == lens.len() && (forall|k: int|
            0 <= k < lens.len() ==> usize_text(lens[k], #[trigger] texts[k])) && s1 == "["@
            + comma_joined(texts) + "]"@;
    let t2 = choose|texts: Seq<Seq<char>>|
        texts.len() == lens.len() && (forall|k: int|
            0 <= k < lens.len() ==> usize_text(lens[k], #[trigger] texts[k])) && s2 == "["@
            + comma_joined(texts) + "]"@;
    assert(t1 =~= t2) by {
        assert forall|k: int| 0 <= k < t1.len() implies t1[k] == t2[k] by {
            assert(usize_text(lens[k], t1[k]));
            assert(usize_text(lens[k], t2[k]));
        }
    }
    assert(x1 == x2 && n1 == n2);
}

/// An `InvalidSetup` error carrying a fixed message.
pub fn invalid_setup(message: &str) -> (e: AkitaError)
    ensures
        setup_error_reads(e, message@),
{
    AkitaError::InvalidSetup(String::from_str(message))
}

/// The rejection of multi-group params at a scalar-only call site named
/// `context`.
pub fn scalar_level_error(context: &str) -> (e: AkitaError)
    ensures
        setup_error_reads(e, context@ + " requires scalar root level params"@),
{
    let mut message = String::from_str(context);
    message.append(" requires scalar root level params");
    AkitaError::InvalidSetup(message)
}

/// The concatenation of `parts`, in order.
fn join_text(parts: &[&str]) -> (r: String)
    ensures
        r@ == concat_texts(parts@),
{
    let mut text = String::new();
    let mut i: usize = 0;
    while i < parts.len()
        invariant
            i <= parts.len(),
            text@ == concat_texts(parts@.take(i as int)),
        decreases parts.len() - i,
    {
        proof {
            assert(parts@.take(i + 1).drop_last() =~= parts@.take(i as int));
            assert(parts@.take(i + 1).last() == parts@[i as int]);
        }
        text.append(parts[i]);
        i = i + 1;
    }
    proof {
        assert(parts@.take(parts.len() as int) =~= parts@);
    }
    text
}

/// The rejection of a flat field length `n_ring_elems * d_a` that
/// overflows `usize`.
pub fn flat_len_overflow_error(n_ring_elems: usize, d_a: usize) -> (e: AkitaError)
    ensures
        flat_len_overflow_reads(e, n_ring_elems, d_a),
{
    let n = n_ring_elems.to_string();
    let d = d_a.to_string();
    let parts = ["n_ring_elems=", n.as_str(), " * d_a=", d.as_str(), " overflows usize"];
    let message = join_text(&parts);
    proof {
        assert(usize_text(n_ring_elems, n@));
        assert(usize_text(d_a, d@));
        reveal_with_fuel(concat_texts, 6);
        assert(message@ =~= "n_ring_elems="@ + n@ + " * d_a="@ + d@ + " overflows usize"@);
    }
    AkitaError::InvalidSetup(message)
}

/// The rejection of a backend inner witness with `actual` rows where the
/// geometry expects `expected`.
pub fn inner_row_count_error(actual: usize, expected: usize) -> (e: AkitaError)
    ensures
        inner_row_count_reads(e, actual, expected),
{
    let a = actual.to_string();
    let x = expected.to_string();
    let parts = ["backend returned ", a.as_str(), " inner commitment rows, expected ", x.as_str()];
    let message = join_text(&parts);
    proof {
        assert(usize_text(actual, a@));
        assert(usize_text(expected, x@));
        reveal_with_fuel(concat_texts, 5);
        assert(message@ =~= "backend returned "@ + a@ + " inner commitment rows, expected "@ + x@);
    }
    AkitaError::InvalidSetup(message)
}

/// The rejection of an inner witness block with `len` rows where `n_a`
/// are expected.
pub fn inner_block_rows_error(len: usize, block_idx: usize, n_a: usize) -> (e: AkitaError)
    ensures
        exists|l: Seq<char>, b: Seq<char>, n: Seq<char>|
            #![trigger usize_text(len, l), usize_text(block_idx, b), usize_text(n_a, n)]
            usize_text(len, l) && usize_text(block_idx, b) && usize_text(n_a, n)
                && setup_error_reads(
                e,
                "backend returned "@ + l + " A rows for inner commitment block "@ + b
                    + ", expected "@ + n,
            ),
{
    let l = len.to_string();
    let b = block_idx.to_string();
    let n = n_a.to_string();
    let parts = [
        "backend returned ",
        l.as_str(),
        " A rows for inner commitment block ",
        b.as_str(),
        ", expected ",
        n.as_str(),
    ];
    let message = join_text(&parts);
    proof {
        assert(usize_text(len, l@));
        assert(usize_text(block_idx, b@));
        assert(usize_text(n_a, n@));
        reveal_with_fuel(concat_texts, 7);
        assert(message@ =~= "backend returned "@ + l@ + " A rows for inner commitment block "@
            + b@ + ", expected "@ + n@);
    }
    AkitaError::InvalidSetup(message)
}

/// The rejection of a backend that returned `actual` inner witnesses for
/// `expected` sources.
pub fn inner_group_len_error(actual: usize, expected: usize) -> (e: AkitaError)
    ensures
        inner_group_len_reads(e, actual, expected),
{
    let a = actual.to_string();
    let x = expected.to_string();
    let parts = ["backend returned ", a.as_str(), " inner commitments for ", x.as_str(), " sources"];
    let message = join_text(&parts);
    proof {
        assert(usize_text(actual, a@));
        assert(usize_text(expected, x@));
        reveal_with_fuel(concat_texts, 6);
        assert(message@ =~= "backend returned "@ + a@ + " inner commitments for "@ + x@
            + " sources"@);
    }
    AkitaError::InvalidSetup(message)
}

/// The rejection of backend B row batches whose lengths `lens` differ from
/// `expected_batches` batches of `n_b` rows.
pub fn b_row_shape_error(lens: &Vec<usize>, expected_batches: usize, n_b: usize) -> (e: AkitaError)
    ensures
        b_row_shape_reads(e, lens@, expected_batches, n_b),
{
    let mut shape = String::from_str("[");
    let ghost mut texts: Seq<Seq<char>> = Seq::empty();
    let mut i: usize = 0;
    while i < lens.len()
        invariant
            i <= lens.len(),
            texts.len() == i,
            forall|k: int| 0 <= k < i ==> usize_text(lens@[k], #[trigger] texts[k]),
            shape@ == "["@ + comma_joined(texts),
        decreases lens.len() - i,
    {
        let ghost before = shape@;
        if i > 0 {
            shape.append(", ");
        }
        let len = lens[i].to_string();
        shape.append(len.as_str());
        proof {
            assert(usize_text(lens@[i as int], len@));
            let next = texts.push(len@);
            assert(next.drop_last() =~= texts);
            if i == 0 {
                assert(comma_joined(texts) =~= Seq::<char>::empty());
                assert(comma_joined(next) == len@);
                assert(shape@ =~= "["@ + comma_joined(next));
            } else {
                assert(comma_joined(next) == comma_joined(texts) + ", "@ + len@);
                assert(shape@ =~= "["@ + comma_joined(next));
            }
            texts = next;
        }
        i = i + 1;
    }
    shape.append("]");
    proof {
        assert(usize_list_text(lens@, shape@));
    }
    let x = expected_batches.to_string();
    let n = n_b.to_string();
    let parts = [
        "backend returned B commitment row shape ",
        shape.as_str(),
        ", expected ",
        x.as_str(),
        " batches of ",
        n.as_str(),
        " rows",
    ];
    let message = join_text(&parts);
    proof {
        assert(usize_text(expected_batches, x@));
        assert(usize_text(n_b, n@));
        reveal_with_fuel(concat_texts, 8);
        assert(message@ =~= "backend returned B commitment row shape "@ + shape@ + ", expected "@
            + x@ + " batches of "@ + n@ + " rows"@);
    }
    AkitaError::InvalidSetup(message)
}

} // verus!
