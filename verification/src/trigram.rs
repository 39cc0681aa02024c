//! Case-insensitive cosine similarity between two strings over byte
//! unigram and bigram counts.
//!
//! The real-valued score of `a` against `b` is
//! `dot(a, b) / sqrt(sum_sq(a) * sum_sq(b))` where `dot` multiplies the
//! occurrence counts of matching n-grams and `sum_sq(s) == dot(s, s)`;
//! an empty operand scores exactly zero. Everything here is computed on
//! the integer parts `dot` and `sum_sq`, which determine the score
//! exactly; order comparisons between scores are done by
//! cross-multiplication, so no rounding is ever involved.

use vstd::prelude::*;

verus! {

/// Number of distinct n-gram codes: 256 unigrams followed by 256 * 256
/// bigrams.
pub const GRAM_CODES: usize = 65792;

/// Longest lower-cased byte string the scorer accepts; the bound keeps
/// every intermediate product inside `u64` and `u128` machine arithmetic.
pub const MAX_TEXT_LEN: usize = 8192;

/// Upper bound on `dot` and `sum_sq` for inputs within `MAX_TEXT_LEN`:
/// `GRAM_CODES * MAX_TEXT_LEN * MAX_TEXT_LEN`.
pub const PART_BOUND: u64 = 4_415_226_380_288;

/// The byte string `str::to_lowercase` produces for the given characters;
/// it depends on the characters alone.
pub uninterp spec fn lower_bytes_of(s: Seq<char>) -> Seq<u8>;

/// Relies on `str::to_lowercase`: the result is the lowercase equivalent
/// of the input, determined by its characters alone; it is empty exactly
/// when the input is empty (every character maps to at least one
/// character). `String::into_bytes` only converts the result to bytes.
#[verifier::external_body]
pub(crate) fn lower_bytes(s: &str) -> (r: Vec<u8>)
    ensures
        r@ == lower_bytes_of(s@),
        r@.len() == 0 <==> s@.len() == 0,
{
    s.to_lowercase().into_bytes()
}

/// How many times byte `b` occurs in `s`.
pub open spec fn count_uni(s: Seq<u8>, b: u8) -> nat
    decreases s.len(),
{
    if s.len() == 0 {
        0
    } else {
        count_uni(s.drop_last(), b) + if s.last() == b {
            1nat
        } else {
            0nat
        }
    }
}

/// How many times the adjacent byte pair `(b0, b1)` occurs in `s`.
pub open spec fn count_bi(s: Seq<u8>, b0: u8, b1: u8) -> nat
    decreases s.len(),
{
    if s.len() < 2 {
        0
    } else {
        count_bi(s.drop_last(), b0, b1) + if s[s.len() - 2] == b0 && s.last() == b1 {
            1nat
        } else {
            0nat
        }
    }
}

/// Occurrence count of the n-gram with code `g`: codes below 256 are
/// unigrams, the rest encode the bigram `(hi, lo)` as `256 + hi * 256 + lo`.
pub open spec fn gram_count(s: Seq<u8>, g: int) -> nat {
    if 0 <= g < 256 {
        count_uni(s, g as u8)
    } else if 256 <= g < 65792 {
        count_bi(s, (((g - 256) / 256) as u8), (((g - 256) % 256) as u8))
    } else {
        0
    }
}

/// Sum over the first `g` n-gram codes of the product of the two
/// occurrence counts.
pub open spec fn dot_upto(a: Seq<u8>, b: Seq<u8>, g: int) -> nat
    decreases g,
{
    if g <= 0 {
        0
    } else {
        dot_upto(a, b, g - 1) + gram_count(a, g - 1) * gram_count(b, g - 1)
    }
}

/// Unnormalized dot product of the n-gram count vectors of `a` and `b`.
pub open spec fn dot(a: Seq<u8>, b: Seq<u8>) -> nat {
    dot_upto(a, b, 65792)
}

/// Sum of the squared n-gram counts of `s`: the squared Euclidean norm of
/// its count vector.
pub open spec fn sum_sq(s: Seq<u8>) -> nat {
    dot(s, s)
}

/// The score of `a` against query `q` is at least that of `b` against `q`.
/// With `d1 = dot(a, q)`, `s1 = sum_sq(a)` and likewise `d2`, `s2`, the
/// scores are `d1 / sqrt(s1 * sq)` and `d2 / sqrt(s2 * sq)` (zero whenever
/// a factor under the root is zero), so for values arising from real
/// strings the comparison is `d2 == 0`, or both positive and
/// `d1^2 * s2 >= d2^2 * s1` after squaring and cancelling `sq`.
pub open spec fn score_ge_nums(d1: nat, s1: nat, d2: nat, s2: nat) -> bool {
    d2 == 0 || s2 == 0 || (s1 > 0 && d1 * d1 * s2 >= d2 * d2 * s1)
}

/// `a` scores at least as high as `b` against the query `q`.
pub open spec fn score_ge(a: Seq<u8>, b: Seq<u8>, q: Seq<u8>) -> bool {
    score_ge_nums(dot(a, q), sum_sq(a), dot(b, q), sum_sq(b))
}

/// A count never exceeds the length of the string.
proof fn lemma_count_uni_le_len(s: Seq<u8>, b: u8)
    ensures
        count_uni(s, b) <= s.len(),
    decreases s.len(),
{
    if s.len() > 0 {
        lemma_count_uni_le_len(s.drop_last(), b);
    }
}

proof fn lemma_count_bi_le_len(s: Seq<u8>, b0: u8, b1: u8)
    ensures
        count_bi(s, b0, b1) <= s.len(),
    decreases s.len(),
{
    if s.len() >= 2 {
        lemma_count_bi_le_len(s.drop_last(), b0, b1);
    }
}

proof fn lemma_gram_count_le_len(s: Seq<u8>, g: int)
    ensures
        gram_count(s, g) <= s.len(),
{
    if 0 <= g < 256 {
        lemma_count_uni_le_len(s, g as u8);
    } else if 256 <= g < 65792 {
        lemma_count_bi_le_len(s, (((g - 256) / 256) as u8), (((g - 256) % 256) as u8));
    }
}

/// The dot product is symmetric in its two operands.
pub proof fn lemma_dot_symmetric(a: Seq<u8>, b: Seq<u8>)
    ensures
        dot(a, b) == dot(b, a),
{
    lemma_dot_upto_symmetric(a, b, 65792);
}

/// The case-insensitive score of two strings is symmetric: the dot
/// product over their lower-cased bytes does not depend on the order of
/// the operands (and the two norms merely swap).
pub proof fn lemma_score_symmetric(a: Seq<char>, b: Seq<char>)
    ensures
        dot(lower_bytes_of(a), lower_bytes_of(b)) == dot(lower_bytes_of(b), lower_bytes_of(a)),
{
    lemma_dot_symmetric(lower_bytes_of(a), lower_bytes_of(b));
}

proof fn lemma_dot_upto_symmetric(a: Seq<u8>, b: Seq<u8>, g: int)
    ensures
        dot_upto(a, b, g) == dot_upto(b, a, g),
    decreases g,
{
    if g > 0 {
        lemma_dot_upto_symmetric(a, b, g - 1);
    }
}

/// An empty string has no n-grams, so its counts, its dot product with
/// anything, and its squared norm are all zero.
pub proof fn lemma_dot_empty(a: Seq<u8>, b: Seq<u8>)
    requires
        a.len() == 0,
    ensures
        dot(a, b) == 0,
        sum_sq(a) == 0,
{
    lemma_dot_upto_empty(a, b, 65792);
    lemma_dot_upto_empty(a, a, 65792);
}

proof fn lemma_dot_upto_empty(a: Seq<u8>, b: Seq<u8>, g: int)
    requires
        a.len() == 0,
    ensures
        dot_upto(a, b, g) == 0,
    decreases g,
{
    if g > 0 {
        lemma_dot_upto_empty(a, b, g - 1);
        assert(gram_count(a, g - 1) == 0);
    }
}

proof fn lemma_dot_upto_monotonic(a: Seq<u8>, b: Seq<u8>, g1: int, g2: int)
    requires
        g1 <= g2,
    ensures
        dot_upto(a, b, g1) <= dot_upto(a, b, g2),
    decreases g2 - g1,
{
    if g1 < g2 {
        lemma_dot_upto_monotonic(a, b, g1, g2 - 1);
    }
}

proof fn lemma_count_uni_last_pos(s: Seq<u8>)
    requires
        s.len() > 0,
    ensures
        count_uni(s, s.last()) >= 1,
{
}

/// A non-empty string has a strictly positive squared norm; identical
/// strings have `dot(a, a) == sum_sq(a)` by definition, so the similarity
/// score of a non-empty string with itself is exactly one.
pub proof fn lemma_sum_sq_positive(s: Seq<u8>)
    requires
        s.len() > 0,
    ensures
        sum_sq(s) >= 1,
{
    let b = s.last();
    let g = b as int;
    lemma_count_uni_last_pos(s);
    let c = gram_count(s, g);
    assert(c >= 1);
    assert(dot_upto(s, s, g + 1) == dot_upto(s, s, g) + c * c);
    assert(c * c >= 1) by (nonlinear_arith)
        requires
            c >= 1,
    ;
    lemma_dot_upto_monotonic(s, s, g + 1, 65792);
}

proof fn lemma_cs_step(d: nat, a: nat, b: nat, x: nat, y: nat)
    requires
        d * d <= a * b,
    ensures
        (d + x * y) * (d + x * y) <= (a + x * x) * (b + y * y),
{
    let ay2 = a * (y * y);
    let bx2 = b * (x * x);
    let dxy = d * (x * y);
    // (ay2 - bx2)^2 >= 0
    assert(ay2 * ay2 + bx2 * bx2 >= 2 * (ay2 * bx2)) by (nonlinear_arith);
    assert(ay2 * bx2 == (a * b) * ((x * y) * (x * y))) by (nonlinear_arith)
        requires
            ay2 == a * (y * y),
            bx2 == b * (x * x),
    ;
    assert((a * b) * ((x * y) * (x * y)) >= (d * d) * ((x * y) * (x * y))) by (nonlinear_arith)
        requires
            d * d <= a * b,
    ;
    assert((d * d) * ((x * y) * (x * y)) == dxy * dxy) by (nonlinear_arith)
        requires
            dxy == d * (x * y),
    ;
    // so (ay2 + bx2)^2 >= 4 * dxy^2 = (2 * dxy)^2
    assert((ay2 + bx2) * (ay2 + bx2) >= (2 * dxy) * (2 * dxy)) by (nonlinear_arith)
        requires
            ay2 * ay2 + bx2 * bx2 >= 2 * (ay2 * bx2),
            ay2 * bx2 >= dxy * dxy,
    ;
    // both sides non-negative, so the roots compare the same way
    assert(ay2 + bx2 >= 2 * dxy) by (nonlinear_arith)
        requires
            (ay2 + bx2) * (ay2 + bx2) >= (2 * dxy) * (2 * dxy),
    ;
    assert((d + x * y) * (d + x * y) == d * d + 2 * dxy + (x * y) * (x * y)) by (nonlinear_arith)
        requires
            dxy == d * (x * y),
    ;
    assert((a + x * x) * (b + y * y) == a * b + ay2 + bx2 + (x * x) * (y * y)) by (nonlinear_arith)
        requires
            ay2 == a * (y * y),
            bx2 == b * (x * x),
    ;
    assert((x * y) * (x * y) == (x * x) * (y * y)) by (nonlinear_arith);
}

proof fn lemma_cauchy_schwarz_upto(a: Seq<u8>, b: Seq<u8>, g: int)
    ensures
        dot_upto(a, b, g) * dot_upto(a, b, g) <= dot_upto(a, a, g) * dot_upto(b, b, g),
    decreases g,
{
    if g > 0 {
        lemma_cauchy_schwarz_upto(a, b, g - 1);
        lemma_cs_step(
            dot_upto(a, b, g - 1),
            dot_upto(a, a, g - 1),
            dot_upto(b, b, g - 1),
            gram_count(a, g - 1),
            gram_count(b, g - 1),
        );
    }
}

/// Cauchy-Schwarz: the squared dot product never exceeds the product of
/// the squared norms, so the score `dot / sqrt(sum_sq(a) * sum_sq(b))`
/// lies in the interval from zero to one.
pub proof fn lemma_cauchy_schwarz(a: Seq<u8>, b: Seq<u8>)
    ensures
        dot(a, b) * dot(a, b) <= sum_sq(a) * sum_sq(b),
{
    lemma_cauchy_schwarz_upto(a, b, 65792);
}

/// Identical non-empty strings score exactly one: a string's dot product
/// with itself is its squared norm by definition, and that norm is
/// positive, so `dot / sqrt(sum_sq * sum_sq)` is exactly `1`. This holds
/// for every byte string, with no length bound.
pub proof fn lemma_score_identity(a: Seq<u8>)
    requires
        a.len() > 0,
    ensures
        dot(a, a) == sum_sq(a),
        sum_sq(a) >= 1,
{
    lemma_sum_sq_positive(a);
}

/// A string with a zero squared norm is empty, so its dot product with
/// anything is zero as well.
pub proof fn lemma_sum_sq_zero(s: Seq<u8>, q: Seq<u8>)
    requires
        sum_sq(s) == 0,
    ensures
        s.len() == 0,
        dot(s, q) == 0,
{
    if s.len() > 0 {
        lemma_sum_sq_positive(s);
    }
    lemma_dot_empty(s, q);
}

/// Occurrence table of every n-gram of `s`, indexed by gram code.
fn gram_table(s: &Vec<u8>) -> (t: Vec<u64>)
    ensures
        t@.len() == 65792,
        forall|g: int| 0 <= g < 65792 ==> t@[g] == gram_count(s@, g),
{
    let mut t: Vec<u64> = Vec::new();
    let mut z: usize = 0;
    while z < GRAM_CODES
        invariant
            t@.len() == z,
            z <= 65792,
            forall|g: int| 0 <= g < z ==> t@[g] == 0,
        decreases 65792 - z,
    {
        t.push(0);
        z += 1;
    }
    let mut i: usize = 0;
    while i < s.len()
        invariant
            t@.len() == 65792,
            i <= s@.len(),
            forall|b: u8| t@[b as int] == count_uni(s@.take(i as int), b),
            forall|g: int| 256 <= g < 65792 ==> t@[g] == 0,
        decreases s@.len() - i,
    {
        let b = s[i];
        proof {
            lemma_count_uni_le_len(s@.take(i as int), b);
            assert(s@.take(i as int + 1).drop_last() =~= s@.take(i as int));
            assert(s@.take(i as int + 1).last() == s@[i as int]);
        }
        let old_count = t[b as usize];
        t.set(b as usize, old_count + 1);
        proof {
            assert forall|bb: u8| t@[bb as int] == count_uni(s@.take(i as int + 1), bb) by {
                if bb == b {
                    assert(count_uni(s@.take(i as int + 1), bb) == count_uni(
                        s@.take(i as int),
                        bb,
                    ) + 1);
                } else {
                    assert(count_uni(s@.take(i as int + 1), bb) == count_uni(
                        s@.take(i as int),
                        bb,
                    ));
                }
            }
        }
        i += 1;
    }
    proof {
        assert(s@.take(s@.len() as int) =~= s@);
    }
    if s.len() < 2 {
        proof {
            assert forall|g: int| 256 <= g < 65792 implies t@[g] == gram_count(s@, g) by {
                assert(count_bi(s@, (((g - 256) / 256) as u8), (((g - 256) % 256) as u8)) == 0);
            }
        }
        return t;
    }
    let mut j: usize = 1;
    while j < s.len()
        invariant
            t@.len() == 65792,
            1 <= j <= s@.len(),
            s@.len() >= 2,
            forall|b: u8| t@[b as int] == count_uni(s@, b),
            forall|b0: u8, b1: u8|
                t@[256 + b0 as int * 256 + b1 as int] == count_bi(s@.take(j as int), b0, b1),
        decreases s@.len() - j,
    {
        let b0 = s[j - 1];
        let b1 = s[j];
        let g: usize = 256 + (b0 as usize) * 256 + (b1 as usize);
        proof {
            lemma_count_bi_le_len(s@.take(j as int), b0, b1);
            assert(s@.take(j as int + 1).drop_last() =~= s@.take(j as int));
            assert(s@.take(j as int + 1).last() == s@[j as int]);
            assert(s@.take(j as int + 1)[j - 1] == s@[j - 1]);
        }
        let old_count = t[g];
        t.set(g, old_count + 1);
        proof {
            assert forall|c0: u8, c1: u8|
                #![trigger count_bi(s@.take(j as int + 1), c0, c1)]
                t@[256 + c0 as int * 256 + c1 as int] == count_bi(
                    s@.take(j as int + 1),
                    c0,
                    c1,
                ) by {
                let tk = s@.take(j as int + 1);
                assert(tk.len() == j + 1 >= 2);
                assert(tk[tk.len() - 2] == s@[j - 1]);
                if c0 == b0 && c1 == b1 {
                    assert(count_bi(tk, c0, c1) == count_bi(s@.take(j as int), c0, c1) + 1);
                } else {
                    assert(count_bi(tk, c0, c1) == count_bi(s@.take(j as int), c0, c1));
                    assert(256 + c0 as int * 256 + c1 as int != 256 + b0 as int * 256 + b1 as int);
                }
            }
        }
        j += 1;
    }
    proof {
        assert(s@.take(s@.len() as int) =~= s@);
        assert forall|g: int| 0 <= g < 65792 implies t@[g] == gram_count(s@, g) by {
            if 256 <= g < 65792 {
                let b0 = ((g - 256) / 256) as u8;
                let b1 = ((g - 256) % 256) as u8;
                assert(256 + b0 as int * 256 + b1 as int == g);
            }
        }
    }
    t
}

/// Unnormalized dot product of the n-gram count vectors of `a` and `b`.
pub fn ngram_dot(a: &Vec<u8>, b: &Vec<u8>) -> (r: u64)
    requires
        a@.len() <= 8192,
        b@.len() <= 8192,
    ensures
        r == dot(a@, b@),
        r <= PART_BOUND,
{
    let ta = gram_table(a);
    let tb = gram_table(b);
    let mut acc: u64 = 0;
    let mut g: usize = 0;
    while g < GRAM_CODES
        invariant
            ta@.len() == 65792,
            tb@.len() == 65792,
            forall|h: int| 0 <= h < 65792 ==> ta@[h] == gram_count(a@, h),
            forall|h: int| 0 <= h < 65792 ==> tb@[h] == gram_count(b@, h),
            a@.len() <= 8192,
            b@.len() <= 8192,
            g <= 65792,
            acc == dot_upto(a@, b@, g as int),
            acc <= g * 67108864,
        decreases 65792 - g,
    {
        proof {
            lemma_gram_count_le_len(a@, g as int);
            lemma_gram_count_le_len(b@, g as int);
        }
        let ca = ta[g];
        let cb = tb[g];
        proof {
            assert(ca * cb <= 67108864) by (nonlinear_arith)
                requires
                    ca <= 8192,
                    cb <= 8192,
            ;
        }
        acc = acc + ca * cb;
        g += 1;
    }
    acc
}

/// Exact comparison of two scores against a common query, from their
/// integer parts; `score_ge_nums` says what it decides.
pub fn score_ge_parts(d1: u64, s1: u64, d2: u64, s2: u64) -> (r: bool)
    requires
        d1 <= PART_BOUND,
        s1 <= PART_BOUND,
        d2 <= PART_BOUND,
        s2 <= PART_BOUND,
    ensures
        r == score_ge_nums(d1 as nat, s1 as nat, d2 as nat, s2 as nat),
{
    if d2 == 0 || s2 == 0 {
        true
    } else if s1 == 0 {
        false
    } else {
        proof {
            assert((d1 as nat) * (d1 as nat) <= 4_415_226_380_288nat * 4_415_226_380_288nat
                && (d1 as nat) * (d1 as nat) * (s2 as nat) <= 4_415_226_380_288nat
                * 4_415_226_380_288nat * 4_415_226_380_288nat && (d2 as nat) * (d2 as nat)
                <= 4_415_226_380_288nat * 4_415_226_380_288nat && (d2 as nat) * (d2 as nat) * (
            s1 as nat) <= 4_415_226_380_288nat * 4_415_226_380_288nat * 4_415_226_380_288nat)
                by (nonlinear_arith)
                requires
                    d1 <= PART_BOUND,
                    s1 <= PART_BOUND,
                    d2 <= PART_BOUND,
                    s2 <= PART_BOUND,
            ;
        }
        let lhs: u128 = (d1 as u128) * (d1 as u128) * (s2 as u128);
        let rhs: u128 = (d2 as u128) * (d2 as u128) * (s1 as u128);
        lhs >= rhs
    }
}

/// `score_ge_nums` is total on parts that come from real strings (a zero
/// norm forces a zero dot product).
pub proof fn lemma_score_ge_total(d1: nat, s1: nat, d2: nat, s2: nat)
    requires
        s1 == 0 ==> d1 == 0,
        s2 == 0 ==> d2 == 0,
    ensures
        score_ge_nums(d1, s1, d2, s2) || score_ge_nums(d2, s2, d1, s1),
{
}

/// `score_ge_nums` is transitive on parts that come from real strings.
pub proof fn lemma_score_ge_trans(d1: nat, s1: nat, d2: nat, s2: nat, d3: nat, s3: nat)
    requires
        s1 == 0 ==> d1 == 0,
        s2 == 0 ==> d2 == 0,
        s3 == 0 ==> d3 == 0,
        score_ge_nums(d1, s1, d2, s2),
        score_ge_nums(d2, s2, d3, s3),
    ensures
        score_ge_nums(d1, s1, d3, s3),
{
    if d3 == 0 || s3 == 0 {
    } else {
        // d3 > 0 and s3 > 0, so the second premise gives s2 > 0 and
        // d2^2 * s3 >= d3^2 * s2 > 0, hence d2 > 0.
        assert(s2 > 0 && d2 * d2 * s3 >= d3 * d3 * s2);
        assert(d3 * d3 * s2 > 0) by (nonlinear_arith)
            requires
                d3 > 0,
                s2 > 0,
        ;
        assert(d2 > 0) by (nonlinear_arith)
            requires
                d2 * d2 * s3 >= d3 * d3 * s2,
                d3 * d3 * s2 > 0,
        ;
        assert(s1 > 0 && d1 * d1 * s2 >= d2 * d2 * s1);
        assert(d1 * d1 * s3 >= d3 * d3 * s1) by (nonlinear_arith)
            requires
                d1 * d1 * s2 >= d2 * d2 * s1,
                d2 * d2 * s3 >= d3 * d3 * s2,
                s2 > 0,
                d2 > 0,
        ;
    }
}

/// The integer parts `(dot(a, b), sum_sq(a), sum_sq(b))` of the score of
/// the two byte strings, already lower-cased by the caller; `None` when an
/// input is longer than `MAX_TEXT_LEN`.
pub fn score_components(a: &Vec<u8>, b: &Vec<u8>) -> (r: Option<(u64, u64, u64)>)
    ensures
        a@.len() <= 8192 && b@.len() <= 8192 ==> (r matches Some(t) && t.0 == dot(a@, b@) && t.1
            == sum_sq(a@) && t.2 == sum_sq(b@)),
        !(a@.len() <= 8192 && b@.len() <= 8192) ==> r is None,
        // the score the parts determine lies in [0, 1]
        (r matches Some(t) ==> t.0 * t.0 <= t.1 * t.2),
{
    proof {
        lemma_cauchy_schwarz(a@, b@);
    }
    if a.len() > MAX_TEXT_LEN || b.len() > MAX_TEXT_LEN {
        return None;
    }
    let d = ngram_dot(a, b);
    let sa = ngram_dot(a, a);
    let sb = ngram_dot(b, b);
    Some((d, sa, sb))
}

/// The integer parts of the case-insensitive score of `a` against `b`:
/// `(dot, sum_sq(a), sum_sq(b))` over the lower-cased bytes of the two
/// strings. The score itself is `dot / sqrt(sum_sq(a) * sum_sq(b))`, and
/// zero when either operand is empty. `None` when a lower-cased input is
/// longer than `MAX_TEXT_LEN`.
pub fn score_parts(a: &str, b: &str) -> (r: Option<(u64, u64, u64)>)
    ensures
        lower_bytes_of(a@).len() <= 8192 && lower_bytes_of(b@).len() <= 8192 ==> (r matches Some(t)
            && t.0 == dot(lower_bytes_of(a@), lower_bytes_of(b@)) && t.1 == sum_sq(
            lower_bytes_of(a@),
        ) && t.2 == sum_sq(lower_bytes_of(b@))),
        !(lower_bytes_of(a@).len() <= 8192 && lower_bytes_of(b@).len() <= 8192) ==> r is None,
        // an empty operand forces a zero dot product, hence a zero score
        a@.len() == 0 || b@.len() == 0 ==> (r matches Some(t) ==> t.0 == 0),
        // a non-empty string against itself: dot equals both norms, which
        // are positive, so the score is exactly one
        a@ == b@ && a@.len() > 0 ==> (r matches Some(t) ==> t.0 == t.1 && t.0 == t.2 && t.0 >= 1),
        // the score the parts determine lies in [0, 1]
        (r matches Some(t) ==> t.0 * t.0 <= t.1 * t.2),
{
    let la = lower_bytes(a);
    let lb = lower_bytes(b);
    proof {
        if la@.len() == 0 {
            lemma_dot_empty(la@, lb@);
        }
        if lb@.len() == 0 {
            lemma_dot_empty(lb@, la@);
            lemma_dot_symmetric(la@, lb@);
        }
        if a@ == b@ && a@.len() > 0 {
            lemma_sum_sq_positive(la@);
        }
    }
    score_components(&la, &lb)
}

} // verus!
