//! Lossless transport encoding of a store.
//!
//! Every number is written as exactly twenty decimal digits, zero-padded;
//! a name is written as its character count followed by its characters,
//! raw. The text is the counter, the record count, and then each record as
//! identifier, marks count, the marks, name length, name. Parsing is exact:
//! a text decodes to a store if and only if it is such an encoding, so
//! decoding an encoding gives back the very store.

use vstd::prelude::*;
use crate::records::{MarksRecords, Record, RecV, StoreV, rec_v, recs_v};
use crate::command::{all_digits, val_of};
use crate::text::{str_chars, chars_to_string, digit_char, digit_val};

verus! {

pub open spec fn pow10(w: nat) -> nat
    decreases w,
{
    if w == 0 {
        1
    } else {
        10 * pow10((w - 1) as nat)
    }
}

/// `n` in decimal, zero-padded to exactly `w` digits (modulo `10^w`).
pub open spec fn dec_w(n: nat, w: nat) -> Seq<char>
    decreases w,
{
    if w == 0 {
        Seq::<char>::empty()
    } else {
        dec_w(n / 10, (w - 1) as nat).push(digit_char(n % 10))
    }
}

proof fn lemma_digit_roundtrip(d: nat)
    requires
        d < 10,
    ensures
        digit_val(digit_char(d)) == d,
{
}

proof fn lemma_dec_w_wf(n: nat, w: nat)
    ensures
        dec_w(n, w).len() == w,
        all_digits(dec_w(n, w)),
    decreases w,
{
    if w > 0 {
        lemma_dec_w_wf(n / 10, (w - 1) as nat);
        lemma_digit_roundtrip(n % 10);
        let s = dec_w(n, w);
        assert forall|i: int| 0 <= i < s.len() implies crate::text::is_digit(#[trigger] s[i]) by {
            if i < w - 1 {
                assert(s[i] == dec_w(n / 10, (w - 1) as nat)[i]);
            }
        }
    }
}

proof fn lemma_val_dec_w(n: nat, w: nat)
    requires
        n < pow10(w),
    ensures
        val_of(dec_w(n, w)) == n,
    decreases w,
{
    if w == 0 {
        assert(n == 0);
    } else {
        assert(n / 10 < pow10((w - 1) as nat)) by (nonlinear_arith)
            requires
                n < 10 * pow10((w - 1) as nat),
        ;
        lemma_val_dec_w(n / 10, (w - 1) as nat);
        lemma_dec_w_wf(n / 10, (w - 1) as nat);
        lemma_digit_roundtrip(n % 10);
        let s = dec_w(n, w);
        assert(s.drop_last() =~= dec_w(n / 10, (w - 1) as nat));
        assert(val_of(s) == (n / 10) * 10 + n % 10);
    }
}

proof fn lemma_pow10_20()
    ensures
        pow10(20) == 100_000_000_000_000_000_000,
{
    assert(pow10(0) == 1);
    assert(pow10(1) == 10);
    assert(pow10(2) == 100);
    assert(pow10(3) == 1000);
    assert(pow10(4) == 10000);
    assert(pow10(5) == 100000);
    assert(pow10(6) == 1000000);
    assert(pow10(7) == 10000000);
    assert(pow10(8) == 100000000);
    assert(pow10(9) == 1000000000);
    assert(pow10(10) == 10000000000);
    assert(pow10(11) == 100000000000);
    assert(pow10(12) == 1000000000000);
    assert(pow10(13) == 10000000000000);
    assert(pow10(14) == 100000000000000);
    assert(pow10(15) == 1000000000000000);
    assert(pow10(16) == 10000000000000000);
    assert(pow10(17) == 100000000000000000);
    assert(pow10(18) == 1000000000000000000);
    assert(pow10(19) == 10000000000000000000);
    assert(pow10(20) == 100000000000000000000);
}

/// The number encoded at `pos`: twenty digits, or nothing.
pub open spec fn parse_num(s: Seq<char>, pos: int) -> Option<nat> {
    if 0 <= pos && pos + 20 <= s.len() && all_digits(s.subrange(pos, pos + 20)) {
        Some(val_of(s.subrange(pos, pos + 20)))
    } else {
        None
    }
}

pub open spec fn render_marks(marks: Seq<u32>) -> Seq<char>
    decreases marks.len(),
{
    if marks.len() == 0 {
        Seq::<char>::empty()
    } else {
        dec_w(marks.first() as nat, 20) + render_marks(marks.drop_first())
    }
}

pub open spec fn render_rec(r: RecV) -> Seq<char> {
    dec_w(r.id as nat, 20) + dec_w(r.marks.len(), 20) + render_marks(r.marks) + dec_w(
        r.name.len(),
        20,
    ) + r.name
}

pub open spec fn render_recs(recs: Seq<RecV>) -> Seq<char>
    decreases recs.len(),
{
    if recs.len() == 0 {
        Seq::<char>::empty()
    } else {
        render_rec(recs.first()) + render_recs(recs.drop_first())
    }
}

/// The transport encoding of a store.
pub open spec fn render_store(v: StoreV) -> Seq<char> {
    dec_w(v.next_id as nat, 20) + dec_w(v.recs.len(), 20) + render_recs(v.recs)
}

/// `k` consecutive encoded marks from `pos`, with the position after them.
pub open spec fn parse_marks_at(s: Seq<char>, pos: int, k: nat) -> Option<(Seq<u32>, int)>
    decreases k,
{
    if k == 0 {
        Some((Seq::<u32>::empty(), pos))
    } else {
        match parse_num(s, pos) {
            Some(v) => if v <= 0xFFFF_FFFF {
                match parse_marks_at(s, pos + 20, (k - 1) as nat) {
                    Some(t) => Some((seq![v as u32] + t.0, t.1)),
                    None => None,
                }
            } else {
                None
            },
            None => None,
        }
    }
}

/// One encoded record from `pos`, with the position after it.
pub open spec fn parse_rec_at(s: Seq<char>, pos: int) -> Option<(RecV, int)> {
    match parse_num(s, pos) {
        Some(id) => if id <= 0xFFFF_FFFF {
            match parse_num(s, pos + 20) {
                Some(mcount) => match parse_marks_at(s, pos + 40, mcount) {
                    Some(t) => {
                        let (ms, p2) = t;
                        match parse_num(s, p2) {
                            Some(namelen) => if p2 + 20 + namelen <= s.len() {
                                Some(
                                    (
                                        RecV {
                                            id: id as u32,
                                            name: s.subrange(p2 + 20, p2 + 20 + namelen),
                                            marks: ms,
                                        },
                                        p2 + 20 + namelen,
                                    ),
                                )
                            } else {
                                None
                            },
                            None => None,
                        }
                    },
                    None => None,
                },
                None => None,
            }
        } else {
            None
        },
        None => None,
    }
}

/// `k` consecutive encoded records from `pos`.
pub open spec fn parse_recs_at(s: Seq<char>, pos: int, k: nat) -> Option<(Seq<RecV>, int)>
    decreases k,
{
    if k == 0 {
        Some((Seq::<RecV>::empty(), pos))
    } else {
        match parse_rec_at(s, pos) {
            Some(t) => match parse_recs_at(s, t.1, (k - 1) as nat) {
                Some(u) => Some((seq![t.0] + u.0, u.1)),
                None => None,
            },
            None => None,
        }
    }
}

/// The store a transport text encodes, if it is well-formed: counter (at
/// least one), record count, then exactly that many records and nothing
/// after them.
pub open spec fn parse_store(s: Seq<char>) -> Option<StoreV> {
    match parse_num(s, 0) {
        Some(next) => if 1 <= next <= 0xFFFF_FFFF {
            match parse_num(s, 20) {
                Some(cnt) => match parse_recs_at(s, 40, cnt) {
                    Some(t) => if t.1 == s.len() {
                        Some(StoreV { next_id: next as u32, recs: t.0 })
                    } else {
                        None
                    },
                    None => None,
                },
                None => None,
            }
        } else {
            None
        },
        None => None,
    }
}

// ------------------------------------------------------------------
// round trip: parsing an encoding gives back the encoded store
// ------------------------------------------------------------------

proof fn lemma_parse_num_render(s: Seq<char>, pos: int, n: nat)
    requires
        n < pow10(20),
        0 <= pos,
        pos + 20 <= s.len(),
        s.subrange(pos, pos + 20) == dec_w(n, 20),
    ensures
        parse_num(s, pos) == Some(n),
{
    lemma_dec_w_wf(n, 20);
    lemma_val_dec_w(n, 20);
}

proof fn lemma_marks_roundtrip(s: Seq<char>, pos: int, marks: Seq<u32>)
    requires
        0 <= pos,
        pos + 20 * marks.len() <= s.len(),
        s.subrange(pos, pos + 20 * marks.len()) == render_marks(marks),
    ensures
        parse_marks_at(s, pos, marks.len()) == Some((marks, pos + 20 * marks.len())),
    decreases marks.len(),
{
    lemma_pow10_20();
    if marks.len() > 0 {
        let whole = s.subrange(pos, pos + 20 * marks.len());
        let head = dec_w(marks.first() as nat, 20);
        lemma_dec_w_wf(marks.first() as nat, 20);
        lemma_render_marks_len(marks);
        lemma_render_marks_len(marks.drop_first());
        assert(s.subrange(pos, pos + 20) =~= head) by {
            assert forall|i: int| 0 <= i < 20 implies s.subrange(pos, pos + 20)[i] == head[i] by {
                assert(whole[i] == (head + render_marks(marks.drop_first()))[i]);
            }
        }
        lemma_parse_num_render(s, pos, marks.first() as nat);
        assert(s.subrange(pos + 20, pos + 20 + 20 * marks.drop_first().len()) =~= render_marks(
            marks.drop_first(),
        )) by {
            assert(render_marks(marks) == head + render_marks(marks.drop_first()));
            assert forall|i: int|
                0 <= i < 20 * marks.drop_first().len() implies s.subrange(
                pos + 20,
                pos + 20 + 20 * marks.drop_first().len(),
            )[i] == render_marks(marks.drop_first())[i] by {
                assert((head + render_marks(marks.drop_first()))[20 + i] == render_marks(
                    marks.drop_first(),
                )[i]);
                assert(whole[20 + i] == render_marks(marks.drop_first())[i]);
                assert(whole[20 + i] == s[pos + 20 + i]);
                assert(s.subrange(pos + 20, pos + 20 + 20 * marks.drop_first().len())[i] == s[pos
                    + 20 + i]);
            }
        }
        lemma_marks_roundtrip(s, pos + 20, marks.drop_first());
        assert(seq![marks.first()] + marks.drop_first() =~= marks);
    }
}

proof fn lemma_render_marks_len(marks: Seq<u32>)
    ensures
        render_marks(marks).len() == 20 * marks.len(),
    decreases marks.len(),
{
    if marks.len() > 0 {
        lemma_dec_w_wf(marks.first() as nat, 20);
        lemma_render_marks_len(marks.drop_first());
    }
}

proof fn lemma_rec_roundtrip(s: Seq<char>, pos: int, r: RecV)
    requires
        0 <= pos,
        r.marks.len() < pow10(20),
        r.name.len() < pow10(20),
        pos + render_rec(r).len() <= s.len(),
        s.subrange(pos, pos + render_rec(r).len()) == render_rec(r),
    ensures
        parse_rec_at(s, pos) == Some((r, pos + render_rec(r).len())),
{
    lemma_pow10_20();
    let whole = s.subrange(pos, pos + render_rec(r).len());
    lemma_dec_w_wf(r.id as nat, 20);
    lemma_dec_w_wf(r.marks.len(), 20);
    lemma_dec_w_wf(r.name.len(), 20);
    lemma_render_marks_len(r.marks);
    let ml = 20 * r.marks.len();
    let rr = render_rec(r);
    assert(rr.len() == 60 + ml + r.name.len());
    // the identifier
    assert(s.subrange(pos, pos + 20) =~= dec_w(r.id as nat, 20)) by {
        assert forall|i: int| 0 <= i < 20 implies s.subrange(pos, pos + 20)[i] == dec_w(
            r.id as nat,
            20,
        )[i] by {
            assert(whole[i] == rr[i]);
        }
    }
    lemma_parse_num_render(s, pos, r.id as nat);
    // the marks count
    assert(s.subrange(pos + 20, pos + 40) =~= dec_w(r.marks.len(), 20)) by {
        assert forall|i: int| 0 <= i < 20 implies s.subrange(pos + 20, pos + 40)[i] == dec_w(
            r.marks.len(),
            20,
        )[i] by {
            let ab = dec_w(r.id as nat, 20) + dec_w(r.marks.len(), 20);
            assert(ab[20 + i] == dec_w(r.marks.len(), 20)[i]);
            assert(rr[20 + i] == ab[20 + i]);
            assert(whole[20 + i] == rr[20 + i]);
            assert(s.subrange(pos + 20, pos + 40)[i] == whole[20 + i]);
        }
    }
    lemma_parse_num_render(s, pos + 20, r.marks.len());
    // the marks
    assert(s.subrange(pos + 40, pos + 40 + ml) =~= render_marks(r.marks)) by {
        assert forall|i: int| 0 <= i < ml implies s.subrange(pos + 40, pos + 40 + ml)[i]
            == render_marks(r.marks)[i] by {
            let abc = dec_w(r.id as nat, 20) + dec_w(r.marks.len(), 20) + render_marks(r.marks);
            assert(abc[40 + i] == render_marks(r.marks)[i]);
            assert(rr[40 + i] == abc[40 + i]);
            assert(whole[40 + i] == rr[40 + i]);
            assert(s.subrange(pos + 40, pos + 40 + ml)[i] == whole[40 + i]);
        }
    }
    lemma_marks_roundtrip(s, pos + 40, r.marks);
    // the name length
    assert(s.subrange(pos + 40 + ml, pos + 60 + ml) =~= dec_w(r.name.len(), 20)) by {
        assert forall|i: int|
            0 <= i < 20 implies s.subrange(pos + 40 + ml, pos + 60 + ml)[i] == dec_w(
            r.name.len(),
            20,
        )[i] by {
            let abc = dec_w(r.id as nat, 20) + dec_w(r.marks.len(), 20) + render_marks(r.marks);
            let abcd = abc + dec_w(r.name.len(), 20);
            assert(abcd[40 + ml + i] == dec_w(r.name.len(), 20)[i]);
            assert(rr[40 + ml + i] == abcd[40 + ml + i]);
            assert(whole[40 + ml + i] == rr[40 + ml + i]);
            assert(s.subrange(pos + 40 + ml, pos + 60 + ml)[i] == whole[40 + ml + i]);
        }
    }
    lemma_parse_num_render(s, pos + 40 + ml, r.name.len());
    // the name itself
    assert(s.subrange(pos + 60 + ml, pos + 60 + ml + r.name.len()) =~= r.name) by {
        assert forall|i: int|
            0 <= i < r.name.len() implies s.subrange(pos + 60 + ml, pos + 60 + ml + r.name.len())[i]
            == r.name[i] by {
            let abcd = dec_w(r.id as nat, 20) + dec_w(r.marks.len(), 20) + render_marks(r.marks)
                + dec_w(r.name.len(), 20);
            assert(rr[60 + ml + i] == r.name[i]);
            assert(whole[60 + ml + i] == rr[60 + ml + i]);
            assert(s.subrange(pos + 60 + ml, pos + 60 + ml + r.name.len())[i] == whole[60 + ml
                + i]);
        }
    }
}

proof fn lemma_recs_roundtrip(s: Seq<char>, pos: int, recs: Seq<RecV>)
    requires
        0 <= pos,
        forall|i: int|
            0 <= i < recs.len() ==> (#[trigger] recs[i]).marks.len() < pow10(20) && recs[i].name.len()
                < pow10(20),
        pos + render_recs(recs).len() <= s.len(),
        s.subrange(pos, pos + render_recs(recs).len()) == render_recs(recs),
    ensures
        parse_recs_at(s, pos, recs.len()) == Some((recs, pos + render_recs(recs).len())),
    decreases recs.len(),
{
    if recs.len() > 0 {
        let whole = s.subrange(pos, pos + render_recs(recs).len());
        let head = render_rec(recs.first());
        let tail = render_recs(recs.drop_first());
        assert(render_recs(recs) == head + tail);
        assert(s.subrange(pos, pos + head.len()) =~= head) by {
            assert forall|i: int| 0 <= i < head.len() implies s.subrange(pos, pos + head.len())[i]
                == head[i] by {
                assert(whole[i] == (head + tail)[i]);
            }
        }
        lemma_rec_roundtrip(s, pos, recs.first());
        assert(s.subrange(pos + head.len(), pos + head.len() + tail.len()) =~= tail) by {
            assert forall|i: int|
                0 <= i < tail.len() implies s.subrange(pos + head.len(), pos + head.len()
                + tail.len())[i] == tail[i] by {
                assert(whole[head.len() + i] == (head + tail)[head.len() + i]);
            }
        }
        assert forall|i: int|
            0 <= i < recs.drop_first().len() implies (#[trigger] recs.drop_first()[i]).marks.len()
            < pow10(20) && recs.drop_first()[i].name.len() < pow10(20) by {
            assert(recs.drop_first()[i] == recs[i + 1]);
        }
        lemma_recs_roundtrip(s, pos + head.len(), recs.drop_first());
        assert(seq![recs.first()] + recs.drop_first() =~= recs);
    }
}

/// Decoding an encoding gives back the very store: for any store value
/// with a live counter (and sizes any machine can hold), parsing its
/// rendering succeeds and yields it unchanged.
pub proof fn lemma_transport_round_trip(v: StoreV)
    requires
        v.next_id >= 1,
        v.recs.len() < pow10(20),
        forall|i: int|
            0 <= i < v.recs.len() ==> (#[trigger] v.recs[i]).marks.len() < pow10(20)
                && v.recs[i].name.len() < pow10(20),
    ensures
        parse_store(render_store(v)) == Some(v),
{
    lemma_pow10_20();
    let s = render_store(v);
    lemma_dec_w_wf(v.next_id as nat, 20);
    lemma_dec_w_wf(v.recs.len(), 20);
    assert(s == dec_w(v.next_id as nat, 20) + dec_w(v.recs.len(), 20) + render_recs(v.recs));
    assert(s.subrange(0, 20) =~= dec_w(v.next_id as nat, 20));
    lemma_parse_num_render(s, 0, v.next_id as nat);
    assert(s.subrange(20, 40) =~= dec_w(v.recs.len(), 20));
    lemma_parse_num_render(s, 20, v.recs.len());
    assert(s.subrange(40, 40 + render_recs(v.recs).len() as int) =~= render_recs(v.recs));
    lemma_recs_roundtrip(s, 40, v.recs);
}

// ------------------------------------------------------------------
// executable encoding and decoding
// ------------------------------------------------------------------

/// What made a transport text undecodable.
#[derive(PartialEq, Eq, Structural, Clone, Copy, Debug)]
pub enum DecodeFault {
    /// A twenty-digit number was cut short or held a non-digit.
    BadNumber,
    /// The identifier counter was zero or too large.
    CounterOutOfRange,
    /// An identifier or a mark did not fit its type.
    ValueOutOfRange,
    /// A name ran past the end of the text.
    BadLength,
    /// Characters remained after the last record.
    TrailingText,
}

/// Failure of a transport operation.
#[derive(Debug)]
pub enum TransportError {
    /// An internal serialization fault; the encoder never produces one.
    SerializationFault,
    /// The text is not a transport encoding; carries the offending text
    /// and the fault found.
    DeserializationError { input: String, cause: DecodeFault },
}

/// Appends `n` zero-padded to `w` digits.
fn push_num_w(n: u64, w: usize, out: &mut Vec<char>)
    ensures
        final(out)@ == old(out)@ + dec_w(n as nat, w as nat),
    decreases w,
{
    if w == 0 {
        proof {
            assert(final(out)@ =~= old(out)@ + dec_w(n as nat, 0));
        }
    } else {
        push_num_w(n / 10, w - 1, out);
        out.push(crate::text::digit_char_x(n % 10));
        proof {
            assert(final(out)@ =~= old(out)@ + dec_w(n as nat, w as nat));
        }
    }
}

proof fn lemma_pow10_monotonic(a: nat, b: nat)
    requires
        a <= b,
    ensures
        pow10(a) <= pow10(b),
    decreases b,
{
    if a < b {
        lemma_pow10_monotonic(a, (b - 1) as nat);
    }
}

/// Reads the twenty-digit number at `pos`.
fn parse_num_x(cs: &Vec<char>, pos: usize) -> (r: Option<u128>)
    ensures
        (parse_num(cs@, pos as int) matches Some(v) ==> (r matches Some(x) && x as nat == v)),
        (parse_num(cs@, pos as int) is None ==> r is None),
        (r matches Some(x) ==> parse_num(cs@, pos as int) == Some(x as nat) && pos + 20
            <= cs@.len()),
{
    if pos > cs.len() || cs.len() - pos < 20 {
        return None;
    }
    let n = cs.len();
    proof {
        assert(cs@.len() == n);
    }
    let ghost sub = cs@.subrange(pos as int, pos as int + 20);
    let mut val: u128 = 0;
    let mut t: usize = 0;
    proof {
        lemma_pow10_20();
    }
    while t < 20
        invariant
            t <= 20,
            pos + 20 <= n <= usize::MAX,
            n == cs@.len(),
            sub == cs@.subrange(pos as int, pos as int + 20),
            forall|m: int| 0 <= m < t ==> crate::text::is_digit(#[trigger] sub[m]),
            val == val_of(sub.take(t as int)),
            val < pow10(t as nat),
            pow10(20) == 100_000_000_000_000_000_000,
        decreases 20 - t,
    {
        let c = cs[pos + t];
        proof {
            assert(sub[t as int] == cs@[pos + t]);
        }
        let d = crate::text::digit_val_x(c);
        if d >= 10 {
            proof {
                assert(!all_digits(sub));
            }
            return None;
        }
        proof {
            let tp = sub.take(t as int + 1);
            assert(tp.drop_last() =~= sub.take(t as int));
            assert(tp.last() == sub[t as int]);
            lemma_pow10_monotonic(t as nat + 1, 20);
            assert(pow10(t as nat + 1) == 10 * pow10(t as nat));
        }
        val = val * 10 + (d as u128);
        t += 1;
    }
    proof {
        assert(sub.take(20) =~= sub);
        assert(all_digits(sub));
    }
    Some(val)
}

/// Reads `k` consecutive encoded marks from `pos`.
fn parse_marks_x(cs: &Vec<char>, pos: usize, k: u128) -> (r: Result<(Vec<u32>, usize), DecodeFault>)
    requires
        pos <= cs@.len(),
    ensures
        (parse_marks_at(cs@, pos as int, k as nat) matches Some(t) ==> (r matches Ok(p) && p.0@
            == t.0 && p.1 == t.1)),
        (parse_marks_at(cs@, pos as int, k as nat) is None ==> r is Err),
        (r matches Ok(p) ==> parse_marks_at(cs@, pos as int, k as nat) == Some((p.0@, p.1 as int))
            && pos <= p.1 <= cs@.len()),
    decreases k,
{
    if k == 0 {
        let empty: Vec<u32> = Vec::new();
        proof {
            assert(empty@ =~= Seq::<u32>::empty());
        }
        return Ok((empty, pos));
    }
    let v = match parse_num_x(cs, pos) {
        Some(v) => v,
        None => {
            return Err(DecodeFault::BadNumber);
        },
    };
    if v > 0xFFFF_FFFF {
        return Err(DecodeFault::ValueOutOfRange);
    }
    let n = cs.len();
    proof {
        assert(cs@.len() == n);
    }
    match parse_marks_x(cs, pos + 20, k - 1) {
        Ok((mut ms, e)) => {
            let ghost tail = ms@;
            ms.insert(0, v as u32);
            proof {
                assert(ms@ =~= seq![v as u32] + tail);
            }
            Ok((ms, e))
        },
        Err(f) => Err(f),
    }
}

/// Reads one encoded record from `pos`.
fn parse_rec_x(cs: &Vec<char>, pos: usize) -> (r: Result<(Record, usize), DecodeFault>)
    requires
        pos <= cs@.len(),
    ensures
        (parse_rec_at(cs@, pos as int) matches Some(t) ==> (r matches Ok(p) && rec_v(p.0) == t.0
            && p.1 == t.1)),
        (parse_rec_at(cs@, pos as int) is None ==> r is Err),
        (r matches Ok(p) ==> parse_rec_at(cs@, pos as int) == Some((rec_v(p.0), p.1 as int)) && pos
            <= p.1 <= cs@.len()),
{
    let id = match parse_num_x(cs, pos) {
        Some(v) => v,
        None => {
            return Err(DecodeFault::BadNumber);
        },
    };
    if id > 0xFFFF_FFFF {
        return Err(DecodeFault::ValueOutOfRange);
    }
    let n = cs.len();
    proof {
        assert(cs@.len() == n);
    }
    let mcount = match parse_num_x(cs, pos + 20) {
        Some(v) => v,
        None => {
            return Err(DecodeFault::BadNumber);
        },
    };
    let (ms, p2) = match parse_marks_x(cs, pos + 40, mcount) {
        Ok(t) => t,
        Err(f) => {
            return Err(f);
        },
    };
    let namelen = match parse_num_x(cs, p2) {
        Some(v) => v,
        None => {
            return Err(DecodeFault::BadNumber);
        },
    };
    if namelen > (cs.len() - (p2 + 20)) as u128 {
        return Err(DecodeFault::BadLength);
    }
    let nl = namelen as usize;
    let mut name: Vec<char> = Vec::new();
    let mut t: usize = 0;
    while t < nl
        invariant
            t <= nl,
            p2 + 20 + nl <= n <= usize::MAX,
            n == cs@.len(),
            name@ == cs@.subrange(p2 as int + 20, p2 as int + 20 + t as int),
        decreases nl - t,
    {
        name.push(cs[p2 + 20 + t]);
        proof {
            assert(name@ =~= cs@.subrange(p2 as int + 20, p2 as int + 20 + t as int + 1));
        }
        t += 1;
    }
    let rec = Record {
        record_id: id as u32,
        student_id: chars_to_string(&name),
        marks: ms,
    };
    Ok((rec, p2 + 20 + nl))
}

/// Reads `k` consecutive encoded records from `pos`.
fn parse_recs_x(cs: &Vec<char>, pos: usize, k: u128) -> (r: Result<
    (Vec<Record>, usize),
    DecodeFault,
>)
    requires
        pos <= cs@.len(),
    ensures
        (parse_recs_at(cs@, pos as int, k as nat) matches Some(t) ==> (r matches Ok(p) && recs_v(
            p.0@,
        ) == t.0 && p.1 == t.1)),
        (parse_recs_at(cs@, pos as int, k as nat) is None ==> r is Err),
        (r matches Ok(p) ==> parse_recs_at(cs@, pos as int, k as nat) == Some(
            (recs_v(p.0@), p.1 as int),
        ) && pos <= p.1 <= cs@.len()),
    decreases k,
{
    if k == 0 {
        let empty: Vec<Record> = Vec::new();
        proof {
            assert(recs_v(empty@) =~= Seq::<RecV>::empty());
        }
        return Ok((empty, pos));
    }
    let (rec, p1) = match parse_rec_x(cs, pos) {
        Ok(t) => t,
        Err(f) => {
            return Err(f);
        },
    };
    match parse_recs_x(cs, p1, k - 1) {
        Ok((mut rs, e)) => {
            let ghost tail = rs@;
            let ghost rv = rec_v(rec);
            rs.insert(0, rec);
            proof {
                assert(recs_v(rs@) =~= seq![rv] + recs_v(tail));
            }
            Ok((rs, e))
        },
        Err(f) => Err(f),
    }
}

proof fn lemma_render_marks_push(s: Seq<u32>, x: u32)
    ensures
        render_marks(s.push(x)) == render_marks(s) + dec_w(x as nat, 20),
    decreases s.len(),
{
    let p = s.push(x);
    assert(p.len() == s.len() + 1);
    assert(render_marks(p) == dec_w(p.first() as nat, 20) + render_marks(p.drop_first()));
    if s.len() == 0 {
        assert(p.first() == x);
        assert(p.drop_first() =~= Seq::<u32>::empty());
        assert(render_marks(p.drop_first()) == Seq::<char>::empty());
        assert(render_marks(p) =~= render_marks(s) + dec_w(x as nat, 20));
    } else {
        assert(p.first() == s.first());
        assert(p.drop_first() =~= s.drop_first().push(x));
        lemma_render_marks_push(s.drop_first(), x);
        assert(render_marks(s) == dec_w(s.first() as nat, 20) + render_marks(s.drop_first()));
        assert(render_marks(p) =~= render_marks(s) + dec_w(x as nat, 20));
    }
}

proof fn lemma_render_recs_push(s: Seq<RecV>, x: RecV)
    ensures
        render_recs(s.push(x)) == render_recs(s) + render_rec(x),
    decreases s.len(),
{
    let p = s.push(x);
    assert(p.len() == s.len() + 1);
    assert(render_recs(p) == render_rec(p.first()) + render_recs(p.drop_first()));
    if s.len() == 0 {
        assert(p.first() == x);
        assert(p.drop_first() =~= Seq::<RecV>::empty());
        assert(render_recs(p.drop_first()) == Seq::<char>::empty());
        assert(render_recs(p) =~= render_recs(s) + render_rec(x));
    } else {
        assert(p.first() == s.first());
        assert(p.drop_first() =~= s.drop_first().push(x));
        lemma_render_recs_push(s.drop_first(), x);
        assert(render_recs(s) == render_rec(s.first()) + render_recs(s.drop_first()));
        assert(render_recs(p) =~= render_recs(s) + render_rec(x));
    }
}

/// Appends the encoding of one record.
fn push_rec(rec: &Record, out: &mut Vec<char>)
    ensures
        final(out)@ == old(out)@ + render_rec(rec_v(*rec)),
{
    push_num_w(rec.record_id as u64, 20, out);
    push_num_w(rec.marks.len() as u64, 20, out);
    let ghost marks_base = out@;
    let mut j: usize = 0;
    proof {
        assert(out@ =~= marks_base + render_marks(rec.marks@.take(0)));
    }
    while j < rec.marks.len()
        invariant
            j <= rec.marks@.len(),
            out@ == marks_base + render_marks(rec.marks@.take(j as int)),
        decreases rec.marks@.len() - j,
    {
        push_num_w(rec.marks[j] as u64, 20, out);
        proof {
            assert(rec.marks@.take(j as int + 1) =~= rec.marks@.take(j as int).push(
                rec.marks@[j as int],
            ));
            lemma_render_marks_push(rec.marks@.take(j as int), rec.marks@[j as int]);
            assert(out@ =~= marks_base + render_marks(rec.marks@.take(j as int + 1)));
        }
        j += 1;
    }
    proof {
        assert(rec.marks@.take(rec.marks@.len() as int) =~= rec.marks@);
    }
    push_num_w(rec.student_id.as_str().unicode_len() as u64, 20, out);
    let mut name = str_chars(rec.student_id.as_str());
    out.append(&mut name);
    proof {
        assert(out@ =~= old(out)@ + render_rec(rec_v(*rec)));
    }
}

impl MarksRecords {
    /// Encodes the whole store losslessly; `render_store` says the exact
    /// text. Never fails.
    pub fn to_transport_string(&self) -> (r: Result<String, TransportError>)
        ensures
            (r matches Ok(t) && t@ == render_store(self@)),
    {
        let mut out: Vec<char> = Vec::new();
        push_num_w(self.next_record_id as u64, 20, &mut out);
        push_num_w(self.records.len() as u64, 20, &mut out);
        let ghost base = out@;
        let mut i: usize = 0;
        proof {
            assert(out@ =~= base + render_recs(self@.recs.take(0)));
        }
        while i < self.records.len()
            invariant
                i <= self.records@.len(),
                base == dec_w(self@.next_id as nat, 20) + dec_w(self@.recs.len(), 20),
                out@ == base + render_recs(self@.recs.take(i as int)),
            decreases self.records@.len() - i,
        {
            push_rec(&self.records[i], &mut out);
            proof {
                assert(self@.recs.take(i as int + 1) =~= self@.recs.take(i as int).push(
                    self@.recs[i as int],
                ));
                assert(self@.recs[i as int] == rec_v(self.records@[i as int]));
                lemma_render_recs_push(self@.recs.take(i as int), self@.recs[i as int]);
                assert(out@ =~= base + render_recs(self@.recs.take(i as int + 1)));
            }
            i += 1;
        }
        proof {
            assert(self@.recs.take(self@.recs.len() as int) =~= self@.recs);
            assert(out@ =~= render_store(self@));
        }
        Ok(chars_to_string(&out))
    }

    /// Decodes a transport text; `parse_store` says exactly which texts
    /// decode, and to what. A text that is no encoding fails with the
    /// offending input and the fault found.
    pub fn from_transport_string(s: &str) -> (r: Result<MarksRecords, TransportError>)
        ensures
            (r matches Ok(m) ==> parse_store(s@) == Some(m@) && m.wf()),
            (r matches Err(e) ==> parse_store(s@) is None && (e matches
            TransportError::DeserializationError { input, cause } && input@ == s@)),
    {
        let cs = str_chars(s);
        let next = match parse_num_x(&cs, 0) {
            Some(v) => v,
            None => {
                return Err(TransportError::DeserializationError {
                    input: s.to_owned(),
                    cause: DecodeFault::BadNumber,
                });
            },
        };
        if next < 1 || next > 0xFFFF_FFFF {
            return Err(TransportError::DeserializationError {
                input: s.to_owned(),
                cause: DecodeFault::CounterOutOfRange,
            });
        }
        let cnt = match parse_num_x(&cs, 20) {
            Some(v) => v,
            None => {
                return Err(TransportError::DeserializationError {
                    input: s.to_owned(),
                    cause: DecodeFault::BadNumber,
                });
            },
        };
        let (recs, e) = match parse_recs_x(&cs, 40, cnt) {
            Ok(t) => t,
            Err(f) => {
                return Err(TransportError::DeserializationError {
                    input: s.to_owned(),
                    cause: f,
                });
            },
        };
        if e != cs.len() {
            return Err(TransportError::DeserializationError {
                input: s.to_owned(),
                cause: DecodeFault::TrailingText,
            });
        }
        Ok(MarksRecords { next_record_id: next as u32, records: recs })
    }
}

} // verus!
