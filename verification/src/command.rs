//! Classification of a typed line into a command.
//!
//! A line is either one of the two escape commands, a marks assignment of
//! the form `<anything>=<whitespace-separated integers>` (each integer an
//! optional plus sign and decimal digits), or a plain query. Unrecognized
//! escapes and malformed marks are rejected with a typed error.

use vstd::prelude::*;
use crate::text::{str_chars, chars_to_string, digit_val, digit_val_x, is_digit};

verus! {

/// A recognized line of input.
#[derive(Debug)]
pub enum Input {
    /// A plain query string, to rank records against.
    Query(String),
    /// Marks to write to the top record.
    MarksRecord(Vec<u32>),
    /// Request to export the store as tab-separated text.
    Export,
    /// Request to discard all records.
    Clear,
}

/// Mathematical image of an `Input`.
pub ghost enum InputV {
    Query(Seq<char>),
    MarksRecord(Seq<u32>),
    Export,
    Clear,
}

pub open spec fn input_v(i: Input) -> InputV {
    match i {
        Input::Query(s) => InputV::Query(s@),
        Input::MarksRecord(ms) => InputV::MarksRecord(ms@),
        Input::Export => InputV::Export,
        Input::Clear => InputV::Clear,
    }
}

/// Why a line was rejected.
#[derive(PartialEq, Eq, Structural, Clone, Copy, Debug)]
pub enum CommandError {
    /// The line begins with a colon but is no known escape.
    UnknownCommand,
    /// A marks assignment holds a non-integer token, an integer that does
    /// not fit, or more than one equals sign.
    MarksParseError,
}

/// Whitespace that separates marks tokens: the Unicode white-space
/// characters, the set `char::is_whitespace` accepts.
pub open spec fn is_space(c: char) -> bool {
    c == '\u{9}' || c == '\u{A}' || c == '\u{B}' || c == '\u{C}' || c == '\u{D}' || c == ' '
        || c == '\u{85}' || c == '\u{A0}' || c == '\u{1680}' || c == '\u{2000}' || c
        == '\u{2001}' || c == '\u{2002}' || c == '\u{2003}' || c == '\u{2004}' || c == '\u{2005}'
        || c == '\u{2006}' || c == '\u{2007}' || c == '\u{2008}' || c == '\u{2009}' || c
        == '\u{200A}' || c == '\u{2028}' || c == '\u{2029}' || c == '\u{202F}' || c == '\u{205F}'
        || c == '\u{3000}'
}

pub open spec fn count_char(s: Seq<char>, c: char) -> nat
    decreases s.len(),
{
    if s.len() == 0 {
        0
    } else {
        count_char(s.drop_last(), c) + if s.last() == c {
            1nat
        } else {
            0nat
        }
    }
}

/// Index of the first occurrence of `c`, or a negative value.
pub open spec fn first_ch(s: Seq<char>, c: char) -> int
    decreases s.len(),
{
    if s.len() == 0 {
        -1
    } else if s[0] == c {
        0
    } else {
        let r = first_ch(s.drop_first(), c);
        if r < 0 {
            -1
        } else {
            r + 1
        }
    }
}

proof fn lemma_first_ch_at(s: Seq<char>, c: char, k: int)
    requires
        0 <= k < s.len(),
        s[k] == c,
        forall|m: int| 0 <= m < k ==> s[m] != c,
    ensures
        first_ch(s, c) == k,
    decreases k,
{
    if k > 0 {
        lemma_first_ch_at(s.drop_first(), c, k - 1);
    }
}

/// Length of the leading run of non-whitespace characters.
pub open spec fn token_len(s: Seq<char>) -> int
    decreases s.len(),
{
    if s.len() == 0 || is_space(s[0]) {
        0
    } else {
        1 + token_len(s.drop_first())
    }
}

proof fn lemma_token_len_at(s: Seq<char>, k: int)
    requires
        0 <= k <= s.len(),
        forall|m: int| 0 <= m < k ==> !is_space(s[m]),
        k == s.len() || is_space(s[k]),
    ensures
        token_len(s) == k,
    decreases k,
{
    if k > 0 {
        lemma_token_len_at(s.drop_first(), k - 1);
    }
}

/// Numeric value of a digit string.
pub open spec fn val_of(s: Seq<char>) -> nat
    decreases s.len(),
{
    if s.len() == 0 {
        0
    } else {
        val_of(s.drop_last()) * 10 + digit_val(s.last())
    }
}

pub open spec fn all_digits(s: Seq<char>) -> bool {
    forall|i: int| 0 <= i < s.len() ==> is_digit(#[trigger] s[i])
}

proof fn lemma_val_of_take_le(s: Seq<char>, i: int)
    requires
        0 <= i <= s.len(),
    ensures
        val_of(s.take(i)) <= val_of(s),
    decreases s.len() - i,
{
    if i < s.len() {
        lemma_val_of_take_le(s, i + 1);
        let t = s.take(i + 1);
        assert(t.drop_last() =~= s.take(i));
        assert(val_of(s.take(i)) <= val_of(t));
    } else {
        assert(s.take(i) =~= s);
    }
}

/// The digits of a marks token, shedding one optional leading plus sign.
pub open spec fn token_digits(tok: Seq<char>) -> Seq<char> {
    if tok.len() > 0 && tok[0] == '+' {
        tok.drop_first()
    } else {
        tok
    }
}

/// The marks encoded by a whitespace-separated list of decimal tokens,
/// each an optional plus sign and digits; nothing when a token is not a
/// number that fits.
pub open spec fn marks_from(s: Seq<char>) -> Option<Seq<u32>>
    decreases s.len(),
{
    if s.len() == 0 {
        Some(Seq::<u32>::empty())
    } else if is_space(s[0]) {
        marks_from(s.drop_first())
    } else {
        let k = token_len(s);
        if 1 <= k <= s.len() {
            let ds = token_digits(s.take(k));
            if ds.len() > 0 && all_digits(ds) && val_of(ds) <= 0xFFFF_FFFF {
                match marks_from(s.skip(k)) {
                    Some(rest) => Some(seq![val_of(ds) as u32] + rest),
                    None => None,
                }
            } else {
                None
            }
        } else {
            None
        }
    }
}

/// What `parse_input` decides for a line: the two escapes, then unknown
/// escapes, then (with exactly one equals sign) a marks assignment whose
/// right-hand side must be whitespace-separated integers (each an
/// optional plus sign and digits), else a query.
pub open spec fn spec_parse(s: Seq<char>) -> Result<InputV, CommandError> {
    if s == (":export")@ {
        Ok(InputV::Export)
    } else if s == (":clear")@ {
        Ok(InputV::Clear)
    } else if s.len() > 0 && s[0] == ':' {
        Err(CommandError::UnknownCommand)
    } else if count_char(s, '=') == 0 {
        Ok(InputV::Query(s))
    } else if count_char(s, '=') != 1 {
        Err(CommandError::MarksParseError)
    } else {
        let k = first_ch(s, '=');
        if 0 <= k < s.len() {
            match marks_from(s.skip(k + 1)) {
                Some(ms) => Ok(InputV::MarksRecord(ms)),
                None => Err(CommandError::MarksParseError),
            }
        } else {
            Err(CommandError::MarksParseError)
        }
    }
}

proof fn lemma_count_char_zero(s: Seq<char>, c: char)
    requires
        count_char(s, c) == 0,
    ensures
        forall|m: int| 0 <= m < s.len() ==> s[m] != c,
    decreases s.len(),
{
    if s.len() > 0 {
        lemma_count_char_zero(s.drop_last(), c);
        assert forall|m: int| 0 <= m < s.len() implies s[m] != c by {
            if m < s.len() - 1 {
                assert(s.drop_last()[m] == s[m]);
            }
        }
    }
}

fn is_space_x(c: char) -> (r: bool)
    ensures
        r == is_space(c),
{
    c == '\u{9}' || c == '\u{A}' || c == '\u{B}' || c == '\u{C}' || c == '\u{D}' || c == ' '
        || c == '\u{85}' || c == '\u{A0}' || c == '\u{1680}' || c == '\u{2000}' || c
        == '\u{2001}' || c == '\u{2002}' || c == '\u{2003}' || c == '\u{2004}' || c == '\u{2005}'
        || c == '\u{2006}' || c == '\u{2007}' || c == '\u{2008}' || c == '\u{2009}' || c
        == '\u{200A}' || c == '\u{2028}' || c == '\u{2029}' || c == '\u{202F}' || c == '\u{205F}'
        || c == '\u{3000}'
}

fn chars_eq(a: &Vec<char>, b: &Vec<char>) -> (r: bool)
    ensures
        r == (a@ == b@),
{
    if a.len() != b.len() {
        proof {
            assert(a@ != b@);
        }
        return false;
    }
    let mut i: usize = 0;
    while i < a.len()
        invariant
            a@.len() == b@.len(),
            i <= a@.len(),
            forall|m: int| 0 <= m < i ==> a@[m] == b@[m],
        decreases a@.len() - i,
    {
        if a[i] != b[i] {
            return false;
        }
        i += 1;
    }
    proof {
        assert(a@ =~= b@);
    }
    true
}

/// Parses the marks tokens of `cs` from position `from` on.
fn parse_marks(cs: &Vec<char>, from: usize) -> (r: Result<Vec<u32>, CommandError>)
    requires
        from <= cs@.len(),
    ensures
        (r matches Ok(ms) ==> marks_from(cs@.skip(from as int)) == Some(ms@)),
        (r is Err ==> marks_from(cs@.skip(from as int)) is None && r == Result::<
            Vec<u32>,
            CommandError,
        >::Err(CommandError::MarksParseError)),
{
    let ghost target = marks_from(cs@.skip(from as int));
    let mut ms: Vec<u32> = Vec::new();
    let mut pos: usize = from;
    proof {
        if let Some(rest) = marks_from(cs@.skip(from as int)) {
            assert(Seq::<u32>::empty() + rest =~= rest);
        }
    }
    while pos < cs.len()
        invariant
            from <= pos <= cs@.len(),
            target == marks_from(cs@.skip(from as int)),
            (marks_from(cs@.skip(pos as int)) matches Some(rest) ==> target == Some(ms@ + rest)),
            (marks_from(cs@.skip(pos as int)) is None ==> target is None),
        decreases cs@.len() - pos,
    {
        let ghost suf = cs@.skip(pos as int);
        let c = cs[pos];
        if is_space_x(c) {
            proof {
                assert(suf[0] == cs@[pos as int]);
                assert(suf.drop_first() =~= cs@.skip(pos as int + 1));
            }
            pos += 1;
        } else {
            // scan the token
            let mut e: usize = pos;
            let mut stop = false;
            while !stop && e < cs.len()
                invariant
                    pos <= e <= cs@.len(),
                    stop ==> e < cs@.len() && is_space(cs@[e as int]),
                    forall|m: int| pos <= m < e ==> !is_space(cs@[m]),
                decreases cs@.len() - e + if stop {
                    0int
                } else {
                    1int
                },
            {
                if is_space_x(cs[e]) {
                    stop = true;
                } else {
                    e += 1;
                }
            }
            proof {
                assert forall|m: int| 0 <= m < e - pos implies !is_space(suf[m]) by {
                    assert(suf[m] == cs@[pos + m]);
                }
                if stop {
                    assert(suf[e - pos] == cs@[e as int]);
                }
                lemma_token_len_at(suf, e - pos);
                assert(suf.take(e - pos) =~= cs@.subrange(pos as int, e as int));
            }
            proof {
                if e == pos {
                    assert(!is_space(cs@[pos as int]));
                    assert(pos < cs@.len());
                    assert(false);
                }
            }
            let ghost tok = cs@.subrange(pos as int, e as int);
            // one optional leading plus sign, then the digits
            let dstart: usize = if c == '+' {
                pos + 1
            } else {
                pos
            };
            let ghost ds = token_digits(tok);
            proof {
                assert(tok[0] == cs@[pos as int]);
                if c == '+' {
                    assert(ds =~= cs@.subrange(pos as int + 1, e as int));
                } else {
                    assert(ds == tok);
                }
            }
            if dstart == e {
                // the token is a bare plus sign
                proof {
                    assert(ds.len() == 0);
                    assert(suf.len() > 0 && !is_space(suf[0]));
                    assert(marks_from(suf) is None);
                }
                return Err(CommandError::MarksParseError);
            }
            let mut val: u64 = 0;
            let mut t: usize = dstart;
            while t < e
                invariant
                    pos < e <= cs@.len(),
                    pos <= dstart <= t <= e,
                    from <= pos,
                    target == marks_from(cs@.skip(from as int)),
                    (marks_from(cs@.skip(pos as int)) is None ==> target is None),
                    suf == cs@.skip(pos as int),
                    !is_space(cs@[pos as int]),
                    token_len(suf) == e - pos,
                    tok == cs@.subrange(pos as int, e as int),
                    tok == suf.take(e - pos),
                    ds == token_digits(tok),
                    ds == cs@.subrange(dstart as int, e as int),
                    forall|m: int| dstart <= m < t ==> is_digit(#[trigger] cs@[m]),
                    val == val_of(ds.take(t - dstart)),
                    val <= 0xFFFF_FFFF,
                decreases e - t,
            {
                let c2 = cs[t];
                let d = digit_val_x(c2);
                proof {
                    let tp = ds.take(t - dstart + 1);
                    assert(tp.drop_last() =~= ds.take(t - dstart));
                    assert(tp.last() == cs@[t as int]);
                }
                if d >= 10 {
                    proof {
                        assert(ds[t - dstart] == cs@[t as int]);
                        assert(!all_digits(ds));
                        assert(suf.len() > 0 && !is_space(suf[0]));
                        assert(marks_from(suf) is None);
                    }
                    return Err(CommandError::MarksParseError);
                }
                val = val * 10 + d;
                proof {
                    assert(val == val_of(ds.take(t - dstart + 1)));
                }
                if val > 0xFFFF_FFFF {
                    proof {
                        lemma_val_of_take_le(ds, t - dstart + 1);
                        assert(val_of(ds) > 0xFFFF_FFFF);
                        assert(suf.len() > 0 && !is_space(suf[0]));
                        assert(marks_from(suf) is None);
                    }
                    return Err(CommandError::MarksParseError);
                }
                t += 1;
            }
            proof {
                assert(ds.take(e - dstart) =~= ds);
                assert(ds.len() > 0);
                assert(all_digits(ds));
                assert(val_of(ds) == val);
                assert(suf.skip(e - pos) =~= cs@.skip(e as int));
                assert(marks_from(suf) == (match marks_from(cs@.skip(e as int)) {
                    Some(rest) => Some(seq![val_of(ds) as u32] + rest),
                    None => None,
                }));
            }
            let ghost ms_before = ms@;
            ms.push(val as u32);
            proof {
                if let Some(rest) = marks_from(cs@.skip(e as int)) {
                    assert(ms_before + (seq![val as u32] + rest) =~= ms@ + rest);
                }
            }
            pos = e;
        }
    }
    proof {
        assert(cs@.skip(cs@.len() as int) =~= Seq::<char>::empty());
        assert(marks_from(cs@.skip(pos as int)) == Some(Seq::<u32>::empty()));
        assert(ms@ + Seq::<u32>::empty() =~= ms@);
    }
    Ok(ms)
}

/// Classifies one typed line; `spec_parse` says exactly what comes back
/// for every input.
pub fn parse_input(s: &str) -> (r: Result<Input, CommandError>)
    ensures
        (r matches Ok(i) ==> spec_parse(s@) == Result::<InputV, CommandError>::Ok(input_v(i))),
        (r matches Err(e) ==> spec_parse(s@) == Result::<InputV, CommandError>::Err(e)),
{
    let cs = str_chars(s);
    let export_cmd = str_chars(":export");
    let clear_cmd = str_chars(":clear");
    if chars_eq(&cs, &export_cmd) {
        return Ok(Input::Export);
    }
    if chars_eq(&cs, &clear_cmd) {
        return Ok(Input::Clear);
    }
    if cs.len() > 0 && cs[0] == ':' {
        return Err(CommandError::UnknownCommand);
    }
    // count the equals signs; remember the first
    let mut eqs: usize = 0;
    let mut first: usize = 0;
    let mut i: usize = 0;
    while i < cs.len()
        invariant
            i <= cs@.len(),
            eqs == count_char(cs@.take(i as int), '='),
            eqs <= i,
            eqs > 0 ==> first < i && cs@[first as int] == '=' && (forall|m: int|
                0 <= m < first ==> cs@[m] != '='),
        decreases cs@.len() - i,
    {
        proof {
            let tk = cs@.take(i as int + 1);
            assert(tk.drop_last() =~= cs@.take(i as int));
            assert(tk.last() == cs@[i as int]);
        }
        if cs[i] == '=' {
            if eqs == 0 {
                first = i;
                proof {
                    lemma_count_char_zero(cs@.take(i as int), '=');
                    assert forall|m: int| 0 <= m < first implies cs@[m] != '=' by {
                        assert(cs@.take(i as int)[m] == cs@[m]);
                    }
                }
            }
            eqs = eqs + 1;
        }
        i += 1;
    }
    proof {
        assert(cs@.take(cs@.len() as int) =~= cs@);
    }
    if eqs == 0 {
        return Ok(Input::Query(chars_to_string(&cs)));
    }
    if eqs != 1 {
        return Err(CommandError::MarksParseError);
    }
    proof {
        lemma_first_ch_at(cs@, '=', first as int);
    }
    match parse_marks(&cs, first + 1) {
        Ok(ms) => Ok(Input::MarksRecord(ms)),
        Err(e) => Err(e),
    }
}

} // verus!
