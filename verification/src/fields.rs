//! The pieces of a fast-export command line: marks, commit-ish references,
//! person stamps, file modes, sha1s and (possibly quoted) paths.
use vstd::prelude::*;
use vstd::utf8::*;
use std::collections::HashSet;
use crate::text::{
    owned, push_str, push_char, chars_of, string_from_chars, string_from_range, trim, trim_bounds,
    is_ws, is_whitespace, ws_run, lemma_ws_run_bounds, skip_ws_index, parse_unsigned,
    parse_unsigned_chars, parse_i64_spec, parse_i64_chars, utf8_str, utf8_lossy, lossy_text,
    decimal, push_decimal, str_eq,
};
use crate::model::{PersonModel, PersonStamp, valid_tz, is_valid_tz_offset};

verus! {

broadcast use vstd::seq_lib::group_seq_properties, vstd::std_specs::hash::group_hash_axioms;

/// An error of the stream reader: the line it was found on and what is wrong.
pub struct PErr {
    pub line: int,
    pub message: Seq<char>,
}

pub open spec fn perr(line: int, message: Seq<char>) -> PErr {
    PErr { line, message }
}

/// A parse error: the line number and the message.
#[derive(Debug)]
pub struct ParseError {
    pub line: usize,
    pub message: String,
}

impl ParseError {
    pub open spec fn matches(&self, e: PErr) -> bool {
        self.line == e.line && self.message@ == e.message
    }

    /// `line <n>: <message>`, as the error is shown to the user.
    pub fn to_string(&self) -> (s: String)
        ensures
            s@ == "line "@ + decimal(self.line as nat) + ": "@ + self.message@,
    {
        let mut s = owned("line ");
        push_decimal(&mut s, self.line as u64);
        push_str(&mut s, ": ");
        push_str(&mut s, self.message.as_str());
        s
    }
}

pub fn parse_error(line: usize, message: &str) -> (e: ParseError)
    ensures
        e.line == line,
        e.message@ == message@,
{
    ParseError { line, message: owned(message) }
}

pub fn parse_error_with(line: usize, message: &str, detail: &str) -> (e: ParseError)
    ensures
        e.line == line,
        e.message@ == message@ + detail@,
{
    let mut m = owned(message);
    push_str(&mut m, detail);
    ParseError { line, message: m }
}

// ---------------------------------------------------------------------------
// Bytes and text
// ---------------------------------------------------------------------------

/// The text of valid UTF-8, or nothing.
pub open spec fn utf8(b: Seq<u8>) -> Option<Seq<char>> {
    if valid_utf8(b) {
        Some(decode_utf8(b))
    } else {
        None
    }
}

/// The index of the first byte `c` in `b` at or after `i`.
pub open spec fn find_byte(b: Seq<u8>, c: u8, i: int) -> Option<int>
    decreases b.len() - i,
{
    if i < 0 || i >= b.len() {
        None
    } else if b[i] == c {
        Some(i)
    } else {
        find_byte(b, c, i + 1)
    }
}

pub proof fn lemma_find_byte(b: Seq<u8>, c: u8, i: int)
    requires
        0 <= i,
    ensures
        find_byte(b, c, i) matches Some(k) ==> i <= k < b.len() && b[k] == c && forall|j: int|
            i <= j < k ==> b[j] != c,
        find_byte(b, c, i) is None ==> forall|j: int| i <= j < b.len() ==> b[j] != c,
    decreases b.len() - i,
{
    if i < b.len() && b[i] != c {
        lemma_find_byte(b, c, i + 1);
    }
}

/// The first index at or after `i` holding byte `c`.
pub fn find_byte_exec(b: &[u8], c: u8, i: usize) -> (res: Option<usize>)
    ensures
        match find_byte(b@, c, i as int) {
            Some(k) => res == Some(k as usize),
            None => res is None,
        },
{
    let mut j = i;
    while j < b.len()
        invariant
            i <= j,
            find_byte(b@, c, i as int) == find_byte(b@, c, j as int),
        decreases b.len() - j,
    {
        if b[j] == c {
            return Some(j);
        }
        j = j + 1;
    }
    None
}

/// The index of the last character `c` of `s` before index `j`.
pub open spec fn rfind_char(s: Seq<char>, c: char, j: int) -> Option<int>
    decreases j,
{
    if j <= 0 || j > s.len() {
        None
    } else if s[j - 1] == c {
        Some(j - 1)
    } else {
        rfind_char(s, c, j - 1)
    }
}

pub proof fn lemma_rfind_char(s: Seq<char>, c: char, j: int)
    requires
        0 <= j <= s.len(),
    ensures
        rfind_char(s, c, j) matches Some(k) ==> 0 <= k < j && s[k] == c,
    decreases j,
{
    if j > 0 && s[j - 1] != c {
        lemma_rfind_char(s, c, j - 1);
    }
}

fn rfind_char_exec(s: &[char], c: char) -> (res: Option<usize>)
    ensures
        match rfind_char(s@, c, s@.len() as int) {
            Some(k) => res == Some(k as usize),
            None => res is None,
        },
{
    let mut j = s.len();
    while j > 0
        invariant
            j <= s.len(),
            rfind_char(s@, c, s@.len() as int) == rfind_char(s@, c, j as int),
        decreases j,
    {
        if s[j - 1] == c {
            return Some(j - 1);
        }
        j = j - 1;
    }
    None
}

// ---------------------------------------------------------------------------
// Marks and commit-ish references
// ---------------------------------------------------------------------------

/// A mark id (`parse_mark_id`): UTF-8, then a `u64` after trimming.
pub open spec fn mark_id_spec(b: Seq<u8>, line: int) -> Result<u64, PErr> {
    match utf8(b) {
        None => Err(perr(line, "mark id is not valid UTF-8"@)),
        Some(s) => match parse_unsigned(trim(s), u64::MAX as nat) {
            Some(v) => Ok(v as u64),
            None => Err(perr(line, "invalid mark id: "@ + s)),
        },
    }
}

pub fn parse_mark_id(bytes: &[u8], line_no: usize) -> (res: Result<u64, ParseError>)
    ensures
        match mark_id_spec(bytes@, line_no as int) {
            Ok(v) => res == Ok::<u64, ParseError>(v),
            Err(e) => res matches Err(x) && x.matches(e),
        },
{
    let s = match utf8_str(bytes) {
        Some(s) => s,
        None => return Err(parse_error(line_no, "mark id is not valid UTF-8")),
    };
    let cs = chars_of(s);
    let (a, b) = trim_bounds(cs.as_slice());
    match parse_unsigned_chars(&cs.as_slice()[a..b], u64::MAX) {
        Some(v) => Ok(v),
        None => Err(parse_error_with(line_no, "invalid mark id: ", s)),
    }
}

/// A commit-ish reference (`from`, `merge`, notes, `ls`): trimmed UTF-8; a
/// `:<n>` mark reference must name a known mark unless reading leniently.
pub open spec fn commitish_spec(b: Seq<u8>, lenient: bool, known: Set<u64>, line: int) -> Result<
    Seq<char>,
    PErr,
> {
    match utf8(b) {
        None => Err(perr(line, "commit-ish is not valid UTF-8"@)),
        Some(s) => {
            let text = trim(s);
            if text.len() > 0 && text[0] == ':' {
                match parse_unsigned(text.drop_first(), u64::MAX as nat) {
                    None => Err(perr(line, "invalid mark reference: "@ + text)),
                    Some(id) => if !lenient && !known.contains(id as u64) {
                        Err(perr(line, "reference to unknown mark: :"@ + decimal(id)))
                    } else {
                        Ok(text)
                    },
                }
            } else {
                Ok(text)
            }
        },
    }
}

pub fn resolve_commitish(rest: &[u8], lenient: bool, known_marks: &HashSet<u64>, line_no: usize) -> (res: Result<String, ParseError>)
    ensures
        match commitish_spec(rest@, lenient, known_marks@, line_no as int) {
            Ok(t) => res matches Ok(s) && s@ == t,
            Err(e) => res matches Err(x) && x.matches(e),
        },
{
    let s = match utf8_str(rest) {
        Some(s) => s,
        None => return Err(parse_error(line_no, "commit-ish is not valid UTF-8")),
    };
    let cs = chars_of(s);
    let (a, b) = trim_bounds(cs.as_slice());
    let text = string_from_range(cs.as_slice(), a, b);
    if a < b && cs[a] == ':' {
        let ghost t = cs@.subrange(a as int, b as int);
        assert(t.drop_first() =~= cs@.subrange(a + 1, b as int));
        match parse_unsigned_chars(&cs.as_slice()[a + 1..b], u64::MAX) {
            None => {
                return Err(parse_error_with(line_no, "invalid mark reference: ", text.as_str()));
            },
            Some(id) => {
                if !lenient && !known_marks.contains(&id) {
                    let mut m = owned("reference to unknown mark: :");
                    push_decimal(&mut m, id);
                    return Err(ParseError { line: line_no, message: m });
                }
            },
        }
    }
    Ok(text)
}

// ---------------------------------------------------------------------------
// Person stamps
// ---------------------------------------------------------------------------

/// The number of characters that are not whitespace in `s` from `i` on.
pub open spec fn non_ws_run(s: Seq<char>, i: int) -> nat
    decreases s.len() - i,
{
    if 0 <= i < s.len() && !is_ws(s[i]) {
        1 + non_ws_run(s, i + 1)
    } else {
        0
    }
}

/// The next whitespace-separated field of `s` from `i` on, and where it ends
/// (what `split_whitespace` yields next).
pub open spec fn next_field(s: Seq<char>, i: int) -> Option<(Seq<char>, int)> {
    let a = i + ws_run(s, i);
    if a >= s.len() {
        None
    } else {
        let b = a + non_ws_run(s, a);
        Some((s.subrange(a, b), b))
    }
}

proof fn lemma_non_ws_run_bounds(s: Seq<char>, i: int)
    requires
        0 <= i <= s.len(),
    ensures
        i + non_ws_run(s, i) <= s.len(),
    decreases s.len() - i,
{
    if i < s.len() && !is_ws(s[i]) {
        lemma_non_ws_run_bounds(s, i + 1);
    }
}

fn next_field_exec(s: &[char], i: usize) -> (res: Option<(usize, usize)>)
    requires
        i <= s.len(),
    ensures
        match next_field(s@, i as int) {
            Some((f, e)) => res matches Some((a, b)) && a <= b == e <= s.len() && s@.subrange(
                a as int,
                b as int,
            ) == f,
            None => res is None,
        },
{
    let a = skip_ws_index(s, i);
    if a >= s.len() {
        return None;
    }
    proof {
        lemma_non_ws_run_bounds(s@, a as int);
    }
    let mut b = a;
    while b < s.len() && !is_whitespace(s[b])
        invariant
            a <= b <= s.len(),
            non_ws_run(s@, a as int) == (b - a) + non_ws_run(s@, b as int),
        decreases s.len() - b,
    {
        b = b + 1;
    }
    Some((a, b))
}

/// Name, email and the text after the email of a person line.
pub open spec fn person_parts(text: Seq<char>, lenient: bool) -> Option<
    (Option<Seq<char>>, Seq<char>, Seq<char>),
> {
    let open = rfind_char(text, '<', text.len() as int);
    let close = rfind_char(text, '>', text.len() as int);
    if open is Some && close is Some && open->0 < close->0 {
        let o = open->0;
        let c = close->0;
        let name = trim(text.subrange(0, o));
        Some(
            (
                if name.len() == 0 {
                    None
                } else {
                    Some(name)
                },
                text.subrange(o + 1, c),
                trim(text.subrange(c + 1, text.len() as int)),
            ),
        )
    } else if lenient {
        Some((None, "unknown@invalid"@, trim(text)))
    } else {
        None
    }
}

/// A person line after its keyword: `Name <email> <unix-ts> <tz-offset>`.
#[verifier::opaque]
pub open spec fn person_spec(b: Seq<u8>, line: int, lenient: bool) -> Result<PersonModel, PErr> {
    match utf8(b) {
        None => Err(perr(line, "person line is not valid UTF-8"@)),
        Some(text) => match person_parts(text, lenient) {
            None => Err(perr(line, "malformed person line: "@ + text)),
            Some((name, email, rem)) => {
                let f1 = next_field(rem, 0);
                let ts: Option<i64> = match f1 {
                    Some((f, _)) => parse_i64_spec(f),
                    None => None,
                };
                if ts is None && !lenient {
                    Err(perr(line, "invalid or missing timestamp in: "@ + text))
                } else {
                    let f2 = match f1 {
                        Some((_, e)) => next_field(rem, e),
                        None => None,
                    };
                    if f2 is Some && valid_tz((f2->0).0) {
                        Ok(
                            PersonModel {
                                name,
                                email,
                                timestamp: if ts is Some {
                                    ts->0
                                } else {
                                    0
                                },
                                tz_offset: (f2->0).0,
                            },
                        )
                    } else if lenient {
                        Ok(
                            PersonModel {
                                name,
                                email,
                                timestamp: if ts is Some {
                                    ts->0
                                } else {
                                    0
                                },
                                tz_offset: "+0000"@,
                            },
                        )
                    } else {
                        Err(perr(line, "invalid or missing timezone offset in: "@ + text))
                    }
                }
            },
        },
    }
}

pub fn parse_person(rest: &[u8], line_no: usize, lenient: bool) -> (res: Result<PersonStamp, ParseError>)
    ensures
        match person_spec(rest@, line_no as int, lenient) {
            Ok(p) => res matches Ok(r) && r@ == p,
            Err(e) => res matches Err(x) && x.matches(e),
        },
{
    proof {
        reveal(person_spec);
    }
    let text = match utf8_str(rest) {
        Some(s) => s,
        None => return Err(parse_error(line_no, "person line is not valid UTF-8")),
    };
    let cs = chars_of(text);
    let n = cs.len();
    let open = rfind_char_exec(cs.as_slice(), '<');
    let close = rfind_char_exec(cs.as_slice(), '>');
    proof {
        lemma_rfind_char(cs@, '<', n as int);
        lemma_rfind_char(cs@, '>', n as int);
    }
    let name: Option<String>;
    let email: String;
    let rem: Vec<char>;
    if open.is_some() && close.is_some() && open.unwrap() < close.unwrap() {
        let o = open.unwrap();
        let c = close.unwrap();
        let (na, nb) = trim_bounds(&cs.as_slice()[0..o]);
        name = if na == nb {
            None
        } else {
            Some(string_from_range(&cs.as_slice()[0..o], na, nb))
        };
        email = string_from_range(cs.as_slice(), o + 1, c);
        let (ra, rb) = trim_bounds(&cs.as_slice()[c + 1..n]);
        rem = slice_to_vec(&cs.as_slice()[c + 1..n], ra, rb);
    } else if lenient {
        name = None;
        email = owned("unknown@invalid");
        let (ra, rb) = trim_bounds(cs.as_slice());
        rem = slice_to_vec(cs.as_slice(), ra, rb);
    } else {
        return Err(parse_error_with(line_no, "malformed person line: ", text));
    }
    let f1 = next_field_exec(rem.as_slice(), 0);
    let ts: Option<i64> = match f1 {
        Some((a, b)) => parse_i64_chars(&rem.as_slice()[a..b]),
        None => None,
    };
    let timestamp = match ts {
        Some(t) => t,
        None => {
            if lenient {
                0
            } else {
                return Err(parse_error_with(line_no, "invalid or missing timestamp in: ", text));
            }
        },
    };
    let f2 = match f1 {
        Some((_, e)) => next_field_exec(rem.as_slice(), e),
        None => None,
    };
    let tz_offset = match f2 {
        Some((a, b)) => {
            let tz = string_from_range(rem.as_slice(), a, b);
            if is_valid_tz_offset(tz.as_str()) {
                tz
            } else if lenient {
                owned("+0000")
            } else {
                return Err(
                    parse_error_with(line_no, "invalid or missing timezone offset in: ", text),
                );
            }
        },
        None => {
            if lenient {
                owned("+0000")
            } else {
                return Err(
                    parse_error_with(line_no, "invalid or missing timezone offset in: ", text),
                );
            }
        },
    };
    Ok(PersonStamp { name, email, timestamp, tz_offset })
}

/// `s[a..b]` as a new vector.
fn slice_to_vec(s: &[char], a: usize, b: usize) -> (v: Vec<char>)
    requires
        a <= b <= s.len(),
    ensures
        v@ == s@.subrange(a as int, b as int),
{
    let mut v: Vec<char> = Vec::new();
    let mut i = a;
    while i < b
        invariant
            a <= i <= b <= s.len(),
            v@ == s@.subrange(a as int, i as int),
        decreases b - i,
    {
        v.push(s[i]);
        i = i + 1;
    }
    v
}

// ---------------------------------------------------------------------------
// Modes and sha1s
// ---------------------------------------------------------------------------

/// The file modes git uses.
pub open spec fn valid_mode(m: Seq<char>) -> bool {
    m == "100644"@ || m == "100755"@ || m == "120000"@ || m == "160000"@ || m == "040000"@
}

pub fn is_valid_mode(mode: &str) -> (b: bool)
    ensures
        b == valid_mode(mode@),
{
    str_eq(mode, "100644") || str_eq(mode, "100755") || str_eq(mode, "120000") || str_eq(
        mode,
        "160000",
    ) || str_eq(mode, "040000")
}

pub open spec fn is_hex_byte(b: u8) -> bool {
    (48 <= b <= 57) || (97 <= b <= 102) || (65 <= b <= 70)
}

/// Forty hexadecimal digits, judged on the bytes of the text.
pub open spec fn valid_sha1(s: Seq<char>) -> bool {
    let b = encode_utf8(s);
    b.len() == 40 && forall|i: int| 0 <= i < 40 ==> is_hex_byte(#[trigger] b[i])
}

pub fn is_valid_sha1(sha: &str) -> (res: bool)
    ensures
        res == valid_sha1(sha@),
{
    let b = sha.as_bytes();
    if b.len() != 40 {
        return false;
    }
    let mut i: usize = 0;
    while i < 40
        invariant
            b@ == encode_utf8(sha@),
            b.len() == 40,
            i <= 40,
            forall|k: int| 0 <= k < i ==> is_hex_byte(#[trigger] b@[k]),
        decreases 40 - i,
    {
        let x = b[i];
        if !((48 <= x && x <= 57) || (97 <= x && x <= 102) || (65 <= x && x <= 70)) {
            return false;
        }
        i = i + 1;
    }
    true
}

// ---------------------------------------------------------------------------
// Paths
// ---------------------------------------------------------------------------

pub open spec fn is_octal_byte(b: u8) -> bool {
    48 <= b <= 55
}

/// The bytes of a C-style quoted string body from `i` on, with its escapes
/// replaced.
pub open spec fn unescape(b: Seq<u8>, i: int, lenient: bool) -> Result<Seq<u8>, Seq<char>>
    decreases b.len() - i,
{
    if i < 0 || i >= b.len() {
        Ok(Seq::empty())
    } else if b[i] == 92 && i + 1 < b.len() {
        let n = b[i + 1];
        let simple: Option<u8> = if n == 34 {
            Some(34u8)
        } else if n == 92 {
            Some(92u8)
        } else if n == 110 {
            Some(10u8)
        } else if n == 116 {
            Some(9u8)
        } else if n == 114 {
            Some(13u8)
        } else {
            None
        };
        if simple is Some {
            match unescape(b, i + 2, lenient) {
                Ok(r) => Ok(seq![simple->0] + r),
                Err(m) => Err(m),
            }
        } else if 48 <= n <= 51 && i + 3 < b.len() && is_octal_byte(b[i + 2]) && is_octal_byte(
            b[i + 3],
        ) {
            let v = ((n - 48) * 64 + (b[i + 2] - 48) * 8 + (b[i + 3] - 48)) as u8;
            match unescape(b, i + 4, lenient) {
                Ok(r) => Ok(seq![v] + r),
                Err(m) => Err(m),
            }
        } else if lenient {
            match unescape(b, i + 2, lenient) {
                Ok(r) => Ok(seq![n] + r),
                Err(m) => Err(m),
            }
        } else {
            Err("unsupported escape sequence: \\"@.push(n as char))
        }
    } else {
        match unescape(b, i + 1, lenient) {
            Ok(r) => Ok(seq![b[i]] + r),
            Err(m) => Err(m),
        }
    }
}

/// A C-style quoted string body, unescaped and read as UTF-8.
pub open spec fn c_string_spec(b: Seq<u8>, lenient: bool, line: int) -> Result<Seq<char>, PErr> {
    match unescape(b, 0, lenient) {
        Err(m) => Err(perr(line, m)),
        Ok(out) => match utf8(out) {
            Some(s) => Ok(s),
            None => Err(perr(line, "quoted path is not valid UTF-8 after unescaping"@)),
        },
    }
}

fn unquote_c_string(bytes: &[u8], lenient: bool, line_no: usize) -> (res: Result<String, ParseError>)
    ensures
        match c_string_spec(bytes@, lenient, line_no as int) {
            Ok(t) => res matches Ok(s) && s@ == t,
            Err(e) => res matches Err(x) && x.matches(e),
        },
{
    let mut out: Vec<u8> = Vec::new();
    let mut i: usize = 0;
    while i < bytes.len()
        invariant
            i <= bytes.len(),
            unescape(bytes@, 0, lenient) == match unescape(bytes@, i as int, lenient) {
                Ok(r) => Ok(out@ + r),
                Err(m) => Err(m),
            },
        decreases bytes.len() - i,
    {
        let ghost before = out@;
        let ghost i0 = i;
        if bytes[i] == 92 && i + 1 < bytes.len() {
            let next = bytes[i + 1];
            if next == 34 {
                out.push(34);
                i = i + 2;
            } else if next == 92 {
                out.push(92);
                i = i + 2;
            } else if next == 110 {
                out.push(10);
                i = i + 2;
            } else if next == 116 {
                out.push(9);
                i = i + 2;
            } else if next == 114 {
                out.push(13);
                i = i + 2;
            } else if 48 <= next && next <= 51 && bytes.len() - i > 3 && 48 <= bytes[i + 2]
                && bytes[i + 2] <= 55 && 48 <= bytes[i + 3] && bytes[i + 3] <= 55 {
                out.push((next - 48) * 64 + (bytes[i + 2] - 48) * 8 + (bytes[i + 3] - 48));
                i = i + 4;
            } else if lenient {
                out.push(next);
                i = i + 2;
            } else {
                let mut m = owned("unsupported escape sequence: \\");
                push_char(&mut m, next as char);
                return Err(ParseError { line: line_no, message: m });
            }
        } else {
            out.push(bytes[i]);
            i = i + 1;
        }
        proof {
            let x = out@.last();
            assert(out@ == before.push(x));
            match unescape(bytes@, i as int, lenient) {
                Ok(r) => {
                    assert(before + (seq![x] + r) =~= out@ + r);
                },
                Err(_) => {},
            }
        }
    }
    assert(out@ + Seq::<u8>::empty() =~= out@);
    match utf8_str(out.as_slice()) {
        Some(s) => Ok(owned(s)),
        None => Err(parse_error(line_no, "quoted path is not valid UTF-8 after unescaping")),
    }
}

/// A path field: quoted (C-style) or taken as it is.
pub open spec fn path_spec(b: Seq<u8>, lenient: bool, line: int) -> Result<Seq<char>, PErr> {
    if b.len() > 0 && b[0] == 34 {
        if b.len() < 2 || b.last() != 34 {
            if lenient {
                Ok(lossy_text(b))
            } else {
                Err(perr(line, "unterminated quoted path"@))
            }
        } else {
            c_string_spec(b.subrange(1, b.len() - 1), lenient, line)
        }
    } else {
        match utf8(b) {
            Some(s) => Ok(s),
            None => Err(perr(line, "path is not valid UTF-8"@)),
        }
    }
}

pub fn unquote_path(bytes: &[u8], lenient: bool, line_no: usize) -> (res: Result<String, ParseError>)
    ensures
        match path_spec(bytes@, lenient, line_no as int) {
            Ok(t) => res matches Ok(s) && s@ == t,
            Err(e) => res matches Err(x) && x.matches(e),
        },
{
    if bytes.len() > 0 && bytes[0] == 34 {
        if bytes.len() < 2 || bytes[bytes.len() - 1] != 34 {
            if lenient {
                return Ok(utf8_lossy(bytes));
            }
            return Err(parse_error(line_no, "unterminated quoted path"));
        }
        return unquote_c_string(&bytes[1..bytes.len() - 1], lenient, line_no);
    }
    match utf8_str(bytes) {
        Some(s) => Ok(owned(s)),
        None => Err(parse_error(line_no, "path is not valid UTF-8")),
    }
}

/// Scanning a quoted leading path from `i` for its closing quote.
pub open spec fn quote_scan(b: Seq<u8>, i: int, lenient: bool, line: int) -> Result<
    (Seq<u8>, Seq<u8>),
    PErr,
>
    decreases b.len() - i,
{
    if i < 0 || i >= b.len() {
        if lenient {
            Ok((b, Seq::empty()))
        } else {
            Err(perr(line, "unterminated quoted path"@))
        }
    } else if b[i] == 92 && i + 1 < b.len() {
        quote_scan(b, i + 2, lenient, line)
    } else if b[i] == 34 {
        let rest = b.subrange(i + 1, b.len() as int);
        if rest.len() > 0 && rest[0] == 32 {
            Ok((b.subrange(0, i + 1), rest.drop_first()))
        } else if lenient {
            Ok((b.subrange(0, i + 1), rest))
        } else {
            Err(perr(line, "expected a space after quoted path"@))
        }
    } else {
        quote_scan(b, i + 1, lenient, line)
    }
}

/// The first of two paths on a line, and the rest after the separating space.
pub open spec fn leading_path_spec(b: Seq<u8>, lenient: bool, line: int) -> Result<
    (Seq<u8>, Seq<u8>),
    PErr,
> {
    if b.len() > 0 && b[0] == 34 {
        quote_scan(b, 1, lenient, line)
    } else {
        match find_byte(b, 32, 0) {
            Some(idx) => Ok((b.subrange(0, idx), b.subrange(idx + 1, b.len() as int))),
            None => if lenient {
                Ok((b, Seq::empty()))
            } else {
                Err(perr(line, "expected two paths separated by a space"@))
            },
        }
    }
}

/// Splits off the leading path; the result is `(end of first, start of rest)`.
fn split_leading_path(bytes: &[u8], lenient: bool, line_no: usize) -> (res: Result<(usize, usize), ParseError>)
    ensures
        match leading_path_spec(bytes@, lenient, line_no as int) {
            Ok((first, rest)) => res matches Ok((a, r)) && a <= r <= bytes.len() && bytes@.subrange(
                0,
                a as int,
            ) == first && bytes@.subrange(r as int, bytes.len() as int) == rest,
            Err(e) => res matches Err(x) && x.matches(e),
        },
{
    let n = bytes.len();
    if n > 0 && bytes[0] == 34 {
        let mut i: usize = 1;
        while i < n
            invariant
                n == bytes.len(),
                1 <= i,
                n > 0 && bytes@[0] == 34,
                leading_path_spec(bytes@, lenient, line_no as int) == quote_scan(
                    bytes@,
                    i as int,
                    lenient,
                    line_no as int,
                ),
            decreases n - i,
        {
            if bytes[i] == 92 && i + 1 < n {
                i = i + 2;
                continue;
            }
            if bytes[i] == 34 {
                let ghost rest = bytes@.subrange(i + 1, n as int);
                if i + 1 < n && bytes[i + 1] == 32 {
                    assert(rest.drop_first() =~= bytes@.subrange(i + 2, n as int));
                    return Ok((i + 1, i + 2));
                } else if lenient {
                    return Ok((i + 1, i + 1));
                } else {
                    return Err(parse_error(line_no, "expected a space after quoted path"));
                }
            }
            i = i + 1;
        }
        if lenient {
            assert(bytes@.subrange(0, n as int) =~= bytes@);
            assert(bytes@.subrange(n as int, n as int) =~= Seq::<u8>::empty());
            return Ok((n, n));
        }
        return Err(parse_error(line_no, "unterminated quoted path"));
    }
    proof {
        lemma_find_byte(bytes@, 32, 0);
    }
    match find_byte_exec(bytes, 32, 0) {
        Some(idx) => Ok((idx, idx + 1)),
        None => {
            if lenient {
                assert(bytes@.subrange(0, n as int) =~= bytes@);
                assert(bytes@.subrange(n as int, n as int) =~= Seq::<u8>::empty());
                Ok((n, n))
            } else {
                Err(parse_error(line_no, "expected two paths separated by a space"))
            }
        },
    }
}

/// The two paths of a filecopy or filerename line.
pub open spec fn two_paths_spec(b: Seq<u8>, lenient: bool, line: int) -> Result<
    (Seq<char>, Seq<char>),
    PErr,
> {
    match leading_path_spec(b, lenient, line) {
        Err(e) => Err(e),
        Ok((first, rest)) => match path_spec(first, lenient, line) {
            Err(e) => Err(e),
            Ok(a) => match path_spec(rest, lenient, line) {
                Err(e) => Err(e),
                Ok(c) => Ok((a, c)),
            },
        },
    }
}

pub fn parse_two_paths(rest: &[u8], lenient: bool, line_no: usize) -> (res: Result<(String, String), ParseError>)
    ensures
        match two_paths_spec(rest@, lenient, line_no as int) {
            Ok((a, b)) => res matches Ok((x, y)) && x@ == a && y@ == b,
            Err(e) => res matches Err(x) && x.matches(e),
        },
{
    let (a, r) = split_leading_path(rest, lenient, line_no)?;
    let first = unquote_path(&rest[0..a], lenient, line_no)?;
    let second = unquote_path(&rest[r..rest.len()], lenient, line_no)?;
    Ok((first, second))
}

} // verus!
