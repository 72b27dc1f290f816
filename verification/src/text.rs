//! Character, string and decimal helpers shared by the JSON and fast-export code.
use vstd::prelude::*;
use vstd::utf8::*;

verus! {

broadcast use vstd::seq_lib::group_seq_properties;

// ---------------------------------------------------------------------------
// Strings and characters
// ---------------------------------------------------------------------------

/// Appends one character to a string (`String::push`).
/// Trusted: the std documentation says `push` appends the given char at the end.
#[verifier::external_body]
pub(crate) fn push_char(s: &mut String, c: char)
    ensures
        final(s)@ == old(s)@.push(c),
{
    s.push(c);
}

/// Appends a string slice to a string.
pub fn push_str(s: &mut String, t: &str)
    ensures
        final(s)@ == old(s)@ + t@,
{
    s.append(t);
}

/// A new string with the contents of `t`.
pub fn owned(t: &str) -> (out: String)
    ensures
        out@ == t@,
{
    t.to_owned()
}

/// Appends all of `src` to `out`.
pub fn push_bytes(out: &mut Vec<u8>, src: &[u8])
    ensures
        final(out)@ == old(out)@ + src@,
{
    let ghost before = out@;
    out.extend_from_slice(src);
    assert(out@ =~= before + src@);
}

/// Appends the UTF-8 bytes of a string slice to `out`.
pub fn push_str_bytes(out: &mut Vec<u8>, t: &str)
    ensures
        final(out)@ == old(out)@ + encode_utf8(t@),
{
    push_bytes(out, t.as_bytes());
}

/// The characters of a string slice, in order.
pub fn chars_of(s: &str) -> (out: Vec<char>)
    ensures
        out@ == s@,
{
    let mut out: Vec<char> = Vec::new();
    for c in it: s.chars()
        invariant
            out@ == it.seq().take(it.index() as int),
            it.seq() == s@,
    {
        out.push(c);
    }
    out
}

/// A string holding exactly the given characters.
pub fn string_from_chars(cs: &[char]) -> (out: String)
    ensures
        out@ == cs@,
{
    let mut out = String::new();
    let mut i: usize = 0;
    while i < cs.len()
        invariant
            i <= cs.len(),
            out@ == cs@.take(i as int),
        decreases cs.len() - i,
    {
        push_char(&mut out, cs[i]);
        assert(cs@.take(i + 1) == cs@.take(i as int).push(cs@[i as int]));
        i = i + 1;
    }
    assert(cs@.take(cs.len() as int) == cs@);
    out
}

/// A string holding the characters `cs[start..end]`.
pub fn string_from_range(cs: &[char], start: usize, end: usize) -> (out: String)
    requires
        start <= end <= cs.len(),
    ensures
        out@ == cs@.subrange(start as int, end as int),
{
    let mut out = String::new();
    let mut i: usize = start;
    while i < end
        invariant
            start <= i <= end <= cs.len(),
            out@ == cs@.subrange(start as int, i as int),
        decreases end - i,
    {
        push_char(&mut out, cs[i]);
        assert(cs@.subrange(start as int, i + 1) == cs@.subrange(start as int, i as int).push(
            cs@[i as int],
        ));
        i = i + 1;
    }
    out
}

/// Whether two character sequences are equal.
pub fn chars_eq(a: &[char], b: &[char]) -> (res: bool)
    ensures
        res == (a@ == b@),
{
    if a.len() != b.len() {
        return false;
    }
    let mut i: usize = 0;
    while i < a.len()
        invariant
            a.len() == b.len(),
            i <= a.len(),
            forall|k: int| 0 <= k < i ==> a@[k] == b@[k],
        decreases a.len() - i,
    {
        if a[i] != b[i] {
            return false;
        }
        i = i + 1;
    }
    assert(a@ =~= b@);
    true
}

/// Whether two byte sequences are equal.
pub fn bytes_eq(a: &[u8], b: &[u8]) -> (res: bool)
    ensures
        res == (a@ == b@),
{
    if a.len() != b.len() {
        return false;
    }
    let mut i: usize = 0;
    while i < a.len()
        invariant
            a.len() == b.len(),
            i <= a.len(),
            forall|k: int| 0 <= k < i ==> a@[k] == b@[k],
        decreases a.len() - i,
    {
        if a[i] != b[i] {
            return false;
        }
        i = i + 1;
    }
    assert(a@ =~= b@);
    true
}

/// Whether `s` begins with `prefix`.
pub open spec fn has_prefix<T>(s: Seq<T>, prefix: Seq<T>) -> bool {
    prefix.len() <= s.len() && s.subrange(0, prefix.len() as int) == prefix
}

/// Whether `data[start..end]` begins with `prefix`.
pub fn range_starts_with(data: &[u8], start: usize, end: usize, prefix: &[u8]) -> (res: bool)
    requires
        start <= end <= data.len(),
    ensures
        res == has_prefix(data@.subrange(start as int, end as int), prefix@),
{
    if prefix.len() > end - start {
        return false;
    }
    let mut i: usize = 0;
    while i < prefix.len()
        invariant
            start <= end <= data.len(),
            prefix.len() <= end - start,
            i <= prefix.len(),
            forall|k: int| 0 <= k < i ==> data@[start + k] == prefix@[k],
        decreases prefix.len() - i,
    {
        if data[start + i] != prefix[i] {
            assert(data@.subrange(start as int, end as int)[i as int] == data@[start + i]);
            return false;
        }
        i = i + 1;
    }
    assert(data@.subrange(start as int, end as int).subrange(0, prefix.len() as int) =~= prefix@);
    true
}

/// Whether two string slices hold the same characters.
pub fn str_eq(a: &str, b: &str) -> (res: bool)
    ensures
        res == (a@ == b@),
{
    proof {
        encode_utf8_decode_utf8(a@);
        encode_utf8_decode_utf8(b@);
    }
    bytes_eq(a.as_bytes(), b.as_bytes())
}

// ---------------------------------------------------------------------------
// Whitespace and trimming
// ---------------------------------------------------------------------------

/// The Unicode `White_Space` property, which `char::is_whitespace` and
/// `str::trim` go by.
pub open spec fn is_ws(c: char) -> bool {
    let u = c as u32;
    ||| 0x9 <= u <= 0xd
    ||| u == 0x20
    ||| u == 0x85
    ||| u == 0xa0
    ||| u == 0x1680
    ||| 0x2000 <= u <= 0x200a
    ||| u == 0x2028
    ||| u == 0x2029
    ||| u == 0x202f
    ||| u == 0x205f
    ||| u == 0x3000
}

/// Whether `c` is whitespace in the sense of `char::is_whitespace`.
pub fn is_whitespace(c: char) -> (b: bool)
    ensures
        b == is_ws(c),
{
    let u = c as u32;
    (0x9 <= u && u <= 0xd) || u == 0x20 || u == 0x85 || u == 0xa0 || u == 0x1680 || (0x2000 <= u
        && u <= 0x200a) || u == 0x2028 || u == 0x2029 || u == 0x202f || u == 0x205f || u == 0x3000
}

/// The number of whitespace characters in `s` from index `i` on, up to the
/// first character that is not whitespace.
pub open spec fn ws_run(s: Seq<char>, i: int) -> nat
    decreases s.len() - i,
{
    if 0 <= i < s.len() && is_ws(s[i]) {
        1 + ws_run(s, i + 1)
    } else {
        0
    }
}

/// The number of whitespace characters that end `s.take(j)`.
pub open spec fn ws_run_back(s: Seq<char>, j: int) -> nat
    decreases j,
{
    if 0 < j <= s.len() && is_ws(s[j - 1]) {
        1 + ws_run_back(s, j - 1)
    } else {
        0
    }
}

/// `s` without leading and trailing whitespace (`str::trim`).
pub open spec fn trim(s: Seq<char>) -> Seq<char> {
    let a = ws_run(s, 0);
    if a >= s.len() {
        Seq::empty()
    } else {
        s.subrange(a as int, s.len() - ws_run_back(s, s.len() as int))
    }
}

pub proof fn lemma_ws_run_bounds(s: Seq<char>, i: int)
    requires
        0 <= i <= s.len(),
    ensures
        i + ws_run(s, i) <= s.len(),
        forall|k: int| i <= k < i + ws_run(s, i) ==> is_ws(#[trigger] s[k]),
        i + ws_run(s, i) < s.len() ==> !is_ws(s[i + ws_run(s, i)]),
    decreases s.len() - i,
{
    if i < s.len() && is_ws(s[i]) {
        lemma_ws_run_bounds(s, i + 1);
    }
}

pub proof fn lemma_ws_run_back_bounds(s: Seq<char>, j: int)
    requires
        0 <= j <= s.len(),
    ensures
        ws_run_back(s, j) <= j,
        forall|k: int| j - ws_run_back(s, j) <= k < j ==> is_ws(#[trigger] s[k]),
        j - ws_run_back(s, j) > 0 ==> !is_ws(s[j - ws_run_back(s, j) - 1]),
    decreases j,
{
    if j > 0 && is_ws(s[j - 1]) {
        lemma_ws_run_back_bounds(s, j - 1);
    }
}

/// Trimming keeps at least the first non-whitespace character.
pub proof fn lemma_trim_bounds(s: Seq<char>)
    ensures
        ws_run(s, 0) < s.len() ==> ws_run(s, 0) < s.len() - ws_run_back(s, s.len() as int),
{
    lemma_ws_run_bounds(s, 0);
    lemma_ws_run_back_bounds(s, s.len() as int);
    let a = ws_run(s, 0) as int;
    let b = s.len() - ws_run_back(s, s.len() as int);
    if a < s.len() && a >= b {
        assert(is_ws(s[a]));
    }
}

/// The index of the first character at or after `i` that is not whitespace.
pub fn skip_ws_index(s: &[char], i: usize) -> (j: usize)
    requires
        i <= s.len(),
    ensures
        j == i + ws_run(s@, i as int),
        j <= s.len(),
{
    proof {
        lemma_ws_run_bounds(s@, i as int);
    }
    let mut j = i;
    while j < s.len() && is_whitespace(s[j])
        invariant
            i <= j <= s.len(),
            ws_run(s@, i as int) == (j - i) + ws_run(s@, j as int),
        decreases s.len() - j,
    {
        j = j + 1;
    }
    j
}

/// The bounds `(start, end)` of `s` without leading and trailing whitespace.
pub fn trim_bounds(s: &[char]) -> (r: (usize, usize))
    ensures
        r.0 <= r.1 <= s.len(),
        s@.subrange(r.0 as int, r.1 as int) == trim(s@),
{
    let a = skip_ws_index(s, 0);
    if a >= s.len() {
        return (s.len(), s.len());
    }
    proof {
        lemma_trim_bounds(s@);
        lemma_ws_run_back_bounds(s@, s.len() as int);
    }
    let mut b = s.len();
    while b > 0 && is_whitespace(s[b - 1])
        invariant
            a < s.len(),
            a == ws_run(s@, 0),
            0 <= b <= s.len(),
            ws_run_back(s@, s.len() as int) == (s.len() - b) + ws_run_back(s@, b as int),
        decreases b,
    {
        b = b - 1;
    }
    (a, b)
}

/// `s` without leading and trailing whitespace, as a new string.
pub fn trim_string(s: &str) -> (out: String)
    ensures
        out@ == trim(s@),
{
    let cs = chars_of(s);
    let (a, b) = trim_bounds(cs.as_slice());
    string_from_range(cs.as_slice(), a, b)
}

// ---------------------------------------------------------------------------
// UTF-8
// ---------------------------------------------------------------------------

/// What `String::from_utf8_lossy` makes of a byte sequence. Its definition
/// (maximal invalid subparts replaced by U+FFFD) is left to the std source.
pub uninterp spec fn lossy_utf8(bytes: Seq<u8>) -> Seq<char>;

/// What `String::from_utf8_lossy` gives: the decoded text of valid UTF-8,
/// and otherwise the lossy reading.
pub open spec fn lossy_text(bytes: Seq<u8>) -> Seq<char> {
    if valid_utf8(bytes) {
        decode_utf8(bytes)
    } else {
        lossy_utf8(bytes)
    }
}

/// `String::from_utf8_lossy`. Trusted: the result is named by `lossy_utf8`,
/// and the std documentation says that valid UTF-8 is returned as it is.
#[verifier::external_body]
pub(crate) fn utf8_lossy(bytes: &[u8]) -> (res: String)
    ensures
        res@ == lossy_utf8(bytes@),
        valid_utf8(bytes@) ==> res@ == decode_utf8(bytes@),
{
    String::from_utf8_lossy(bytes).into_owned()
}

/// `std::str::from_utf8`. Trusted: the std documentation says it succeeds
/// exactly on valid UTF-8, and then the result holds the decoded characters.
#[verifier::external_body]
pub(crate) fn utf8_str(bytes: &[u8]) -> (res: Option<&str>)
    ensures
        res is Some <==> valid_utf8(bytes@),
        res matches Some(s) ==> s@ == decode_utf8(bytes@),
{
    std::str::from_utf8(bytes).ok()
}

/// `char::from_u32`. Trusted: the std documentation says it succeeds exactly
/// on Unicode scalar values (at most 0x10FFFF and not a surrogate).
#[verifier::external_body]
pub(crate) fn char_from_u32(u: u32) -> (res: Option<char>)
    ensures
        res is Some <==> (u < 0xD800 || (0xE000 <= u <= 0x10FFFF)),
        res matches Some(c) ==> c as u32 == u,
{
    char::from_u32(u)
}

// ---------------------------------------------------------------------------
// Decimal numbers
// ---------------------------------------------------------------------------

pub open spec fn digit_char(d: nat) -> char {
    (d + 48) as char
}

/// The decimal digits of `n`, most significant first, without leading zeros.
pub open spec fn decimal(n: nat) -> Seq<char>
    decreases n,
{
    if n < 10 {
        seq![digit_char(n)]
    } else {
        decimal(n / 10).push(digit_char(n % 10))
    }
}

/// The decimal form of an integer, as `i64::to_string` writes it.
pub open spec fn decimal_int(n: int) -> Seq<char> {
    if n < 0 {
        seq!['-'] + decimal((-n) as nat)
    } else {
        decimal(n as nat)
    }
}

/// Appends the decimal digits of `n`.
pub fn push_decimal(out: &mut String, n: u64)
    ensures
        final(out)@ == old(out)@ + decimal(n as nat),
    decreases n,
{
    if n >= 10 {
        push_decimal(out, n / 10);
    }
    let d = (n % 10) as u32 + 48;
    let c = char_from_digit(d);
    push_char(out, c);
}

/// The ASCII digit with code `d`.
pub fn char_from_digit(d: u32) -> (c: char)
    requires
        48 <= d <= 57,
    ensures
        c == d as char,
        c as u32 == d,
{
    let r = char_from_u32(d);
    match r {
        Some(c) => {
            proof {
                vstd::utf8::char_u32_cast(c, d);
            }
            c
        },
        None => {
            proof {
                assert(false);
            }
            ' '
        },
    }
}

/// Appends the decimal form of `n` (as `i64::to_string` does).
pub fn push_decimal_i64(out: &mut String, n: i64)
    ensures
        final(out)@ == old(out)@ + decimal_int(n as int),
{
    if n < 0 {
        push_char(out, '-');
        let m: u64 = if n == i64::MIN {
            9223372036854775808u64
        } else {
            (-n) as u64
        };
        let ghost mid = out@;
        push_decimal(out, m);
        assert(out@ == old(out)@ + (seq!['-'] + decimal((-n) as nat)));
    } else {
        push_decimal(out, n as u64);
    }
}

pub open spec fn is_digit(c: char) -> bool {
    '0' <= c <= '9'
}

pub open spec fn all_digits(s: Seq<char>) -> bool {
    forall|i: int| 0 <= i < s.len() ==> is_digit(#[trigger] s[i])
}

/// The number that a sequence of ASCII digits spells in decimal.
pub open spec fn digits_value(s: Seq<char>) -> nat
    decreases s.len(),
{
    if s.len() == 0 {
        0
    } else {
        digits_value(s.drop_last()) * 10 + (s.last() as nat - 48) as nat
    }
}

/// The digits after an optional sign character.
pub open spec fn unsigned_digits(s: Seq<char>) -> Seq<char> {
    if s.len() > 0 && s[0] == '+' {
        s.drop_first()
    } else {
        s
    }
}

/// What `str::parse` gives for an unsigned integer type whose largest value
/// is `max`: an optional `+`, then at least one ASCII digit, in range.
pub open spec fn parse_unsigned(s: Seq<char>, max: nat) -> Option<nat> {
    let d = unsigned_digits(s);
    if d.len() > 0 && all_digits(d) && digits_value(d) <= max {
        Some(digits_value(d))
    } else {
        None
    }
}

/// What `str::parse::<i64>` gives: an optional `+` or `-`, then at least one
/// ASCII digit, in range.
pub open spec fn parse_i64_spec(s: Seq<char>) -> Option<i64> {
    if s.len() > 0 && s[0] == '-' {
        let d = s.drop_first();
        if d.len() > 0 && all_digits(d) && digits_value(d) <= 9223372036854775808 {
            Some((-digits_value(d)) as i64)
        } else {
            None
        }
    } else {
        match parse_unsigned(s, 9223372036854775807) {
            Some(v) => Some(v as i64),
            None => None,
        }
    }
}

pub proof fn lemma_digits_value_take(s: Seq<char>, i: int)
    requires
        0 <= i < s.len(),
    ensures
        digits_value(s.take(i + 1)) == digits_value(s.take(i)) * 10 + (s[i] as nat - 48) as nat,
{
    assert(s.take(i + 1).drop_last() =~= s.take(i));
}

pub proof fn lemma_digits_value_mono(s: Seq<char>, i: int, j: int)
    requires
        0 <= i <= j <= s.len(),
        all_digits(s),
    ensures
        digits_value(s.take(i)) <= digits_value(s.take(j)),
    decreases j - i,
{
    if i < j {
        lemma_digits_value_mono(s, i, j - 1);
        lemma_digits_value_take(s, j - 1);
        assert(is_digit(s[j - 1]));
    }
}

/// Parses the digits `s[start..end]` (all ASCII digits, at least one), giving
/// `None` when the value exceeds `max`.
fn parse_digits(s: &[char], start: usize, end: usize, max: u64) -> (res: Option<u64>)
    requires
        start < end <= s.len(),
        all_digits(s@.subrange(start as int, end as int)),
    ensures
        res matches Some(v) ==> v == digits_value(s@.subrange(start as int, end as int)) && v
            <= max,
        res is None ==> digits_value(s@.subrange(start as int, end as int)) > max,
{
    let ghost d = s@.subrange(start as int, end as int);
    let mut acc: u64 = 0;
    let mut i = start;
    assert(d.take(0) =~= Seq::<char>::empty());
    while i < end
        invariant
            start <= i <= end <= s.len(),
            d == s@.subrange(start as int, end as int),
            all_digits(d),
            acc == digits_value(d.take(i - start)),
            acc <= max,
        decreases end - i,
    {
        proof {
            lemma_digits_value_take(d, i - start);
            assert(d[i - start] == s@[i as int]);
            assert(is_digit(d[i - start]));
        }
        let dv = (s[i] as u32 - 48) as u64;
        let next = match acc.checked_mul(10) {
            Some(x) => x.checked_add(dv),
            None => None,
        };
        match next {
            Some(x) if x <= max => {
                acc = x;
            },
            _ => {
                proof {
                    lemma_digits_value_mono(d, i - start + 1, d.len() as int);
                    assert(d.take(d.len() as int) =~= d);
                }
                return None;
            },
        }
        i = i + 1;
    }
    assert(d.take(end - start) =~= d);
    Some(acc)
}

/// Whether `s[start..end]` consists of ASCII digits only.
fn range_all_digits(s: &[char], start: usize, end: usize) -> (b: bool)
    requires
        start <= end <= s.len(),
    ensures
        b == all_digits(s@.subrange(start as int, end as int)),
{
    let mut i = start;
    while i < end
        invariant
            start <= i <= end <= s.len(),
            forall|k: int| start <= k < i ==> is_digit(#[trigger] s@[k]),
        decreases end - i,
    {
        if !('0' <= s[i] && s[i] <= '9') {
            assert(!is_digit(s@.subrange(start as int, end as int)[i - start]));
            return false;
        }
        i = i + 1;
    }
    assert forall|k: int| 0 <= k < end - start implies is_digit(
        #[trigger] s@.subrange(start as int, end as int)[k],
    ) by {
        assert(s@.subrange(start as int, end as int)[k] == s@[start + k]);
    }
    true
}

/// Parses an unsigned decimal integer as `str::parse` does for an unsigned
/// type whose largest value is `max`.
pub fn parse_unsigned_chars(s: &[char], max: u64) -> (res: Option<u64>)
    ensures
        res matches Some(v) ==> parse_unsigned(s@, max as nat) == Some(v as nat),
        res is None ==> parse_unsigned(s@, max as nat) is None,
{
    let start: usize = if s.len() > 0 && s[0] == '+' {
        1
    } else {
        0
    };
    assert(unsigned_digits(s@) =~= s@.subrange(start as int, s.len() as int));
    if start >= s.len() || !range_all_digits(s, start, s.len()) {
        return None;
    }
    parse_digits(s, start, s.len(), max)
}

/// Parses a signed decimal integer as `str::parse::<i64>` does.
pub fn parse_i64_chars(s: &[char]) -> (res: Option<i64>)
    ensures
        res == parse_i64_spec(s@),
{
    if s.len() > 0 && s[0] == '-' {
        assert(s@.drop_first() =~= s@.subrange(1, s.len() as int));
        if s.len() < 2 || !range_all_digits(s, 1, s.len()) {
            return None;
        }
        match parse_digits(s, 1, s.len(), 9223372036854775808u64) {
            Some(v) => {
                let r: i64 = if v == 9223372036854775808u64 {
                    i64::MIN
                } else {
                    -(v as i64)
                };
                Some(r)
            },
            None => None,
        }
    } else {
        match parse_unsigned_chars(s, 9223372036854775807u64) {
            Some(v) => Some(v as i64),
            None => None,
        }
    }
}

/// The decimal digits of `n` are digits, spell `n`, and do not start with a sign.
pub proof fn lemma_decimal(n: nat)
    ensures
        decimal(n).len() >= 1,
        all_digits(decimal(n)),
        digits_value(decimal(n)) == n,
    decreases n,
{
    if n >= 10 {
        lemma_decimal(n / 10);
        let d = decimal(n / 10);
        assert(decimal(n).drop_last() =~= d);
        assert(decimal(n).last() == digit_char(n % 10));
        assert((digit_char(n % 10) as nat) == n % 10 + 48);
        assert(n == (n / 10) * 10 + n % 10);
        assert(digits_value(decimal(n)) == digits_value(d) * 10 + ((decimal(n).last() as nat - 48) as nat));
        assert(digits_value(decimal(n)) == (n / 10) * 10 + n % 10);
        assert forall|i: int| 0 <= i < decimal(n).len() implies is_digit(#[trigger] decimal(n)[i]) by {
            if i < d.len() {
                assert(decimal(n)[i] == d[i]);
            }
        }
    } else {
        assert((digit_char(n) as nat) == n + 48);
        assert(decimal(n).drop_last() =~= Seq::<char>::empty());
        assert(digits_value(decimal(n).drop_last()) == 0);
        assert(digits_value(decimal(n)) == 0 * 10 + ((decimal(n).last() as nat - 48) as nat));
    }
}

/// Reading back the decimal form of an `i64` gives the same number.
pub proof fn lemma_parse_decimal_int(n: i64)
    ensures
        parse_i64_spec(decimal_int(n as int)) == Some(n),
        decimal_int(n as int).len() >= 1,
        decimal_int(n as int)[0] == '-' || is_digit(decimal_int(n as int)[0]),
        all_digits(decimal_int(n as int).subrange(
            if n < 0 { 1 } else { 0 },
            decimal_int(n as int).len() as int,
        )),
{
    if n < 0 {
        let m = (-n) as nat;
        lemma_decimal(m);
        let s = decimal_int(n as int);
        assert(s.drop_first() =~= decimal(m));
        assert(s.subrange(1, s.len() as int) =~= decimal(m));
    } else {
        lemma_decimal(n as nat);
        let s = decimal(n as nat);
        assert(is_digit(s[0]));
        assert(unsigned_digits(s) == s);
        assert(s.subrange(0, s.len() as int) =~= s);
    }
}


/// The UTF-8 bytes of joined texts are the joined bytes.
pub proof fn lemma_encode_concat(a: Seq<char>, b: Seq<char>)
    ensures
        encode_utf8(a + b) == encode_utf8(a) + encode_utf8(b),
    decreases a.len(),
{
    if a.len() == 0 {
        assert(a + b =~= b);
        assert(encode_utf8(a) =~= Seq::<u8>::empty());
        assert(encode_utf8(a) + encode_utf8(b) =~= encode_utf8(b));
    } else {
        lemma_encode_concat(a.drop_first(), b);
        assert((a + b).drop_first() =~= a.drop_first() + b);
        assert((a + b)[0] == a[0]);
        assert(encode_utf8(a + b) =~= encode_scalar(a[0] as u32) + (encode_utf8(a.drop_first())
            + encode_utf8(b)));
    }
}

/// Trimming leaves a text alone that neither begins nor ends with whitespace.
pub proof fn lemma_trim_unpadded(s: Seq<char>)
    requires
        s.len() > 0,
        !is_ws(s[0]),
        !is_ws(s.last()),
    ensures
        trim(s) == s,
{
    assert(ws_run(s, 0) == 0);
    assert(ws_run_back(s, s.len() as int) == 0);
    assert(s.subrange(0, s.len() as int) =~= s);
}

} // verus!
