//! Reading back what the writer writes: for events whose texts can stand on
//! their lines, reading the stream written for them gives them back.
use vstd::prelude::*;
use vstd::utf8::*;
use crate::text::{
    lossy_text, trim, decimal, decimal_int, is_ws, is_digit, all_digits, digits_value, parse_unsigned,
    has_prefix, lemma_decimal, lemma_trim_unpadded, lemma_encode_concat, ws_run, ws_run_back,
    parse_i64_spec, lemma_parse_decimal_int, digit_char,
};
use crate::fields::{
    utf8, rfind_char, non_ws_run, next_field, person_parts, person_spec, commitish_spec, PErr,
    unescape, c_string_spec, path_spec, quote_scan, leading_path_spec, two_paths_spec, find_byte,
    is_octal_byte, mark_id_spec, valid_mode, valid_sha1,
};
use crate::json::free_of;
use vstd::seq_lib::lemma_concat_associative;
use crate::model::{redact_spec, PersonModel, DataRefModel, FileChangeModel, CommitModel, TagModel, EventModel, valid_tz, valid_tz_bytes, is_ascii_digit_byte};
use crate::fastexport::{
    kw, nl, sp, line_end, line_at, line_adv, lemma_line_end, peek_starts, line_rest, data_spec,
    data_bytes, mark_line, opt_mark_spec, person_bytes, ref_name, path_text, escape_path,
    escape_path_char, needs_quoting, special_char, dataref_spec, filemodify_spec, notemodify_spec,
    change_line_spec, dataref_bytes, inline_data, change_bytes, changes_bytes, changes_spec,
    merges_bytes, merges_spec, opt_line, opt_from_spec, opt_person_line, opt_person_spec,
    commit_spec, commit_bytes, commit_head, required_line, tag_spec, tag_bytes, blob_spec,
    reset_spec, ls_spec, command_spec, event_bytes, with_mark, defined_mark, events_spec,
    parse_spec, write_spec,
};

verus! {

broadcast use vstd::seq_lib::group_seq_properties;

// ---------------------------------------------------------------------------
// Bytes at a position
// ---------------------------------------------------------------------------

/// `x` stands in `d` from `p` on.
pub open spec fn at_b(d: Seq<u8>, p: int, x: Seq<u8>) -> bool {
    0 <= p && p + x.len() <= d.len() && d.subrange(p, p + x.len()) == x
}

proof fn lemma_at_split(d: Seq<u8>, p: int, x: Seq<u8>, y: Seq<u8>)
    requires
        at_b(d, p, x + y),
    ensures
        at_b(d, p, x),
        at_b(d, p + x.len(), y),
{
    let big = d.subrange(p, p + (x + y).len());
    assert forall|i: int| 0 <= i < x.len() implies d.subrange(p, p + x.len())[i] == x[i] by {
        assert(big[i] == d[p + i]);
        assert((x + y)[i] == x[i]);
    }
    assert(d.subrange(p, p + x.len()) =~= x);
    assert forall|i: int| 0 <= i < y.len() implies d.subrange(p + x.len(), p + x.len() + y.len())[i] == y[i] by {
        assert(big[x.len() + i] == d[p + x.len() + i]);
        assert((x + y)[x.len() + i] == y[i]);
    }
    assert(d.subrange(p + x.len(), p + x.len() + y.len()) =~= y);
}

proof fn lemma_at_index(d: Seq<u8>, p: int, x: Seq<u8>, i: int)
    requires
        at_b(d, p, x),
        0 <= i < x.len(),
    ensures
        d[p + i] == x[i],
{
    assert(d.subrange(p, p + x.len())[i] == d[p + i]);
}

/// `b` holds no byte `v`.
pub open spec fn no_byte(b: Seq<u8>, v: u8) -> bool {
    forall|i: int| 0 <= i < b.len() ==> b[i] != v
}

proof fn lemma_no_byte_concat(a: Seq<u8>, b: Seq<u8>, v: u8)
    requires
        no_byte(a, v),
        no_byte(b, v),
    ensures
        no_byte(a + b, v),
{
    assert forall|i: int| 0 <= i < (a + b).len() implies (a + b)[i] != v by {
        if i < a.len() {
            assert((a + b)[i] == a[i]);
        } else {
            assert((a + b)[i] == b[i - a.len()]);
        }
    }
}

proof fn lemma_line_end_at(d: Seq<u8>, p: int, q: int)
    requires
        0 <= p <= q <= d.len(),
        forall|k: int| p <= k < q ==> d[k] != 10,
        q < d.len() ==> d[q] == 10,
    ensures
        line_end(d, p) == q,
    decreases q - p,
{
    if p < q {
        lemma_line_end_at(d, p + 1, q);
    }
}

/// A line `x` followed by its newline, at `p`.
proof fn lemma_line_read(d: Seq<u8>, p: int, x: Seq<u8>)
    requires
        at_b(d, p, x + nl()),
        no_byte(x, 10),
    ensures
        line_end(d, p) == p + x.len(),
        line_at(d, p) == x,
        line_adv(d, p) == x.len() + 1,
        p < d.len(),
{
    lemma_at_split(d, p, x, nl());
    assert forall|k: int| p <= k < p + x.len() implies d[k] != 10 by {
        lemma_at_index(d, p, x, k - p);
    }
    lemma_at_index(d, p + x.len(), nl(), 0);
    lemma_line_end_at(d, p, p + x.len());
}

/// The line at `p` does not begin with `key` when its first byte differs.
proof fn lemma_not_peek(d: Seq<u8>, p: int, key: Seq<u8>)
    requires
        0 <= p < d.len(),
        key.len() > 0,
        d[p] != key[0],
    ensures
        !peek_starts(d, p, key),
{
    lemma_line_end(d, p);
    if has_prefix(line_at(d, p), key) {
        assert(line_at(d, p)[0] == d[p]);
        assert(line_at(d, p).subrange(0, key.len() as int)[0] == key[0]);
    }
}

/// A line that begins with `key` and what follows it.
proof fn lemma_prefix_rest(line: Seq<u8>, key: Seq<u8>, rest: Seq<u8>)
    requires
        line == key + rest,
    ensures
        has_prefix(line, key),
        line.subrange(key.len() as int, line.len() as int) == rest,
{
    assert(line.subrange(0, key.len() as int) =~= key);
    assert(line.subrange(key.len() as int, line.len() as int) =~= rest);
}

// ---------------------------------------------------------------------------
// Encodings
// ---------------------------------------------------------------------------

proof fn lemma_scalar_bytes_high(c: u32)
    requires
        is_scalar(c),
        !has_width_1_encoding(c),
    ensures
        forall|i: int| 0 <= i < encode_scalar(c).len() ==> encode_scalar(c)[i] >= 0x80,
{
    assert(last_continuation_byte(c) >= 0x80) by (bit_vector);
    assert(second_last_continuation_byte(c) >= 0x80) by (bit_vector);
    assert(third_last_continuation_byte(c) >= 0x80) by (bit_vector);
    assert(leading_byte_width_2(c) >= 0x80) by (bit_vector);
    assert(leading_byte_width_3(c) >= 0x80) by (bit_vector);
    assert(leading_byte_width_4(c) >= 0x80) by (bit_vector);
}

/// The bytes of a text hold an ASCII byte only where the text holds its character.
pub proof fn lemma_encode_no_byte(s: Seq<char>, v: u8)
    requires
        v < 128,
        forall|i: int| 0 <= i < s.len() ==> (s[i] as u32) != (v as u32),
    ensures
        no_byte(encode_utf8(s), v),
    decreases s.len(),
{
    if s.len() > 0 {
        lemma_encode_no_byte(s.drop_first(), v);
        let c = s[0] as u32;
        char_is_scalar(s[0]);
        let e = encode_scalar(c);
        if has_width_1_encoding(c) {
            assert(leading_byte_width_1(c) == c as u8) by (bit_vector)
                requires
                    c <= 0x7f,
            ;
            assert(e[0] != v);
        } else {
            lemma_scalar_bytes_high(c);
        }
        assert(no_byte(e, v));
        lemma_no_byte_concat(e, encode_utf8(s.drop_first()), v);
    }
}

/// The bytes of an ASCII text are its characters.
proof fn lemma_ascii_kw(s: Seq<char>)
    requires
        is_ascii_chars(s),
    ensures
        kw(s).len() == s.len(),
        forall|i: int| 0 <= i < s.len() ==> #[trigger] kw(s)[i] == s[i] as u8,
{
    is_ascii_chars_encode_utf8(s);
}

/// Reading the bytes of a text as UTF-8 gives the text.
proof fn lemma_utf8_kw(s: Seq<char>)
    ensures
        utf8(kw(s)) == Some(s),
{
    encode_utf8_valid_utf8(s);
    encode_utf8_decode_utf8(s);
}

// ---------------------------------------------------------------------------
// Numbers
// ---------------------------------------------------------------------------

proof fn lemma_decimal_text(n: nat)
    ensures
        decimal(n).len() > 0,
        is_ascii_chars(decimal(n)),
        forall|i: int| 0 <= i < decimal(n).len() ==> is_digit(#[trigger] decimal(n)[i]),
        trim(decimal(n)) == decimal(n),
        forall|max: nat| n <= max ==> #[trigger] parse_unsigned(decimal(n), max) == Some(n),
        no_byte(kw(decimal(n)), 10),
        kw(decimal(n)).len() == decimal(n).len(),
        48 <= kw(decimal(n))[0] <= 57,
{
    lemma_decimal(n);
    let s = decimal(n);
    assert(is_digit(s[0]));
    assert(is_digit(s.last()));
    lemma_trim_unpadded(s);
    lemma_ascii_kw(s);
    assert forall|i: int| 0 <= i < s.len() implies kw(s)[i] != 10 by {
        assert(is_digit(s[i]));
    }
}

// ---------------------------------------------------------------------------
// Data blocks and marks
// ---------------------------------------------------------------------------

proof fn lemma_kw_data()
    ensures
        kw("data "@).len() == 5,
        kw("data "@)[0] == 100,
        no_byte(kw("data "@), 10),
        kw("<<"@).len() == 2,
        kw("<<"@)[0] == 60,
{
    reveal_strlit("data ");
    reveal_strlit("<<");
    lemma_ascii_kw("data "@);
    lemma_ascii_kw("<<"@);
}

/// Reading a data block that the writer wrote.
pub proof fn lemma_data_read(d: Seq<u8>, p: int, l: int, data: Seq<u8>, lenient: bool)
    requires
        at_b(d, p, data_bytes(data)),
        data.len() <= usize::MAX,
    ensures
        data_spec(d, p, l, lenient) matches Ok((v, x, _)) && v == data && x == data_bytes(data).len(),
{
    reveal(data_spec);
    let n = data.len();
    let head = kw("data "@) + kw(decimal(n));
    lemma_kw_data();
    lemma_decimal_text(n);
    lemma_no_byte_concat(kw("data "@), kw(decimal(n)), 10);
    assert(data_bytes(data) =~= (head + nl()) + (data + nl()));
    lemma_at_split(d, p, head + nl(), data + nl());
    lemma_line_read(d, p, head);
    lemma_prefix_rest(head, kw("data "@), kw(decimal(n)));
    let rest = kw(decimal(n));
    assert(line_rest(d, p, kw("data "@)) == rest);
    assert(!has_prefix(rest, kw("<<"@))) by {
        if has_prefix(rest, kw("<<"@)) {
            assert(rest.subrange(0, 2)[0] == rest[0]);
        }
    }
    lemma_utf8_kw(decimal(n));
    assert(parse_unsigned(decimal(n), usize::MAX as nat) == Some(n));
    let p1 = p + head.len() + 1;
    lemma_at_split(d, p1, data, nl());
    lemma_at_index(d, p1 + n, nl(), 0);
}

proof fn lemma_kw_mark()
    ensures
        kw("mark :"@).len() == 6,
        kw("mark :"@)[0] == 109,
        no_byte(kw("mark :"@), 10),
{
    reveal_strlit("mark :");
    lemma_ascii_kw("mark :"@);
}

/// Reading the optional mark line that the writer wrote, before `after`
/// (which does not begin with `m`).
pub proof fn lemma_opt_mark_read(d: Seq<u8>, p: int, l: int, mark: Option<u64>, after: Seq<u8>)
    requires
        at_b(d, p, mark_line(mark) + after),
        after.len() > 0,
        after[0] != 109,
    ensures
        opt_mark_spec(d, p, l) matches Ok((v, x, _)) && v == mark && x == mark_line(mark).len(),
{
    lemma_kw_mark();
    lemma_at_split(d, p, mark_line(mark), after);
    match mark {
        Some(id) => {
            let head = kw("mark :"@) + kw(decimal(id as nat));
            lemma_decimal_text(id as nat);
            lemma_no_byte_concat(kw("mark :"@), kw(decimal(id as nat)), 10);
            assert(mark_line(mark) =~= head + nl());
            lemma_line_read(d, p, head);
            lemma_prefix_rest(head, kw("mark :"@), kw(decimal(id as nat)));
            lemma_utf8_kw(decimal(id as nat));
            assert(parse_unsigned(decimal(id as nat), u64::MAX as nat) == Some(id as nat));
        },
        None => {
            assert(mark_line(mark) =~= Seq::<u8>::empty());
            lemma_at_index(d, p, after, 0);
            lemma_not_peek(d, p, kw("mark :"@));
        },
    }
}


// ---------------------------------------------------------------------------
// Person stamps
// ---------------------------------------------------------------------------

pub open spec fn name_chars(name: Option<Seq<char>>) -> Seq<char> {
    match name {
        Some(n) => n + seq![' '],
        None => Seq::empty(),
    }
}

/// The text of a person line after its keyword.
pub open spec fn person_text(p: PersonModel) -> Seq<char> {
    name_chars(p.name) + seq!['<'] + p.email + "> "@ + decimal_int(p.timestamp as int) + seq![' ']
        + p.tz_offset
}

/// A person stamp that reads back as written: a valid offset, an email
/// without `<` or newline, and a name (if any) that is not empty, has no
/// newline and neither begins nor ends with whitespace.
pub open spec fn person_ok(p: PersonModel) -> bool {
    &&& valid_tz(p.tz_offset)
    &&& free_of(p.email, '\n')
    &&& free_of(p.email, '<')
    &&& match p.name {
        Some(n) => n.len() > 0 && !is_ws(n[0]) && !is_ws(n.last()) && free_of(n, '\n'),
        None => true,
    }
}

proof fn lemma_rfind_at(s: Seq<char>, c: char, k: int, j: int)
    requires
        0 <= k < j <= s.len(),
        s[k] == c,
        forall|i: int| k < i < j ==> s[i] != c,
    ensures
        rfind_char(s, c, j) == Some(k),
    decreases j - k,
{
    if j - 1 > k {
        lemma_rfind_at(s, c, k, j - 1);
    }
}

pub proof fn lemma_non_ws_run_to(s: Seq<char>, a: int, b: int)
    requires
        0 <= a <= b <= s.len(),
        forall|i: int| a <= i < b ==> !is_ws(#[trigger] s[i]),
        b == s.len() || is_ws(s[b]),
    ensures
        non_ws_run(s, a) == b - a,
    decreases b - a,
{
    if a < b {
        lemma_non_ws_run_to(s, a + 1, b);
    }
}

/// A text whose bytes are all ASCII has one character per byte, each with
/// the byte's value.
pub proof fn lemma_ascii_bytes_chars(s: Seq<char>)
    requires
        forall|i: int| 0 <= i < encode_utf8(s).len() ==> #[trigger] encode_utf8(s)[i] < 128,
    ensures
        encode_utf8(s).len() == s.len(),
        forall|i: int| 0 <= i < s.len() ==> (#[trigger] s[i] as u32) == encode_utf8(s)[i] as u32,
    decreases s.len(),
{
    if s.len() > 0 {
        let c = s[0] as u32;
        char_is_scalar(s[0]);
        let e = encode_scalar(c);
        assert(encode_utf8(s) == e + encode_utf8(s.drop_first()));
        assert forall|i: int| 0 <= i < encode_utf8(s.drop_first()).len() implies #[trigger] encode_utf8(
            s.drop_first(),
        )[i] < 128 by {
            assert(encode_utf8(s)[e.len() + i] == encode_utf8(s.drop_first())[i]);
        }
        lemma_ascii_bytes_chars(s.drop_first());
        if !has_width_1_encoding(c) {
            lemma_scalar_bytes_high(c);
            assert(encode_utf8(s)[0] == e[0]);
            assert(false);
        }
        assert(leading_byte_width_1(c) == c as u8) by (bit_vector)
            requires
                c <= 0x7f,
        ;
        assert forall|i: int| 0 <= i < s.len() implies (#[trigger] s[i] as u32) == encode_utf8(s)[i] as u32 by {
            if i > 0 {
                assert(s[i] == s.drop_first()[i - 1]);
                assert(encode_utf8(s)[i] == encode_utf8(s.drop_first())[i - 1]);
            }
        }
    }
}

/// The characters of a valid offset: a sign and four digits.
proof fn lemma_tz_chars(tz: Seq<char>)
    requires
        valid_tz(tz),
    ensures
        tz.len() == 5,
        forall|i: int| 0 <= i < 5 ==> ((#[trigger] tz[i] as u32) == 43 || (tz[i] as u32) == 45 || 48
            <= (tz[i] as u32) <= 57),
        forall|i: int| 0 <= i < 5 ==> !is_ws(#[trigger] tz[i]),
{
    let b = encode_utf8(tz);
    assert forall|i: int| 0 <= i < b.len() implies #[trigger] b[i] < 128 by {
        if i > 0 {
            assert(is_ascii_digit_byte(b[i]));
        }
    }
    lemma_ascii_bytes_chars(tz);
    assert forall|i: int| 0 <= i < 5 implies ((#[trigger] tz[i] as u32) == 43 || (tz[i] as u32) == 45
        || 48 <= (tz[i] as u32) <= 57) by {
        if i > 0 {
            assert(is_ascii_digit_byte(b[i]));
        }
    }
}

proof fn lemma_decimal_int_chars(n: int)
    ensures
        decimal_int(n).len() > 0,
        forall|i: int| 0 <= i < decimal_int(n).len() ==> (#[trigger] decimal_int(n)[i] == '-' || is_digit(decimal_int(n)[i])),
        is_ascii_chars(decimal_int(n)),
{
    if n < 0 {
        let d = decimal((-n) as nat);
        lemma_decimal_text((-n) as nat);
        assert forall|i: int| 0 <= i < decimal_int(n).len() implies (#[trigger] decimal_int(n)[i] == '-' || is_digit(decimal_int(n)[i])) by {
            if i > 0 {
                assert(decimal_int(n)[i] == d[i - 1]);
            }
        }
    } else {
        lemma_decimal_text(n as nat);
    }
}

/// The bytes of a person line after its keyword, and its newline.
proof fn lemma_person_bytes(p: PersonModel)
    ensures
        person_bytes(p) == kw(person_text(p)) + nl(),
{
    let nc = name_chars(p.name);
    let dec = decimal_int(p.timestamp as int);
    assert(kw(seq![' ']) == sp()) by {
        lemma_ascii_kw(seq![' ']);
        assert(kw(seq![' ']) =~= sp());
    }
    assert(kw(seq!['<']) == seq![60u8]) by {
        lemma_ascii_kw(seq!['<']);
        assert(kw(seq!['<']) =~= seq![60u8]);
    }
    match p.name {
        Some(n) => lemma_encode_concat(n, seq![' ']),
        None => {},
    }
    let t1 = nc + seq!['<'];
    let t2 = t1 + p.email;
    let t3 = t2 + "> "@;
    let t4 = t3 + dec;
    let t5 = t4 + seq![' '];
    lemma_encode_concat(nc, seq!['<']);
    lemma_encode_concat(t1, p.email);
    lemma_encode_concat(t2, "> "@);
    lemma_encode_concat(t3, dec);
    lemma_encode_concat(t4, seq![' ']);
    lemma_encode_concat(t5, p.tz_offset);
    let name_b: Seq<u8> = match p.name {
        Some(n) => kw(n) + sp(),
        None => Seq::empty(),
    };
    assert(kw(nc) == name_b);
    assert(person_bytes(p) =~= kw(person_text(p)) + nl());
}

/// Where the pieces of a person text stand, and what splitting it at its
/// last `<` and last `>` gives.
#[verifier::rlimit(40)]
proof fn lemma_person_parts(p: PersonModel, lenient: bool)
    requires
        person_ok(p),
    ensures
        person_parts(person_text(p), lenient) == Some(
            (p.name, p.email, decimal_int(p.timestamp as int) + seq![' '] + p.tz_offset),
        ),
{
    let text = person_text(p);
    let nc = name_chars(p.name);
    let dec = decimal_int(p.timestamp as int);
    let tz = p.tz_offset;
    reveal_strlit("> ");
    assert("> "@ =~= seq!['>', ' ']);
    lemma_tz_chars(tz);
    lemma_decimal_int_chars(p.timestamp as int);
    let o = nc.len() as int;
    let c = o + 1 + p.email.len();
    let n = text.len() as int;
    assert(n == c + 2 + dec.len() + 1 + 5);
    assert(text[o] == '<');
    assert(text[c] == '>');
    assert forall|i: int| o < i < n implies text[i] != '<' by {
        if i < c {
            assert(text[i] == p.email[i - o - 1]);
        } else if c + 2 <= i < c + 2 + dec.len() {
            assert(text[i] == dec[i - c - 2]);
        } else if c + 3 + dec.len() <= i {
            assert(text[i] == tz[i - c - 3 - dec.len()]);
        }
    }
    assert forall|i: int| c < i < n implies text[i] != '>' by {
        if c + 2 <= i < c + 2 + dec.len() {
            assert(text[i] == dec[i - c - 2]);
        } else if c + 3 + dec.len() <= i {
            assert(text[i] == tz[i - c - 3 - dec.len()]);
        }
    }
    lemma_rfind_at(text, '<', o, n);
    lemma_rfind_at(text, '>', c, n);
    assert(text.subrange(0, o) =~= nc);
    match p.name {
        Some(nm) => {
            let t = nm + seq![' '];
            assert(ws_run(t, 0) == 0);
            assert(ws_run_back(t, t.len() - 1) == 0);
            assert(ws_run_back(t, t.len() as int) == 1);
            assert(t.subrange(0, t.len() - 1) =~= nm);
            assert(trim(t) == nm);
        },
        None => {
            assert(trim(nc) =~= Seq::<char>::empty());
        },
    }
    assert(text.subrange(o + 1, c) =~= p.email);
    let after = text.subrange(c + 1, n);
    let rem = dec + seq![' '] + tz;
    assert(after =~= seq![' '] + rem);
    assert(ws_run(rem, 0) == 0);
    assert(ws_run(after, 1) == 0);
    assert(ws_run(after, 0) == 1);
    assert(ws_run_back(after, after.len() as int) == 0);
    assert(after.subrange(1, after.len() as int) =~= rem);
}

/// The two fields after the email: the time stamp and the offset.
#[verifier::rlimit(30)]
proof fn lemma_person_fields(ts: i64, tz: Seq<char>)
    requires
        valid_tz(tz),
    ensures
        next_field(decimal_int(ts as int) + seq![' '] + tz, 0) == Some(
            (decimal_int(ts as int), decimal_int(ts as int).len() as int),
        ),
        next_field(decimal_int(ts as int) + seq![' '] + tz, decimal_int(ts as int).len() as int)
            == Some((tz, (decimal_int(ts as int).len() + 1 + tz.len()) as int)),
        parse_i64_spec(decimal_int(ts as int)) == Some(ts),
{
    let dec = decimal_int(ts as int);
    let rem = dec + seq![' '] + tz;
    lemma_tz_chars(tz);
    lemma_decimal_int_chars(ts as int);
    assert(ws_run(rem, 0) == 0);
    assert forall|i: int| 0 <= i < dec.len() implies !is_ws(#[trigger] rem[i]) by {
        assert(rem[i] == dec[i]);
    }
    lemma_non_ws_run_to(rem, 0, dec.len() as int);
    assert(rem.subrange(0, dec.len() as int) =~= dec);
    lemma_parse_decimal_int(ts);
    assert(ws_run(rem, dec.len() + 1int) == 0);
    assert(ws_run(rem, dec.len() as int) == 1);
    assert forall|i: int| dec.len() + 1 <= i < rem.len() implies !is_ws(#[trigger] rem[i]) by {
        assert(rem[i] == tz[i - dec.len() - 1]);
    }
    lemma_non_ws_run_to(rem, dec.len() + 1int, rem.len() as int);
    assert(rem.subrange(dec.len() + 1int, rem.len() as int) =~= tz);
}

/// Reading the person text that the writer wrote.
#[verifier::rlimit(30)]
pub proof fn lemma_person_read(b: Seq<u8>, line: int, lenient: bool, p: PersonModel)
    requires
        b == kw(person_text(p)),
        person_ok(p),
    ensures
        person_spec(b, line, lenient) == Ok::<PersonModel, crate::fields::PErr>(p),
{
    reveal(person_spec);
    lemma_utf8_kw(person_text(p));
    lemma_person_parts(p, lenient);
    lemma_person_fields(p.timestamp, p.tz_offset);
}


// ---------------------------------------------------------------------------
// Names and references
// ---------------------------------------------------------------------------

/// The bytes of a text hold no byte `v` where the text holds no character
/// with that value.
proof fn lemma_free_of_bytes(s: Seq<char>, c: char, v: u8)
    requires
        free_of(s, c),
        c as u32 == v as u32,
        v < 128,
    ensures
        no_byte(kw(s), v),
{
    assert forall|i: int| 0 <= i < s.len() implies (s[i] as u32) != (v as u32) by {
        if (s[i] as u32) == (v as u32) {
            char_u32_cast(s[i], v as u32);
            char_u32_cast(c, v as u32);
        }
    }
    lemma_encode_no_byte(s, v);
}

/// A branch, tag name or reset source as it reads back: one line, trimmed.
pub open spec fn ref_ok(s: Seq<char>) -> bool {
    trim(s) == s && free_of(s, '\n')
}

/// A commit-ish reference as it reads back: one line, trimmed, and a mark
/// reference (`:<n>`) names a mark that is known (or reading is lenient).
pub open spec fn commitish_ok(s: Seq<char>, known: Set<u64>, lenient: bool) -> bool {
    &&& ref_ok(s)
    &&& (s.len() > 0 && s[0] == ':') ==> match parse_unsigned(s.drop_first(), u64::MAX as nat) {
        Some(id) => lenient || known.contains(id as u64),
        None => false,
    }
}

proof fn lemma_ref_read(s: Seq<char>)
    requires
        ref_ok(s),
    ensures
        ref_name(kw(s)) == s,
        trim(lossy_text(kw(s))) == s,
        no_byte(kw(s), 10),
{
    encode_utf8_valid_utf8(s);
    encode_utf8_decode_utf8(s);
    lemma_free_of_bytes(s, '\n', 10);
}

proof fn lemma_commitish_read(s: Seq<char>, known: Set<u64>, lenient: bool, line: int)
    requires
        commitish_ok(s, known, lenient),
    ensures
        commitish_spec(kw(s), lenient, known, line) == Ok::<Seq<char>, PErr>(s),
        no_byte(kw(s), 10),
{
    lemma_utf8_kw(s);
    lemma_free_of_bytes(s, '\n', 10);
}


// ---------------------------------------------------------------------------
// Paths
// ---------------------------------------------------------------------------

proof fn lemma_escape_path_front(c: char, rest: Seq<char>)
    ensures
        escape_path(seq![c] + rest) == escape_path_char(c) + escape_path(rest),
    decreases rest.len(),
{
    let s = seq![c] + rest;
    if rest.len() == 0 {
        assert(s.drop_last() =~= Seq::<char>::empty());
        assert(escape_path(s) =~= escape_path_char(c) + escape_path(rest));
    } else {
        lemma_escape_path_front(c, rest.drop_last());
        assert(s.drop_last() =~= seq![c] + rest.drop_last());
        assert(s.last() == rest.last());
        assert(escape_path(s) =~= escape_path_char(c) + escape_path(rest));
    }
}

/// The first byte of a text's bytes.
pub proof fn lemma_kw_first_byte(s: Seq<char>)
    requires
        s.len() > 0,
    ensures
        kw(s).len() > 0,
        (s[0] as u32) < 128 ==> kw(s)[0] as u32 == s[0] as u32,
        (s[0] as u32) >= 128 ==> kw(s)[0] >= 128,
{
    let c = s[0] as u32;
    char_is_scalar(s[0]);
    let e = encode_scalar(c);
    assert(kw(s) == e + kw(s.drop_first()));
    if has_width_1_encoding(c) {
        assert(leading_byte_width_1(c) == c as u8) by (bit_vector)
            requires
                c <= 0x7f,
        ;
    } else {
        lemma_scalar_bytes_high(c);
    }
    assert(kw(s)[0] == e[0]);
}

/// The one byte of an ASCII character.
proof fn lemma_kw_ascii_char(c: char)
    requires
        (c as u32) < 128,
    ensures
        kw(seq![c]) == seq![c as u32 as u8],
{
    let u = c as u32;
    assert(seq![c].drop_first() =~= Seq::<char>::empty());
    assert(leading_byte_width_1(u) == u as u8) by (bit_vector)
        requires
            u <= 0x7f,
    ;
    assert(seq![c][0] == c);
    assert(encode_utf8(seq![c]) == encode_scalar(u) + encode_utf8(seq![c].drop_first()));
    assert(encode_utf8(Seq::<char>::empty()) =~= Seq::<u8>::empty());
    assert(encode_scalar(u) == seq![leading_byte_width_1(u)]);
    assert(kw(seq![c]) =~= seq![u as u8]);
}

/// The bytes of one escaped path character, by case.
proof fn lemma_escape_char_bytes(c: char)
    ensures
        c == '"' ==> kw(escape_path_char(c)) == seq![92u8, 34u8],
        c == '\\' ==> kw(escape_path_char(c)) == seq![92u8, 92u8],
        c == '\n' ==> kw(escape_path_char(c)) == seq![92u8, 110u8],
        c == '\t' ==> kw(escape_path_char(c)) == seq![92u8, 116u8],
        c == '\r' ==> kw(escape_path_char(c)) == seq![92u8, 114u8],
        (c != '"' && c != '\\' && c != '\n' && c != '\t' && c != '\r' && (c as u32) < 0x20) ==> kw(
            escape_path_char(c),
        ) == seq![92u8, 48u8, (48 + c as u32 / 8) as u8, (48 + c as u32 % 8) as u8],
        !special_char(c) || c == ' ' ==> kw(escape_path_char(c)) == kw(seq![c]),
        !special_char(c) || c == ' ' ==> no_byte(kw(seq![c]), 92) && no_byte(kw(seq![c]), 34),
        free_of(escape_path_char(c), '\n'),
{
    let e = escape_path_char(c);
    if c == '"' || c == '\\' || c == '\n' || c == '\t' || c == '\r' {
        lemma_ascii_kw(e);
        assert(kw(e) =~= seq![92u8, e[1] as u8]);
    } else if (c as u32) < 0x20 {
        let u = c as u32;
        assert(e[2] as u32 == 48 + u / 8);
        assert(e[3] as u32 == 48 + u % 8);
        lemma_ascii_kw(e);
        assert(kw(e) =~= seq![92u8, 48u8, (48 + u / 8) as u8, (48 + u % 8) as u8]);
    } else {
        let one = seq![c];
        assert(free_of(one, '\\')) by {
            assert(one[0] == c);
        }
        assert(free_of(one, '"')) by {
            assert(one[0] == c);
        }
        lemma_free_of_bytes(one, '\\', 92);
        lemma_free_of_bytes(one, '"', 34);
    }
}

pub open spec fn prepend(x: Seq<u8>, r: Result<Seq<u8>, Seq<char>>) -> Result<Seq<u8>, Seq<char>> {
    match r {
        Ok(v) => Ok(x + v),
        Err(m) => Err(m),
    }
}

proof fn lemma_unescape_plain(b: Seq<u8>, i: int, x: Seq<u8>, lenient: bool)
    requires
        at_b(b, i, x),
        no_byte(x, 92),
    ensures
        unescape(b, i, lenient) == prepend(x, unescape(b, i + x.len(), lenient)),
    decreases x.len(),
{
    if x.len() == 0 {
        match unescape(b, i, lenient) {
            Ok(v) => {
                assert(x + v =~= v);
            },
            Err(_) => {},
        }
    } else {
        assert(seq![x[0]] + x.drop_first() =~= x);
        lemma_at_split(b, i, seq![x[0]], x.drop_first());
        lemma_at_index(b, i, x, 0);
        assert(no_byte(x.drop_first(), 92)) by {
            assert forall|k: int| 0 <= k < x.drop_first().len() implies x.drop_first()[k] != 92 by {
                assert(x.drop_first()[k] == x[k + 1]);
            }
        }
        lemma_unescape_plain(b, i + 1, x.drop_first(), lenient);
        match unescape(b, i + x.len(), lenient) {
            Ok(v) => {
                assert(seq![x[0]] + (x.drop_first() + v) =~= x + v);
            },
            Err(_) => {},
        }
    }
}

/// Unescaping the bytes of an escaped path gives the path's bytes.
#[verifier::rlimit(30)]
proof fn lemma_unescape_escaped(b: Seq<u8>, i: int, s: Seq<char>, lenient: bool)
    requires
        0 <= i <= b.len(),
        b.subrange(i, b.len() as int) == kw(escape_path(s)),
    ensures
        unescape(b, i, lenient) == Ok::<Seq<u8>, Seq<char>>(kw(s)),
    decreases s.len(),
{
    if s.len() == 0 {
        assert(escape_path(s) =~= Seq::<char>::empty());
        assert(b.subrange(i, b.len() as int).len() == 0);
        assert(kw(s) =~= Seq::<u8>::empty());
    } else {
        let c = s[0];
        let rest = s.drop_first();
        assert(s =~= seq![c] + rest);
        lemma_escape_path_front(c, rest);
        let ec = escape_path_char(c);
        lemma_encode_concat(ec, escape_path(rest));
        lemma_encode_concat(seq![c], rest);
        let xb = kw(ec);
        let tail = kw(escape_path(rest));
        assert(at_b(b, i, xb + tail)) by {
            assert(b.subrange(i, i + (xb + tail).len()) =~= b.subrange(i, b.len() as int));
        }
        lemma_at_split(b, i, xb, tail);
        let j = i + xb.len();
        assert(b.subrange(j, b.len() as int) =~= tail) by {
            assert(b.subrange(j, b.len() as int) =~= b.subrange(i, b.len() as int).subrange(
                xb.len() as int,
                (xb + tail).len() as int,
            ));
        }
        lemma_unescape_escaped(b, j, rest, lenient);
        lemma_escape_char_bytes(c);
        let u = c as u32;
        if c == '"' || c == '\\' || c == '\n' || c == '\t' || c == '\r' {
            lemma_at_index(b, i, xb, 0);
            lemma_at_index(b, i, xb, 1);
            lemma_ascii_kw(seq![c]);
            assert(kw(seq![c]) =~= seq![(if c == '"' {
                34u8
            } else if c == '\\' {
                92u8
            } else if c == '\n' {
                10u8
            } else if c == '\t' {
                9u8
            } else {
                13u8
            })]);
        } else if u < 0x20 {
            lemma_at_index(b, i, xb, 0);
            lemma_at_index(b, i, xb, 1);
            lemma_at_index(b, i, xb, 2);
            lemma_at_index(b, i, xb, 3);
            lemma_kw_ascii_char(c);
            assert(((48u8 - 48) * 64 + (((48 + u / 8) as u8) - 48) * 8 + (((48 + u % 8) as u8) - 48))
                as u8 == u as u8);
        } else {
            lemma_unescape_plain(b, i, xb, lenient);
        }
    }
}

proof fn lemma_escape_path_no_newline(s: Seq<char>)
    ensures
        free_of(escape_path(s), '\n'),
    decreases s.len(),
{
    if s.len() > 0 {
        lemma_escape_path_no_newline(s.drop_last());
        lemma_escape_char_bytes(s.last());
        crate::json::lemma_free_of_concat(escape_path(s.drop_last()), escape_path_char(s.last()), '\n');
    }
}

/// A path as written is one line, and reads back as the path.
pub proof fn lemma_path_read(s: Seq<char>, lenient: bool, line: int)
    ensures
        path_spec(kw(path_text(s)), lenient, line) == Ok::<Seq<char>, PErr>(s),
        no_byte(kw(path_text(s)), 10),
{
    if needs_quoting(s) {
        let e = escape_path(s);
        lemma_encode_concat(seq!['"'], e);
        lemma_encode_concat(seq!['"'] + e, seq!['"']);
        assert(kw(seq!['"']) == seq![34u8]) by {
            lemma_ascii_kw(seq!['"']);
            assert(kw(seq!['"']) =~= seq![34u8]);
        }
        let b = kw(path_text(s));
        assert(b == seq![34u8] + kw(e) + seq![34u8]);
        let inner = b.subrange(1, b.len() - 1);
        assert(inner =~= kw(e));
        assert(inner.subrange(0, inner.len() as int) =~= inner);
        lemma_unescape_escaped(inner, 0, s, lenient);
        lemma_utf8_kw(s);
        lemma_escape_path_no_newline(s);
        crate::json::lemma_free_of_concat(seq!['"'], e, '\n');
        crate::json::lemma_free_of_concat(seq!['"'] + e, seq!['"'], '\n');
        lemma_free_of_bytes(path_text(s), '\n', 10);
    } else {
        assert(free_of(s, '"'));
        assert(free_of(s, '\n'));
        lemma_free_of_bytes(s, '"', 34);
        lemma_free_of_bytes(s, '\n', 10);
        lemma_utf8_kw(s);
    }
}


proof fn lemma_find_byte_at(b: Seq<u8>, v: u8, i: int, k: int)
    requires
        0 <= i <= k < b.len(),
        forall|j: int| i <= j < k ==> b[j] != v,
        b[k] == v,
    ensures
        find_byte(b, v, i) == Some(k),
    decreases k - i,
{
    if i < k {
        lemma_find_byte_at(b, v, i + 1, k);
    }
}

proof fn lemma_quote_scan_plain(b: Seq<u8>, i: int, x: Seq<u8>, lenient: bool, line: int)
    requires
        at_b(b, i, x),
        i + x.len() < b.len(),
        no_byte(x, 92),
        no_byte(x, 34),
    ensures
        quote_scan(b, i, lenient, line) == quote_scan(b, i + x.len(), lenient, line),
    decreases x.len(),
{
    if x.len() > 0 {
        assert(seq![x[0]] + x.drop_first() =~= x);
        lemma_at_split(b, i, seq![x[0]], x.drop_first());
        lemma_at_index(b, i, x, 0);
        assert(no_byte(x.drop_first(), 92) && no_byte(x.drop_first(), 34)) by {
            assert forall|k: int| 0 <= k < x.drop_first().len() implies x.drop_first()[k] != 92
                && x.drop_first()[k] != 34 by {
                assert(x.drop_first()[k] == x[k + 1]);
            }
        }
        lemma_quote_scan_plain(b, i + 1, x.drop_first(), lenient, line);
    }
}

/// Scanning over an escaped path stops only after it.
#[verifier::rlimit(30)]
proof fn lemma_quote_scan_escaped(b: Seq<u8>, i: int, s: Seq<char>, lenient: bool, line: int)
    requires
        at_b(b, i, kw(escape_path(s))),
        i + kw(escape_path(s)).len() < b.len(),
    ensures
        quote_scan(b, i, lenient, line) == quote_scan(b, i + kw(escape_path(s)).len(), lenient, line),
    decreases s.len(),
{
    if s.len() > 0 {
        let c = s[0];
        let rest = s.drop_first();
        assert(s =~= seq![c] + rest);
        lemma_escape_path_front(c, rest);
        let ec = escape_path_char(c);
        lemma_encode_concat(ec, escape_path(rest));
        let xb = kw(ec);
        let tail = kw(escape_path(rest));
        lemma_at_split(b, i, xb, tail);
        lemma_quote_scan_escaped(b, i + xb.len(), rest, lenient, line);
        lemma_escape_char_bytes(c);
        let u = c as u32;
        if c == '"' || c == '\\' || c == '\n' || c == '\t' || c == '\r' {
            lemma_at_index(b, i, xb, 0);
        } else if u < 0x20 {
            lemma_at_index(b, i, xb, 0);
            lemma_at_index(b, i, xb, 2);
            lemma_at_index(b, i, xb, 3);
            assert(quote_scan(b, i, lenient, line) == quote_scan(b, i + 2, lenient, line));
            assert(quote_scan(b, i + 2, lenient, line) == quote_scan(b, i + 3, lenient, line));
            assert(quote_scan(b, i + 3, lenient, line) == quote_scan(b, i + 4, lenient, line));
        } else {
            lemma_quote_scan_plain(b, i, xb, lenient, line);
        }
    } else {
        assert(escape_path(s) =~= Seq::<char>::empty());
        assert(kw(escape_path(s)).len() == 0);
    }
}

/// The two paths of a filecopy or filerename line, as written, read back.
#[verifier::rlimit(30)]
pub proof fn lemma_two_paths_read(src: Seq<char>, dst: Seq<char>, lenient: bool, line: int)
    ensures
        two_paths_spec(kw(path_text(src)) + sp() + kw(path_text(dst)), lenient, line) == Ok::<
            (Seq<char>, Seq<char>),
            PErr,
        >((src, dst)),
{
    let a = kw(path_text(src));
    let c = kw(path_text(dst));
    let b = a + sp() + c;
    lemma_path_read(src, lenient, line);
    lemma_path_read(dst, lenient, line);
    if needs_quoting(src) {
        let e = escape_path(src);
        lemma_encode_concat(seq!['"'], e);
        lemma_encode_concat(seq!['"'] + e, seq!['"']);
        assert(kw(seq!['"']) == seq![34u8]) by {
            lemma_ascii_kw(seq!['"']);
            assert(kw(seq!['"']) =~= seq![34u8]);
        }
        assert(a == seq![34u8] + kw(e) + seq![34u8]);
        let q: int = 1 + kw(e).len() as int;
        assert(b[0] == 34);
        assert(at_b(b, 1, kw(e))) by {
            assert(b.subrange(1, q) =~= kw(e));
        }
        lemma_quote_scan_escaped(b, 1, src, lenient, line);
        assert(b[q] == 34);
        assert(b.subrange(q + 1, b.len() as int) =~= sp() + c);
        assert(b.subrange(0, q + 1) =~= a);
        assert((sp() + c).drop_first() =~= c);
    } else {
        assert(free_of(src, ' '));
        assert(free_of(src, '"'));
        lemma_free_of_bytes(src, ' ', 32);
        lemma_free_of_bytes(src, '"', 34);
        assert(path_text(src) == src);
        if a.len() > 0 {
            assert(b[0] == a[0]);
        } else {
            assert(b[0] == 32);
        }
        assert forall|j: int| 0 <= j < a.len() implies b[j] != 32 by {
            assert(b[j] == a[j]);
        }
        assert(b[a.len() as int] == 32);
        lemma_find_byte_at(b, 32, 0, a.len() as int);
        assert(b.subrange(0, a.len() as int) =~= a);
        assert(b.subrange(a.len() + 1int, b.len() as int) =~= c);
    }
}


// ---------------------------------------------------------------------------
// Keywords
// ---------------------------------------------------------------------------

/// The bytes of the command keywords.
proof fn lemma_kw_commands()
    ensures
        kw("blob"@) == seq![98u8, 108u8, 111u8, 98u8],
        kw("commit "@) == seq![99u8, 111u8, 109u8, 109u8, 105u8, 116u8, 32u8],
        kw("reset "@) == seq![114u8, 101u8, 115u8, 101u8, 116u8, 32u8],
        kw("tag "@) == seq![116u8, 97u8, 103u8, 32u8],
        kw("ls "@) == seq![108u8, 115u8, 32u8],
        kw("checkpoint"@) == seq![99u8, 104u8, 101u8, 99u8, 107u8, 112u8, 111u8, 105u8, 110u8, 116u8],
        kw("done"@) == seq![100u8, 111u8, 110u8, 101u8],
{
    reveal_strlit("blob");
    lemma_ascii_kw("blob"@);
    assert(kw("blob"@) =~= seq![98u8, 108u8, 111u8, 98u8]);
    reveal_strlit("commit ");
    lemma_ascii_kw("commit "@);
    assert(kw("commit "@) =~= seq![99u8, 111u8, 109u8, 109u8, 105u8, 116u8, 32u8]);
    reveal_strlit("reset ");
    lemma_ascii_kw("reset "@);
    assert(kw("reset "@) =~= seq![114u8, 101u8, 115u8, 101u8, 116u8, 32u8]);
    reveal_strlit("tag ");
    lemma_ascii_kw("tag "@);
    assert(kw("tag "@) =~= seq![116u8, 97u8, 103u8, 32u8]);
    reveal_strlit("ls ");
    lemma_ascii_kw("ls "@);
    assert(kw("ls "@) =~= seq![108u8, 115u8, 32u8]);
    reveal_strlit("checkpoint");
    lemma_ascii_kw("checkpoint"@);
    assert(kw("checkpoint"@) =~= seq![99u8, 104u8, 101u8, 99u8, 107u8, 112u8, 111u8, 105u8, 110u8, 116u8]);
    reveal_strlit("done");
    lemma_ascii_kw("done"@);
    assert(kw("done"@) =~= seq![100u8, 111u8, 110u8, 101u8]);
}

/// The bytes of the keywords of a commit's and a tag's lines.
proof fn lemma_kw_commit_lines()
    ensures
        kw("author "@) == seq![97u8, 117u8, 116u8, 104u8, 111u8, 114u8, 32u8],
        kw("committer "@) == seq![99u8, 111u8, 109u8, 109u8, 105u8, 116u8, 116u8, 101u8, 114u8, 32u8],
        kw("from "@) == seq![102u8, 114u8, 111u8, 109u8, 32u8],
        kw("merge "@) == seq![109u8, 101u8, 114u8, 103u8, 101u8, 32u8],
        kw("tagger "@) == seq![116u8, 97u8, 103u8, 103u8, 101u8, 114u8, 32u8],
{
    reveal_strlit("author ");
    lemma_ascii_kw("author "@);
    assert(kw("author "@) =~= seq![97u8, 117u8, 116u8, 104u8, 111u8, 114u8, 32u8]);
    reveal_strlit("committer ");
    lemma_ascii_kw("committer "@);
    assert(kw("committer "@) =~= seq![99u8, 111u8, 109u8, 109u8, 105u8, 116u8, 116u8, 101u8, 114u8, 32u8]);
    reveal_strlit("from ");
    lemma_ascii_kw("from "@);
    assert(kw("from "@) =~= seq![102u8, 114u8, 111u8, 109u8, 32u8]);
    reveal_strlit("merge ");
    lemma_ascii_kw("merge "@);
    assert(kw("merge "@) =~= seq![109u8, 101u8, 114u8, 103u8, 101u8, 32u8]);
    reveal_strlit("tagger ");
    lemma_ascii_kw("tagger "@);
    assert(kw("tagger "@) =~= seq![116u8, 97u8, 103u8, 103u8, 101u8, 114u8, 32u8]);
}

/// The bytes of the file change keywords.
proof fn lemma_kw_changes()
    ensures
        kw("M "@) == seq![77u8, 32u8],
        kw("D "@) == seq![68u8, 32u8],
        kw("N "@) == seq![78u8, 32u8],
        kw("C "@) == seq![67u8, 32u8],
        kw("R "@) == seq![82u8, 32u8],
        kw("deleteall"@) == seq![100u8, 101u8, 108u8, 101u8, 116u8, 101u8, 97u8, 108u8, 108u8],
        kw("inline"@) == seq![105u8, 110u8, 108u8, 105u8, 110u8, 101u8],
{
    reveal_strlit("M ");
    lemma_ascii_kw("M "@);
    assert(kw("M "@) =~= seq![77u8, 32u8]);
    reveal_strlit("D ");
    lemma_ascii_kw("D "@);
    assert(kw("D "@) =~= seq![68u8, 32u8]);
    reveal_strlit("N ");
    lemma_ascii_kw("N "@);
    assert(kw("N "@) =~= seq![78u8, 32u8]);
    reveal_strlit("C ");
    lemma_ascii_kw("C "@);
    assert(kw("C "@) =~= seq![67u8, 32u8]);
    reveal_strlit("R ");
    lemma_ascii_kw("R "@);
    assert(kw("R "@) =~= seq![82u8, 32u8]);
    reveal_strlit("deleteall");
    lemma_ascii_kw("deleteall"@);
    assert(kw("deleteall"@) =~= seq![100u8, 101u8, 108u8, 101u8, 116u8, 101u8, 97u8, 108u8, 108u8]);
    reveal_strlit("inline");
    lemma_ascii_kw("inline"@);
    assert(kw("inline"@) =~= seq![105u8, 110u8, 108u8, 105u8, 110u8, 101u8]);
}


// ---------------------------------------------------------------------------
// File changes
// ---------------------------------------------------------------------------

/// A dataref as it reads back: a sha1 is one field that cannot be taken for
/// `inline` or a mark, and is forty hex digits unless reading is lenient.
pub open spec fn dataref_ok(d: DataRefModel, lenient: bool) -> bool {
    match d {
        DataRefModel::Mark(_) => true,
        DataRefModel::Inline(v) => v.len() <= usize::MAX,
        DataRefModel::Sha1(s) => free_of(s, ' ') && free_of(s, '\n') && s != "inline"@ && !(s.len()
            > 0 && s[0] == ':') && (lenient || valid_sha1(s)),
    }
}

/// A file change as it reads back.
pub open spec fn change_ok(c: FileChangeModel, known: Set<u64>, lenient: bool) -> bool {
    match c {
        FileChangeModel::Modify { mode, dataref, .. } => free_of(mode, ' ') && free_of(mode, '\n')
            && (lenient || valid_mode(mode)) && dataref_ok(dataref, lenient),
        FileChangeModel::Note { dataref, commitish } => dataref_ok(dataref, lenient)
            && commitish_ok(commitish, known, lenient),
        _ => true,
    }
}

#[verifier::rlimit(30)]
proof fn lemma_dataref_read(d: Seq<u8>, p: int, l: int, dr: DataRefModel, lenient: bool, line: int)
    requires
        dataref_ok(dr, lenient),
        dr matches DataRefModel::Inline(v) ==> at_b(d, p, data_bytes(v)),
    ensures
        dataref_spec(dataref_bytes(dr), d, p, l, lenient, line) matches Ok((v, x, _)) && v == dr && x
            == inline_data(dr).len(),
        no_byte(dataref_bytes(dr), 32),
        no_byte(dataref_bytes(dr), 10),
{
    lemma_kw_changes();
    match dr {
        DataRefModel::Mark(id) => {
            let b = dataref_bytes(dr);
            lemma_decimal_text(id as nat);
            let dec = kw(decimal(id as nat));
            assert(b == seq![58u8] + dec);
            assert(b != kw("inline"@)) by {
                assert(b[0] == 58);
            }
            assert(b.drop_first() =~= dec);
            lemma_utf8_kw(decimal(id as nat));
            assert(parse_unsigned(decimal(id as nat), u64::MAX as nat) == Some(id as nat));
            assert(forall|i: int| 0 <= i < dec.len() ==> 48 <= #[trigger] dec[i] <= 57) by {
                lemma_ascii_kw(decimal(id as nat));
                assert forall|i: int| 0 <= i < dec.len() implies 48 <= #[trigger] dec[i] <= 57 by {
                    assert(is_digit(decimal(id as nat)[i]));
                }
            }
            assert forall|i: int| 0 <= i < b.len() implies b[i] != 32 && b[i] != 10 by {
                if i > 0 {
                    assert(b[i] == dec[i - 1]);
                }
            }
        },
        DataRefModel::Sha1(sh) => {
            let b = kw(sh);
            lemma_utf8_kw(sh);
            lemma_utf8_kw("inline"@);
            assert(b != kw("inline"@));
            if sh.len() > 0 {
                lemma_kw_first_byte(sh);
                if b[0] == 58 {
                    char_u32_cast(sh[0], 58);
                    char_u32_cast(':', 58);
                }
            }
            lemma_free_of_bytes(sh, ' ', 32);
            lemma_free_of_bytes(sh, '\n', 10);
        },
        DataRefModel::Inline(v) => {
            lemma_data_read(d, p, l, v, lenient);
        },
    }
}

#[verifier::rlimit(30)]
proof fn lemma_filemodify_read(
    d: Seq<u8>,
    p: int,
    l: int,
    mode: Seq<char>,
    dr: DataRefModel,
    path: Seq<char>,
    lenient: bool,
    line: int,
)
    requires
        free_of(mode, ' '),
        lenient || valid_mode(mode),
        dataref_ok(dr, lenient),
        dr matches DataRefModel::Inline(v) ==> at_b(d, p, data_bytes(v)),
    ensures
        filemodify_spec(kw(mode) + sp() + dataref_bytes(dr) + sp() + kw(path_text(path)), d, p, l, lenient, line)
            matches Ok((v, x, _)) && v == (FileChangeModel::Modify { mode, dataref: dr, path })
            && x == inline_data(dr).len(),
{
    let m = kw(mode);
    let db = dataref_bytes(dr);
    let pb = kw(path_text(path));
    let rest = m + sp() + db + sp() + pb;
    lemma_free_of_bytes(mode, ' ', 32);
    lemma_dataref_read(d, p, l, dr, lenient, line);
    lemma_path_read(path, lenient, line);
    assert forall|j: int| 0 <= j < m.len() implies rest[j] != 32 by {
        assert(rest[j] == m[j]);
    }
    assert(rest[m.len() as int] == 32);
    lemma_find_byte_at(rest, 32, 0, m.len() as int);
    let i1 = m.len() as int;
    let i2 = i1 + 1 + db.len();
    assert forall|j: int| i1 + 1 <= j < i2 implies rest[j] != 32 by {
        assert(rest[j] == db[j - i1 - 1]);
    }
    assert(rest[i2] == 32);
    lemma_find_byte_at(rest, 32, i1 + 1, i2);
    assert(rest.subrange(0, i1) =~= m);
    assert(rest.subrange(i1 + 1, i2) =~= db);
    assert(rest.subrange(i2 + 1, rest.len() as int) =~= pb);
    lemma_utf8_kw(mode);
}

#[verifier::rlimit(30)]
proof fn lemma_notemodify_read(
    d: Seq<u8>,
    p: int,
    l: int,
    dr: DataRefModel,
    commitish: Seq<char>,
    known: Set<u64>,
    lenient: bool,
    line: int,
)
    requires
        dataref_ok(dr, lenient),
        commitish_ok(commitish, known, lenient),
        dr matches DataRefModel::Inline(v) ==> at_b(d, p, data_bytes(v)),
    ensures
        notemodify_spec(dataref_bytes(dr) + sp() + kw(commitish), d, p, l, lenient, known, line)
            matches Ok((v, x, _)) && v == (FileChangeModel::Note { dataref: dr, commitish })
            && x == inline_data(dr).len(),
{
    let db = dataref_bytes(dr);
    let rest = db + sp() + kw(commitish);
    lemma_dataref_read(d, p, l, dr, lenient, line);
    lemma_commitish_read(commitish, known, lenient, line);
    assert forall|j: int| 0 <= j < db.len() implies rest[j] != 32 by {
        assert(rest[j] == db[j]);
    }
    assert(rest[db.len() as int] == 32);
    lemma_find_byte_at(rest, 32, 0, db.len() as int);
    assert(rest.subrange(0, db.len() as int) =~= db);
    assert(rest.subrange(db.len() + 1int, rest.len() as int) =~= kw(commitish));
}


proof fn lemma_not_prefix_first(line: Seq<u8>, key: Seq<u8>)
    requires
        line.len() > 0,
        key.len() > 0,
        line[0] != key[0],
    ensures
        !has_prefix(line, key),
        line != key,
{
    if has_prefix(line, key) {
        assert(line.subrange(0, key.len() as int)[0] == line[0]);
    }
}

/// The text of a file change's line (without its newline).
pub open spec fn change_line_bytes(c: FileChangeModel) -> Seq<u8> {
    match c {
        FileChangeModel::Modify { mode, dataref, path } => kw("M "@) + (kw(mode) + sp() + dataref_bytes(
            dataref,
        ) + sp() + kw(path_text(path))),
        FileChangeModel::Delete { path } => kw("D "@) + kw(path_text(path)),
        FileChangeModel::Copy { src, dst } => kw("C "@) + (kw(path_text(src)) + sp() + kw(
            path_text(dst),
        )),
        FileChangeModel::Rename { src, dst } => kw("R "@) + (kw(path_text(src)) + sp() + kw(
            path_text(dst),
        )),
        FileChangeModel::DeleteAll => kw("deleteall"@),
        FileChangeModel::Ls { path } => kw("ls "@) + kw(path_text(path)),
        FileChangeModel::Note { dataref, commitish } => kw("N "@) + (dataref_bytes(dataref) + sp()
            + kw(commitish)),
    }
}

/// The data block after a file change's line.
pub open spec fn change_data(c: FileChangeModel) -> Seq<u8> {
    match c {
        FileChangeModel::Modify { dataref, .. } => inline_data(dataref),
        FileChangeModel::Note { dataref, .. } => inline_data(dataref),
        _ => Seq::empty(),
    }
}

proof fn lemma_dataref_bytes_ok(dr: DataRefModel, lenient: bool)
    requires
        dataref_ok(dr, lenient),
    ensures
        no_byte(dataref_bytes(dr), 32),
        no_byte(dataref_bytes(dr), 10),
{
    match dr {
        DataRefModel::Inline(v) => {
            lemma_kw_changes();
        },
        _ => lemma_dataref_read(Seq::empty(), 0, 0, dr, lenient, 0),
    }
}

proof fn lemma_no_nl3(a: Seq<u8>, b: Seq<u8>, c: Seq<u8>)
    requires
        no_byte(a, 10),
        no_byte(b, 10),
        no_byte(c, 10),
    ensures
        no_byte(a + b + c, 10),
{
    lemma_no_byte_concat(a, b, 10);
    lemma_no_byte_concat(a + b, c, 10);
}

proof fn lemma_clb_modify(mode: Seq<char>, dataref: DataRefModel, path: Seq<char>, lenient: bool)
    requires
        free_of(mode, '\n'),
        dataref_ok(dataref, lenient),
    ensures
        no_byte(kw(mode) + sp() + dataref_bytes(dataref) + sp() + kw(path_text(path)), 10),
{
    lemma_free_of_bytes(mode, '\n', 10);
    lemma_dataref_bytes_ok(dataref, lenient);
    lemma_path_read(path, lenient, 0);
    lemma_no_nl3(kw(mode), sp(), dataref_bytes(dataref));
    lemma_no_nl3(kw(mode) + sp() + dataref_bytes(dataref), sp(), kw(path_text(path)));
}

proof fn lemma_clb_two(src: Seq<char>, dst: Seq<char>, lenient: bool)
    ensures
        no_byte(kw(path_text(src)) + sp() + kw(path_text(dst)), 10),
{
    lemma_path_read(src, lenient, 0);
    lemma_path_read(dst, lenient, 0);
    lemma_no_nl3(kw(path_text(src)), sp(), kw(path_text(dst)));
}

proof fn lemma_clb_note(dataref: DataRefModel, commitish: Seq<char>, known: Set<u64>, lenient: bool)
    requires
        dataref_ok(dataref, lenient),
        commitish_ok(commitish, known, lenient),
    ensures
        no_byte(dataref_bytes(dataref) + sp() + kw(commitish), 10),
{
    lemma_dataref_bytes_ok(dataref, lenient);
    lemma_commitish_read(commitish, known, lenient, 0);
    lemma_no_nl3(dataref_bytes(dataref), sp(), kw(commitish));
}

#[verifier::rlimit(40)]
proof fn lemma_change_line_bytes(c: FileChangeModel, known: Set<u64>, lenient: bool)
    requires
        change_ok(c, known, lenient),
    ensures
        change_bytes(c) == change_line_bytes(c) + nl() + change_data(c),
        no_byte(change_line_bytes(c), 10),
        change_line_bytes(c).len() > 0,
        change_line_bytes(c)[0] != 109,
        change_line_bytes(c)[0] != 102,
{
    lemma_kw_changes();
    lemma_kw_commands();
    let lb = change_line_bytes(c);
    match c {
        FileChangeModel::Modify { mode, dataref, path } => {
            lemma_clb_modify(mode, dataref, path, lenient);
            lemma_no_byte_concat(kw("M "@), kw(mode) + sp() + dataref_bytes(dataref) + sp() + kw(path_text(path)), 10);
        },
        FileChangeModel::Delete { path } => {
            lemma_path_read(path, lenient, 0);
            lemma_no_byte_concat(kw("D "@), kw(path_text(path)), 10);
        },
        FileChangeModel::Copy { src, dst } => {
            lemma_clb_two(src, dst, lenient);
            lemma_no_byte_concat(kw("C "@), kw(path_text(src)) + sp() + kw(path_text(dst)), 10);
        },
        FileChangeModel::Rename { src, dst } => {
            lemma_clb_two(src, dst, lenient);
            lemma_no_byte_concat(kw("R "@), kw(path_text(src)) + sp() + kw(path_text(dst)), 10);
        },
        FileChangeModel::DeleteAll => {},
        FileChangeModel::Ls { path } => {
            lemma_path_read(path, lenient, 0);
            lemma_no_byte_concat(kw("ls "@), kw(path_text(path)), 10);
        },
        FileChangeModel::Note { dataref, commitish } => {
            lemma_clb_note(dataref, commitish, known, lenient);
            lemma_no_byte_concat(kw("N "@), dataref_bytes(dataref) + sp() + kw(commitish), 10);
        },
    }
    assert(change_bytes(c) =~= lb + nl() + change_data(c));
}


/// The line of a file change stands at `p` and reads as `lb`.
pub open spec fn change_line_at(d: Seq<u8>, p: int, c: FileChangeModel) -> bool {
    &&& at_b(d, p + change_line_bytes(c).len() + 1, change_data(c))
    &&& line_at(d, p) == change_line_bytes(c)
    &&& line_adv(d, p) == change_line_bytes(c).len() + 1
    &&& p < d.len()
}

#[verifier::rlimit(30)]
proof fn lemma_change_read_modify(d: Seq<u8>, p: int, l: int, c: FileChangeModel, known: Set<u64>, lenient: bool)
    requires
        c is Modify,
        change_line_at(d, p, c),
        change_ok(c, known, lenient),
    ensures
        change_line_spec(d, p, l, lenient, known) matches Some(Ok((v, x, _))) && v == c
            && x == change_data(c).len(),
{
    let lb = change_line_bytes(c);
    let p1 = p + lb.len() + 1;
    lemma_kw_changes();
    match c {
        FileChangeModel::Modify { mode, dataref, path } => {
            let body = kw(mode) + sp() + dataref_bytes(dataref) + sp() + kw(path_text(path));
            lemma_prefix_rest(lb, kw("M "@), body);
            lemma_filemodify_read(d, p1, l + 1, mode, dataref, path, lenient, l);
            assert(change_line_spec(d, p, l, lenient, known) == Some(
                filemodify_spec(body, d, p1, l + 1, lenient, l),
            )) by {
                reveal(change_line_spec);
            }
        },
        _ => {},
    }
}

#[verifier::rlimit(30)]
proof fn lemma_change_read_note(d: Seq<u8>, p: int, l: int, c: FileChangeModel, known: Set<u64>, lenient: bool)
    requires
        c is Note,
        change_line_at(d, p, c),
        change_ok(c, known, lenient),
    ensures
        change_line_spec(d, p, l, lenient, known) matches Some(Ok((v, x, _))) && v == c
            && x == change_data(c).len(),
{
    let lb = change_line_bytes(c);
    let p1 = p + lb.len() + 1;
    lemma_kw_changes();
    match c {
        FileChangeModel::Note { dataref, commitish } => {
            let body = dataref_bytes(dataref) + sp() + kw(commitish);
            lemma_not_prefix_first(lb, kw("M "@));
            lemma_not_prefix_first(lb, kw("D "@));
            lemma_prefix_rest(lb, kw("N "@), body);
            lemma_notemodify_read(d, p1, l + 1, dataref, commitish, known, lenient, l);
            assert(change_line_spec(d, p, l, lenient, known) == Some(
                notemodify_spec(body, d, p1, l + 1, lenient, known, l),
            )) by {
                reveal(change_line_spec);
            }
        },
        _ => {},
    }
}

#[verifier::rlimit(30)]
proof fn lemma_change_read_delete(d: Seq<u8>, p: int, l: int, c: FileChangeModel, known: Set<u64>, lenient: bool)
    requires
        c is Delete || c is Ls || c is DeleteAll,
        change_line_at(d, p, c),
    ensures
        change_line_spec(d, p, l, lenient, known) matches Some(Ok((v, x, _))) && v == c && x == 0,
{
    let lb = change_line_bytes(c);
    lemma_kw_changes();
    lemma_kw_commands();
    lemma_not_prefix_first(lb, kw("M "@));
    match c {
        FileChangeModel::Delete { path } => {
            lemma_prefix_rest(lb, kw("D "@), kw(path_text(path)));
            lemma_path_read(path, lenient, l);
            assert(change_line_spec(d, p, l, lenient, known) == Some(
                Ok::<(FileChangeModel, nat, nat), PErr>((c, 0, 0)),
            )) by {
                reveal(change_line_spec);
            }
        },
        FileChangeModel::Ls { path } => {
            lemma_not_prefix_first(lb, kw("D "@));
            lemma_not_prefix_first(lb, kw("N "@));
            lemma_not_prefix_first(lb, kw("C "@));
            lemma_not_prefix_first(lb, kw("R "@));
            lemma_not_prefix_first(lb, kw("deleteall"@));
            lemma_prefix_rest(lb, kw("ls "@), kw(path_text(path)));
            lemma_path_read(path, lenient, l);
            assert(change_line_spec(d, p, l, lenient, known) == Some(
                Ok::<(FileChangeModel, nat, nat), PErr>((c, 0, 0)),
            )) by {
                reveal(change_line_spec);
            }
        },
        FileChangeModel::DeleteAll => {
            lemma_not_prefix_first(lb, kw("D "@));
            lemma_not_prefix_first(lb, kw("N "@));
            lemma_not_prefix_first(lb, kw("C "@));
            lemma_not_prefix_first(lb, kw("R "@));
            assert(change_line_spec(d, p, l, lenient, known) == Some(
                Ok::<(FileChangeModel, nat, nat), PErr>((c, 0, 0)),
            )) by {
                reveal(change_line_spec);
            }
        },
        _ => {},
    }
}

#[verifier::rlimit(30)]
proof fn lemma_change_read_copy(d: Seq<u8>, p: int, l: int, c: FileChangeModel, known: Set<u64>, lenient: bool)
    requires
        c is Copy || c is Rename,
        change_line_at(d, p, c),
    ensures
        change_line_spec(d, p, l, lenient, known) matches Some(Ok((v, x, _))) && v == c && x == 0,
{
    let lb = change_line_bytes(c);
    lemma_kw_changes();
    lemma_not_prefix_first(lb, kw("M "@));
    lemma_not_prefix_first(lb, kw("D "@));
    lemma_not_prefix_first(lb, kw("N "@));
    match c {
        FileChangeModel::Copy { src, dst } => {
            lemma_prefix_rest(lb, kw("C "@), kw(path_text(src)) + sp() + kw(path_text(dst)));
            lemma_two_paths_read(src, dst, lenient, l);
            assert(change_line_spec(d, p, l, lenient, known) == Some(
                Ok::<(FileChangeModel, nat, nat), PErr>((c, 0, 0)),
            )) by {
                reveal(change_line_spec);
            }
        },
        FileChangeModel::Rename { src, dst } => {
            lemma_not_prefix_first(lb, kw("C "@));
            lemma_prefix_rest(lb, kw("R "@), kw(path_text(src)) + sp() + kw(path_text(dst)));
            lemma_two_paths_read(src, dst, lenient, l);
            assert(change_line_spec(d, p, l, lenient, known) == Some(
                Ok::<(FileChangeModel, nat, nat), PErr>((c, 0, 0)),
            )) by {
                reveal(change_line_spec);
            }
        },
        _ => {},
    }
}

/// Reading a file change line (and its data block) that the writer wrote.
#[verifier::rlimit(30)]
proof fn lemma_change_read(d: Seq<u8>, p: int, l: int, c: FileChangeModel, known: Set<u64>, lenient: bool)
    requires
        at_b(d, p, change_bytes(c)),
        change_ok(c, known, lenient),
    ensures
        change_line_spec(d, p, l, lenient, known) matches Some(Ok((v, x, _))) && v == c
            && line_adv(d, p) + x == change_bytes(c).len(),
        line_at(d, p) == change_line_bytes(c),
        p < d.len(),
{
    lemma_change_line_bytes(c, known, lenient);
    let lb = change_line_bytes(c);
    lemma_at_split(d, p, lb + nl(), change_data(c));
    lemma_line_read(d, p, lb);
    if c is Modify {
        lemma_change_read_modify(d, p, l, c, known, lenient);
    } else if c is Note {
        lemma_change_read_note(d, p, l, c, known, lenient);
    } else if c is Copy || c is Rename {
        lemma_change_read_copy(d, p, l, c, known, lenient);
    } else {
        lemma_change_read_delete(d, p, l, c, known, lenient);
    }
}

// ---------------------------------------------------------------------------
// The lines of a commit
// ---------------------------------------------------------------------------

proof fn lemma_changes_front(c: FileChangeModel, rest: Seq<FileChangeModel>)
    ensures
        changes_bytes(seq![c] + rest) == change_bytes(c) + changes_bytes(rest),
    decreases rest.len(),
{
    let s = seq![c] + rest;
    if rest.len() == 0 {
        assert(s.drop_last() =~= Seq::<FileChangeModel>::empty());
        assert(changes_bytes(s) =~= change_bytes(c) + changes_bytes(rest));
    } else {
        lemma_changes_front(c, rest.drop_last());
        assert(s.drop_last() =~= seq![c] + rest.drop_last());
        assert(s.last() == rest.last());
        assert(changes_bytes(s) =~= change_bytes(c) + changes_bytes(rest));
    }
}

proof fn lemma_merges_front(m: Seq<char>, rest: Seq<Seq<char>>)
    ensures
        merges_bytes(seq![m] + rest) == kw("merge "@) + kw(m) + nl() + merges_bytes(rest),
    decreases rest.len(),
{
    let s = seq![m] + rest;
    if rest.len() == 0 {
        assert(s.drop_last() =~= Seq::<Seq<char>>::empty());
        assert(merges_bytes(s) =~= kw("merge "@) + kw(m) + nl() + merges_bytes(rest));
    } else {
        lemma_merges_front(m, rest.drop_last());
        assert(s.drop_last() =~= seq![m] + rest.drop_last());
        assert(s.last() == rest.last());
        assert(merges_bytes(s) =~= kw("merge "@) + kw(m) + nl() + merges_bytes(rest));
    }
}

/// The bytes that start the file changes of a commit (and its closing empty
/// line): never an `m` or an `f`.
#[verifier::rlimit(40)]
proof fn lemma_changes_first_byte(cs: Seq<FileChangeModel>, known: Set<u64>, lenient: bool)
    requires
        forall|i: int| 0 <= i < cs.len() ==> change_ok(#[trigger] cs[i], known, lenient),
    ensures
        (changes_bytes(cs) + nl()).len() > 0,
        (changes_bytes(cs) + nl())[0] != 109,
        (changes_bytes(cs) + nl())[0] != 102,
{
    if cs.len() > 0 {
        let c = cs[0];
        assert(cs =~= seq![c] + cs.drop_first());
        lemma_changes_front(c, cs.drop_first());
        lemma_change_line_bytes(c, known, lenient);
        let lb = change_line_bytes(c);
        assert((changes_bytes(cs) + nl())[0] == lb[0]);
    }
}

/// Reading the file changes that the writer wrote, and the empty line that
/// closes the commit.
#[verifier::rlimit(40)]
proof fn lemma_changes_read(d: Seq<u8>, p: int, l: int, cs: Seq<FileChangeModel>, known: Set<u64>, lenient: bool)
    requires
        at_b(d, p, changes_bytes(cs) + nl()),
        forall|i: int| 0 <= i < cs.len() ==> change_ok(#[trigger] cs[i], known, lenient),
    ensures
        changes_spec(d, p, l, lenient, known) matches Ok((v, x, _)) && v == cs && x == changes_bytes(cs).len() + 1,
    decreases cs.len(),
{
    if cs.len() == 0 {
        assert(changes_bytes(cs) + nl() =~= Seq::<u8>::empty() + nl());
        lemma_line_read(d, p, Seq::empty());
    } else {
        let c = cs[0];
        let rest = cs.drop_first();
        assert(cs =~= seq![c] + rest);
        lemma_changes_front(c, rest);
        assert(changes_bytes(cs) + nl() =~= change_bytes(c) + (changes_bytes(rest) + nl()));
        lemma_at_split(d, p, change_bytes(c), changes_bytes(rest) + nl());
        lemma_change_read(d, p, l, c, known, lenient);
        lemma_change_line_bytes(c, known, lenient);
        lemma_line_end(d, p);
        assert forall|i: int| 0 <= i < rest.len() implies change_ok(#[trigger] rest[i], known, lenient) by {
            assert(rest[i] == cs[i + 1]);
        }
        match change_line_spec(d, p, l, lenient, known) {
            Some(Ok((v, x, k))) => {
                lemma_changes_read(d, p + change_bytes(c).len(), l + 1 + k, rest, known, lenient);
                assert(seq![c] + rest =~= cs);
            },
            _ => {},
        }
    }
}

/// Reading the `merge` lines that the writer wrote, before `after` (which
/// does not begin with `m`).
#[verifier::rlimit(30)]
proof fn lemma_merges_read(
    d: Seq<u8>,
    p: int,
    l: int,
    ms: Seq<Seq<char>>,
    known: Set<u64>,
    lenient: bool,
    after: Seq<u8>,
)
    requires
        at_b(d, p, merges_bytes(ms) + after),
        after.len() > 0,
        after[0] != 109,
        forall|i: int| 0 <= i < ms.len() ==> commitish_ok(#[trigger] ms[i], known, lenient),
    ensures
        merges_spec(d, p, l, lenient, known) matches Ok((v, x, _)) && v == ms && x == merges_bytes(ms).len(),
    decreases ms.len(),
{
    lemma_kw_commit_lines();
    if ms.len() == 0 {
        assert(merges_bytes(ms) + after =~= after);
        lemma_at_index(d, p, after, 0);
        lemma_not_peek(d, p, kw("merge "@));
    } else {
        let m = ms[0];
        let rest = ms.drop_first();
        assert(ms =~= seq![m] + rest);
        lemma_merges_front(m, rest);
        let line = kw("merge "@) + kw(m);
        lemma_commitish_read(m, known, lenient, l);
        lemma_no_byte_concat(kw("merge "@), kw(m), 10);
        assert(merges_bytes(ms) + after =~= (line + nl()) + (merges_bytes(rest) + after));
        lemma_at_split(d, p, line + nl(), merges_bytes(rest) + after);
        lemma_line_read(d, p, line);
        lemma_prefix_rest(line, kw("merge "@), kw(m));
        assert forall|i: int| 0 <= i < rest.len() implies commitish_ok(#[trigger] rest[i], known, lenient) by {
            assert(rest[i] == ms[i + 1]);
        }
        lemma_merges_read(d, p + line.len() + 1, l + 1, rest, known, lenient, after);
        assert(seq![m] + rest =~= ms);
    }
}

/// Reading the optional `from` line of a commit, before `after` (which does
/// not begin with `f`).
#[verifier::rlimit(30)]
proof fn lemma_opt_from_read(
    d: Seq<u8>,
    p: int,
    l: int,
    from: Option<Seq<char>>,
    known: Set<u64>,
    lenient: bool,
    after: Seq<u8>,
)
    requires
        at_b(d, p, opt_line("from "@, from) + after),
        after.len() > 0,
        after[0] != 102,
        from matches Some(f) ==> commitish_ok(f, known, lenient),
    ensures
        opt_from_spec(d, p, l, lenient, known) matches Ok((v, x, _)) && v == from && x == opt_line(
            "from "@,
            from,
        ).len(),
{
    lemma_kw_commit_lines();
    match from {
        Some(f) => {
            let line = kw("from "@) + kw(f);
            lemma_commitish_read(f, known, lenient, l);
            lemma_no_byte_concat(kw("from "@), kw(f), 10);
            assert(opt_line("from "@, from) + after =~= (line + nl()) + after);
            lemma_at_split(d, p, line + nl(), after);
            lemma_line_read(d, p, line);
            lemma_prefix_rest(line, kw("from "@), kw(f));
        },
        None => {
            assert(opt_line("from "@, from) + after =~= after);
            lemma_at_index(d, p, after, 0);
            lemma_not_peek(d, p, kw("from "@));
        },
    }
}

/// A person line is one line.
#[verifier::rlimit(30)]
proof fn lemma_person_one_line(p: PersonModel)
    requires
        person_ok(p),
    ensures
        no_byte(kw(person_text(p)), 10),
{
    let t = person_text(p);
    lemma_tz_chars(p.tz_offset);
    lemma_decimal_int_chars(p.timestamp as int);
    let dec = decimal_int(p.timestamp as int);
    reveal_strlit("> ");
    assert("> "@ =~= seq!['>', ' ']);
    let nc = name_chars(p.name);
    assert(free_of(nc, '\n')) by {
        match p.name {
            Some(n) => {
                assert forall|i: int| 0 <= i < nc.len() implies nc[i] != '\n' by {
                    if i < n.len() {
                        assert(nc[i] == n[i]);
                    }
                }
            },
            None => {},
        }
    }
    assert forall|i: int| 0 <= i < t.len() implies t[i] != '\n' by {
        let o = nc.len() as int;
        let c = o + 1 + p.email.len();
        if i < o {
            assert(t[i] == nc[i]);
        } else if o < i < c {
            assert(t[i] == p.email[i - o - 1]);
        } else if c + 2 <= i < c + 2 + dec.len() {
            assert(t[i] == dec[i - c - 2]);
        } else if c + 3 + dec.len() <= i {
            assert(t[i] == p.tz_offset[i - c - 3 - dec.len()]);
        }
    }
    lemma_free_of_bytes(t, '\n', 10);
}

/// Reading an optional person line with the keyword `key`, before `after`
/// (whose first byte is not the keyword's).
#[verifier::rlimit(30)]
proof fn lemma_opt_person_read(
    d: Seq<u8>,
    p: int,
    l: int,
    key: Seq<char>,
    person: Option<PersonModel>,
    lenient: bool,
    after: Seq<u8>,
)
    requires
        at_b(d, p, opt_person_line(key, person) + after),
        kw(key).len() > 0,
        no_byte(kw(key), 10),
        after.len() > 0,
        after[0] != kw(key)[0],
        person matches Some(x) ==> person_ok(x),
    ensures
        opt_person_spec(d, p, l, kw(key), lenient) matches Ok((v, x, _)) && v == person && x
            == opt_person_line(key, person).len(),
{
    match person {
        Some(x) => {
            lemma_person_bytes(x);
            lemma_person_one_line(x);
            let line = kw(key) + kw(person_text(x));
            lemma_no_byte_concat(kw(key), kw(person_text(x)), 10);
            assert(opt_person_line(key, person) + after =~= (line + nl()) + after);
            lemma_at_split(d, p, line + nl(), after);
            lemma_line_read(d, p, line);
            lemma_prefix_rest(line, kw(key), kw(person_text(x)));
            lemma_person_read(kw(person_text(x)), l, lenient, x);
        },
        None => {
            assert(opt_person_line(key, person) + after =~= after);
            lemma_at_index(d, p, after, 0);
            lemma_not_peek(d, p, kw(key));
        },
    }
}


// ---------------------------------------------------------------------------
// Commits
// ---------------------------------------------------------------------------

/// A commit as it reads back.
pub open spec fn commit_ok(c: CommitModel, known: Set<u64>, lenient: bool) -> bool {
    &&& ref_ok(c.branch)
    &&& (c.author matches Some(a) ==> person_ok(a))
    &&& person_ok(c.committer)
    &&& c.message.len() <= usize::MAX
    &&& (c.from matches Some(f) ==> commitish_ok(f, known, lenient))
    &&& forall|i: int| 0 <= i < c.merges.len() ==> commitish_ok(#[trigger] c.merges[i], known, lenient)
    &&& forall|i: int| 0 <= i < c.file_changes.len() ==> change_ok(#[trigger] c.file_changes[i], known, lenient)
}

/// A commit after its first line.
pub open spec fn commit_body(c: CommitModel) -> Seq<u8> {
    mark_line(c.mark) + (opt_person_line("author "@, c.author) + ((kw("committer "@) + person_bytes(
        c.committer,
    )) + (data_bytes(c.message) + (opt_line("from "@, c.from) + (merges_bytes(c.merges) + (
    changes_bytes(c.file_changes) + nl()))))))
}

#[verifier::rlimit(40)]
proof fn lemma_commit_bytes(c: CommitModel)
    ensures
        commit_bytes(c) == kw("commit "@) + kw(c.branch) + nl() + commit_body(c),
{
    let k = kw("commit "@) + kw(c.branch) + nl();
    let m = mark_line(c.mark);
    let a = opt_person_line("author "@, c.author);
    let kc = kw("committer "@);
    let pb = person_bytes(c.committer);
    let db = data_bytes(c.message);
    let f = opt_line("from "@, c.from);
    let ms = merges_bytes(c.merges);
    let ch = changes_bytes(c.file_changes);
    let n = nl();
    let h = k + m + a + kc + pb + db + f;
    assert(commit_head(c) == h);
    let x0 = ch + n;
    let x1 = ms + x0;
    lemma_concat_associative(h + ms, ch, n);
    lemma_concat_associative(h, ms, x0);
    let x2 = f + x1;
    lemma_concat_associative(k + m + a + kc + pb + db, f, x1);
    let x3 = db + x2;
    lemma_concat_associative(k + m + a + kc + pb, db, x2);
    lemma_concat_associative(k + m + a + kc, pb, x3);
    lemma_concat_associative(k + m + a, kc, pb + x3);
    lemma_concat_associative(kc, pb, x3);
    let x4 = (kc + pb) + x3;
    lemma_concat_associative(k + m, a, x4);
    lemma_concat_associative(k, m, a + x4);
    assert(commit_body(c) == m + (a + x4));
}

/// The part of a commit from its `from` line on reads back.
#[verifier::rlimit(40)]
proof fn lemma_commit_tail_read(d: Seq<u8>, p: int, l: int, c: CommitModel, known: Set<u64>, lenient: bool)
    requires
        at_b(d, p, opt_line("from "@, c.from) + (merges_bytes(c.merges) + (changes_bytes(c.file_changes) + nl()))),
        commit_ok(c, known, lenient),
    ensures
        opt_from_spec(d, p, l, lenient, known) matches Ok((from, a5, k5)) && from == c.from && a5 == opt_line("from "@, c.from).len()
            && (merges_spec(d, p + a5, l + k5, lenient, known) matches Ok((merges, a6, k6)) && merges == c.merges && a6 == merges_bytes(c.merges).len()
            && (changes_spec(d, p + a5 + a6, l + k5 + k6, lenient, known) matches Ok((fcs, a7, _)) && fcs == c.file_changes
            && a7 == changes_bytes(c.file_changes).len() + 1)),
{
    let f = opt_line("from "@, c.from);
    let ms = merges_bytes(c.merges);
    let ch = changes_bytes(c.file_changes) + nl();
    lemma_changes_first_byte(c.file_changes, known, lenient);
    lemma_kw_commit_lines();
    assert((ms + ch).len() > 0 && (ms + ch)[0] != 102) by {
        if c.merges.len() > 0 {
            let m = c.merges[0];
            assert(c.merges =~= seq![m] + c.merges.drop_first());
            lemma_merges_front(m, c.merges.drop_first());
            assert((ms + ch)[0] == kw("merge "@)[0]);
        } else {
            assert(ms =~= Seq::<u8>::empty());
            assert((ms + ch)[0] == ch[0]);
        }
    }
    lemma_opt_from_read(d, p, l, c.from, known, lenient, ms + ch);
    lemma_at_split(d, p, f, ms + ch);
    lemma_at_split(d, p + f.len(), ms, ch);
    match opt_from_spec(d, p, l, lenient, known) {
        Ok((from, a5, k5)) => {
            lemma_merges_read(d, p + a5, l + k5, c.merges, known, lenient, ch);
            match merges_spec(d, p + a5, l + k5, lenient, known) {
                Ok((merges, a6, k6)) => {
                    lemma_changes_read(d, p + a5 + a6, l + k5 + k6, c.file_changes, known, lenient);
                },
                Err(_) => {},
            }
        },
        Err(_) => {},
    }
}


/// Reading the body of a commit that the writer wrote.
#[verifier::spinoff_prover]
#[verifier::rlimit(60)]
proof fn lemma_commit_body_read(d: Seq<u8>, p: int, l: int, c: CommitModel, known: Set<u64>, lenient: bool)
    requires
        at_b(d, p, commit_body(c)),
        commit_ok(c, known, lenient),
    ensures
        commit_spec(d, p, l, kw(c.branch), lenient, known) matches Ok((v, x, _)) && v == c && x
            == commit_body(c).len(),
{
    reveal(commit_spec);
    lemma_kw_commit_lines();
    let m = mark_line(c.mark);
    let a = opt_person_line("author "@, c.author);
    let kc = kw("committer "@);
    let pt = kw(person_text(c.committer));
    let pb = person_bytes(c.committer);
    let db = data_bytes(c.message);
    let t = opt_line("from "@, c.from) + (merges_bytes(c.merges) + (changes_bytes(c.file_changes) + nl()));
    let rest3 = db + t;
    let rest2 = (kc + pb) + rest3;
    let rest1 = a + rest2;
    lemma_person_bytes(c.committer);
    lemma_person_one_line(c.committer);
    lemma_no_byte_concat(kc, pt, 10);
    lemma_ref_read(c.branch);
    // the mark line
    assert(rest1.len() > 0 && rest1[0] != 109) by {
        match c.author {
            Some(x) => {
                assert(rest1[0] == kw("author "@)[0]);
            },
            None => {
                assert(a =~= Seq::<u8>::empty());
                assert(rest1[0] == kc[0]);
            },
        }
    }
    lemma_opt_mark_read(d, p, l, c.mark, rest1);
    lemma_at_split(d, p, m, rest1);
    let p1 = p + m.len();
    lemma_at_split(d, p1, a, rest2);
    let p2 = p1 + a.len();
    lemma_at_split(d, p2, kc + pb, rest3);
    assert(kc + pb =~= (kc + pt) + nl());
    lemma_line_read(d, p2, kc + pt);
    lemma_prefix_rest(kc + pt, kc, pt);
    let p3 = p2 + (kc + pb).len();
    lemma_at_split(d, p3, db, t);
    let p4 = p3 + db.len();
    match opt_mark_spec(d, p, l) {
        Ok((mark, a1, k1)) => {
            lemma_opt_person_read(d, p1, l + k1, "author "@, c.author, lenient, rest2);
            match opt_person_spec(d, p1, l + k1, kw("author "@), lenient) {
                Ok((author, a2, k2)) => {
                    let l2 = l + k1 + k2;
                    assert(required_line(d, p2, l2, kc, "committer"@) == Ok::<Seq<u8>, PErr>(pt));
                    lemma_person_read(pt, l2, lenient, c.committer);
                    lemma_data_read(d, p3, l2 + 1, c.message, lenient);
                    match data_spec(d, p3, l2 + 1, lenient) {
                        Ok((message, a4, k4)) => {
                            lemma_commit_tail_read(d, p4, l2 + 1 + k4, c, known, lenient);
                        },
                        Err(_) => {},
                    }
                },
                Err(_) => {},
            }
        },
        Err(_) => {},
    }
}


// ---------------------------------------------------------------------------
// Tags, blobs, resets and ls
// ---------------------------------------------------------------------------

/// A tag as it reads back.
pub open spec fn tag_ok(t: TagModel, known: Set<u64>, lenient: bool) -> bool {
    &&& ref_ok(t.name)
    &&& commitish_ok(t.from, known, lenient)
    &&& (t.tagger matches Some(x) ==> person_ok(x))
    &&& t.message.len() <= usize::MAX
}

/// A tag after its first line.
pub open spec fn tag_body(t: TagModel) -> Seq<u8> {
    mark_line(t.mark) + ((kw("from "@) + kw(t.from) + nl()) + (opt_person_line("tagger "@, t.tagger)
        + data_bytes(t.message)))
}

#[verifier::rlimit(40)]
proof fn lemma_tag_bytes(t: TagModel)
    ensures
        tag_bytes(t) == kw("tag "@) + kw(t.name) + nl() + tag_body(t),
{
    let k = kw("tag "@) + kw(t.name) + nl();
    let m = mark_line(t.mark);
    let f = kw("from "@) + kw(t.from) + nl();
    let a = opt_person_line("tagger "@, t.tagger);
    let db = data_bytes(t.message);
    lemma_concat_associative(k + m, f, a);
    lemma_concat_associative(k + m + f, a, db);
    lemma_concat_associative(k + m, f, a + db);
    lemma_concat_associative(k, m, f + (a + db));
    lemma_concat_associative(k + m, kw("from "@) + kw(t.from), nl());
    lemma_concat_associative(k + m, kw("from "@), kw(t.from));
    assert(tag_bytes(t) == k + m + kw("from "@) + kw(t.from) + nl() + a + db);
}

/// Reading the body of a tag that the writer wrote.
#[verifier::spinoff_prover]
#[verifier::rlimit(30)]
proof fn lemma_tag_body_read(d: Seq<u8>, p: int, l: int, t: TagModel, known: Set<u64>, lenient: bool)
    requires
        at_b(d, p, tag_body(t)),
        tag_ok(t, known, lenient),
    ensures
        tag_spec(d, p, l, kw(t.name), lenient, known) matches Ok((v, x, _)) && v == t && x
            == tag_body(t).len(),
{
    reveal(tag_spec);
    lemma_kw_commit_lines();
    lemma_kw_data();
    let m = mark_line(t.mark);
    let fl = kw("from "@) + kw(t.from);
    let a = opt_person_line("tagger "@, t.tagger);
    let db = data_bytes(t.message);
    let rest1 = (fl + nl()) + (a + db);
    lemma_ref_read(t.name);
    lemma_commitish_read(t.from, known, lenient, l);
    lemma_no_byte_concat(kw("from "@), kw(t.from), 10);
    assert(rest1[0] == kw("from "@)[0]);
    lemma_opt_mark_read(d, p, l, t.mark, rest1);
    lemma_at_split(d, p, m, rest1);
    let p1 = p + m.len();
    lemma_at_split(d, p1, fl + nl(), a + db);
    lemma_line_read(d, p1, fl);
    lemma_prefix_rest(fl, kw("from "@), kw(t.from));
    let p2 = p1 + fl.len() + 1;
    assert(db[0] == kw("data "@)[0]);
    lemma_at_split(d, p2, a, db);
    match opt_mark_spec(d, p, l) {
        Ok((mark, a1, k1)) => {
            let l1 = l + k1;
            lemma_commitish_read(t.from, known, lenient, l1);
            assert(required_line(d, p1, l1, kw("from "@), "from"@) == Ok::<Seq<u8>, PErr>(kw(t.from)));
            lemma_opt_person_read(d, p2, l1 + 1, "tagger "@, t.tagger, lenient, db);
            match opt_person_spec(d, p2, l1 + 1, kw("tagger "@), lenient) {
                Ok((tagger, a3, k3)) => {
                    lemma_data_read(d, p2 + a.len(), l1 + 1 + k3, t.message, lenient);
                },
                Err(_) => {},
            }
        },
        Err(_) => {},
    }
}

/// An event as it reads back, with the marks defined before it.
pub open spec fn event_ok(e: EventModel, known: Set<u64>, lenient: bool) -> bool {
    match e {
        EventModel::Blob { data, .. } => data.len() <= usize::MAX,
        EventModel::Commit(c) => commit_ok(c, known, lenient),
        EventModel::Reset { branch, from } => ref_ok(branch) && (from matches Some(f) ==> ref_ok(f)),
        EventModel::Tag(t) => tag_ok(t, known, lenient),
        EventModel::Ls { dataref, .. } => commitish_ok(dataref, known, lenient) && free_of(dataref, ' '),
        EventModel::Checkpoint => true,
        EventModel::Done => true,
    }
}

/// The first line of an event (without its newline).
pub open spec fn event_line(e: EventModel) -> Seq<u8> {
    match e {
        EventModel::Blob { .. } => kw("blob"@),
        EventModel::Commit(c) => kw("commit "@) + kw(c.branch),
        EventModel::Reset { branch, .. } => kw("reset "@) + kw(branch),
        EventModel::Tag(t) => kw("tag "@) + kw(t.name),
        EventModel::Ls { dataref, path } => kw("ls "@) + (kw(dataref) + sp() + kw(path_text(path))),
        EventModel::Checkpoint => kw("checkpoint"@),
        EventModel::Done => kw("done"@),
    }
}

/// What follows the first line of an event.
pub open spec fn event_rest(e: EventModel) -> Seq<u8> {
    match e {
        EventModel::Blob { mark, data } => mark_line(mark) + data_bytes(data),
        EventModel::Commit(c) => commit_body(c),
        EventModel::Reset { from, .. } => opt_line("from "@, from),
        EventModel::Tag(t) => tag_body(t),
        _ => Seq::empty(),
    }
}

#[verifier::rlimit(40)]
proof fn lemma_event_bytes(e: EventModel, known: Set<u64>, lenient: bool)
    requires
        event_ok(e, known, lenient),
    ensures
        event_bytes(e) == event_line(e) + nl() + event_rest(e),
        no_byte(event_line(e), 10),
        event_line(e).len() > 0,
        event_line(e)[0] != 102,
        event_line(e)[0] != 35,
{
    lemma_kw_commands();
    match e {
        EventModel::Blob { mark, data } => {
            assert(event_bytes(e) =~= event_line(e) + nl() + event_rest(e));
        },
        EventModel::Commit(c) => {
            lemma_commit_bytes(c);
            lemma_ref_read(c.branch);
            lemma_no_byte_concat(kw("commit "@), kw(c.branch), 10);
        },
        EventModel::Reset { branch, from } => {
            lemma_ref_read(branch);
            lemma_no_byte_concat(kw("reset "@), kw(branch), 10);
            assert(event_bytes(e) =~= event_line(e) + nl() + event_rest(e));
        },
        EventModel::Tag(t) => {
            lemma_tag_bytes(t);
            lemma_ref_read(t.name);
            lemma_no_byte_concat(kw("tag "@), kw(t.name), 10);
        },
        EventModel::Ls { dataref, path } => {
            lemma_commitish_read(dataref, known, lenient, 0);
            lemma_path_read(path, lenient, 0);
            lemma_no_nl3(kw(dataref), sp(), kw(path_text(path)));
            lemma_no_byte_concat(kw("ls "@), kw(dataref) + sp() + kw(path_text(path)), 10);
            assert(event_bytes(e) =~= event_line(e) + nl() + event_rest(e));
        },
        EventModel::Checkpoint => {
            assert(event_bytes(e) =~= event_line(e) + nl() + event_rest(e));
        },
        EventModel::Done => {
            assert(event_bytes(e) =~= event_line(e) + nl() + event_rest(e));
        },
    }
}


// ---------------------------------------------------------------------------
// Commands
// ---------------------------------------------------------------------------

proof fn lemma_not_prefix_at(line: Seq<u8>, key: Seq<u8>, j: int)
    requires
        0 <= j < key.len(),
        j < line.len(),
        line[j] != key[j],
    ensures
        !has_prefix(line, key),
        line != key,
{
    if has_prefix(line, key) {
        assert(line.subrange(0, key.len() as int)[j] == line[j]);
    }
}

/// The command line of an event stands at `p`, its rest after it.
pub open spec fn event_at(d: Seq<u8>, p: int, e: EventModel) -> bool {
    &&& line_at(d, p) == event_line(e)
    &&& line_adv(d, p) == event_line(e).len() + 1
    &&& at_b(d, p + event_line(e).len() + 1, event_rest(e))
    &&& 0 <= p < d.len()
}

pub open spec fn command_result_ok(r: Result<(Option<EventModel>, Set<u64>, nat, nat, bool), PErr>, e: EventModel, known: Set<u64>, x: int) -> bool {
    r matches Ok((ev, known2, y, _, stop)) && ev == Some(e) && known2 == with_mark(known, defined_mark(e))
        && y == x && stop == (e is Done)
}

#[verifier::rlimit(30)]
proof fn lemma_command_blob(d: Seq<u8>, p: int, l: int, known: Set<u64>, e: EventModel, lenient: bool)
    requires
        e is Blob,
        event_at(d, p, e),
        event_ok(e, known, lenient),
    ensures
        command_result_ok(command_spec(d, p, l, known, lenient), e, known, event_rest(e).len() as int),
{
    reveal(blob_spec);
    lemma_kw_commands();
    lemma_kw_data();
    match e {
        EventModel::Blob { mark, data } => {
            let p1 = p + event_line(e).len() + 1;
            lemma_at_split(d, p1, mark_line(mark), data_bytes(data));
            assert(data_bytes(data)[0] == kw("data "@)[0]);
            lemma_opt_mark_read(d, p1, l + 1, mark, data_bytes(data));
            match opt_mark_spec(d, p1, l + 1) {
                Ok((m, a1, k1)) => {
                    lemma_data_read(d, p1 + a1, l + 1 + k1, data, lenient);
                },
                Err(_) => {},
            }
            assert(command_spec(d, p, l, known, lenient) == match blob_spec(d, p1, l + 1, lenient) {
                Err(e) => Err(e),
                Ok((ev, x, k)) => Ok((Some(ev), with_mark(known, ev->Blob_mark), x, k, false)),
            }) by {
                reveal(command_spec);
            }
        },
        _ => {},
    }
}

#[verifier::rlimit(30)]
proof fn lemma_command_commit(d: Seq<u8>, p: int, l: int, known: Set<u64>, e: EventModel, lenient: bool)
    requires
        e is Commit,
        event_at(d, p, e),
        event_ok(e, known, lenient),
    ensures
        command_result_ok(command_spec(d, p, l, known, lenient), e, known, event_rest(e).len() as int),
{
    lemma_kw_commands();
    match e {
        EventModel::Commit(c) => {
            let line = event_line(e);
            let p1 = p + line.len() + 1;
            lemma_not_prefix_first(line, kw("blob"@));
            lemma_prefix_rest(line, kw("commit "@), kw(c.branch));
            lemma_commit_body_read(d, p1, l + 1, c, known, lenient);
            assert(command_spec(d, p, l, known, lenient) == match commit_spec(d, p1, l + 1, kw(c.branch), lenient, known) {
                Err(e) => Err(e),
                Ok((c, x, k)) => Ok((Some(EventModel::Commit(c)), with_mark(known, c.mark), x, k, false)),
            }) by {
                reveal(command_spec);
            }
        },
        _ => {},
    }
}

#[verifier::rlimit(40)]
proof fn lemma_command_reset(d: Seq<u8>, p: int, l: int, known: Set<u64>, e: EventModel, lenient: bool)
    requires
        e is Reset,
        event_at(d, p, e),
        event_ok(e, known, lenient),
        p + event_bytes(e).len() >= d.len() || d[p + event_bytes(e).len()] != 102,
        event_bytes(e) == event_line(e) + nl() + event_rest(e),
    ensures
        command_result_ok(command_spec(d, p, l, known, lenient), e, known, event_rest(e).len() as int),
{
    lemma_kw_commands();
    lemma_kw_commit_lines();
    match e {
        EventModel::Reset { branch, from } => {
            let line = event_line(e);
            let p1 = p + line.len() + 1;
            lemma_not_prefix_first(line, kw("blob"@));
            lemma_not_prefix_first(line, kw("commit "@));
            lemma_prefix_rest(line, kw("reset "@), kw(branch));
            lemma_ref_read(branch);
            match from {
                Some(f) => {
                    let fl = kw("from "@) + kw(f);
                    lemma_ref_read(f);
                    lemma_no_byte_concat(kw("from "@), kw(f), 10);
                    assert(opt_line("from "@, from) =~= fl + nl());
                    lemma_line_read(d, p1, fl);
                    lemma_prefix_rest(fl, kw("from "@), kw(f));
                },
                None => {
                    if p1 < d.len() {
                        lemma_not_peek(d, p1, kw("from "@));
                    }
                },
            }
            assert(command_spec(d, p, l, known, lenient) == match reset_spec(d, p1, l + 1, kw(branch)) {
                Err(e) => Err(e),
                Ok((ev, x, k)) => Ok((Some(ev), known, x, k, false)),
            }) by {
                reveal(command_spec);
            }
        },
        _ => {},
    }
}

#[verifier::rlimit(30)]
proof fn lemma_command_tag(d: Seq<u8>, p: int, l: int, known: Set<u64>, e: EventModel, lenient: bool)
    requires
        e is Tag,
        event_at(d, p, e),
        event_ok(e, known, lenient),
    ensures
        command_result_ok(command_spec(d, p, l, known, lenient), e, known, event_rest(e).len() as int),
{
    lemma_kw_commands();
    match e {
        EventModel::Tag(t) => {
            let line = event_line(e);
            let p1 = p + line.len() + 1;
            lemma_not_prefix_first(line, kw("blob"@));
            lemma_not_prefix_first(line, kw("commit "@));
            lemma_not_prefix_first(line, kw("reset "@));
            lemma_prefix_rest(line, kw("tag "@), kw(t.name));
            lemma_tag_body_read(d, p1, l + 1, t, known, lenient);
            assert(command_spec(d, p, l, known, lenient) == match tag_spec(d, p1, l + 1, kw(t.name), lenient, known) {
                Err(e) => Err(e),
                Ok((t, x, k)) => Ok((Some(EventModel::Tag(t)), with_mark(known, t.mark), x, k, false)),
            }) by {
                reveal(command_spec);
            }
        },
        _ => {},
    }
}

#[verifier::rlimit(40)]
proof fn lemma_command_ls(d: Seq<u8>, p: int, l: int, known: Set<u64>, e: EventModel, lenient: bool)
    requires
        e is Ls,
        event_at(d, p, e),
        event_ok(e, known, lenient),
    ensures
        command_result_ok(command_spec(d, p, l, known, lenient), e, known, event_rest(e).len() as int),
{
    lemma_kw_commands();
    match e {
        EventModel::Ls { dataref, path } => {
            let line = event_line(e);
            let rest = kw(dataref) + sp() + kw(path_text(path));
            lemma_not_prefix_first(line, kw("blob"@));
            lemma_not_prefix_first(line, kw("commit "@));
            lemma_not_prefix_first(line, kw("reset "@));
            lemma_not_prefix_first(line, kw("tag "@));
            lemma_prefix_rest(line, kw("ls "@), rest);
            lemma_commitish_read(dataref, known, lenient, l);
            lemma_path_read(path, lenient, l);
            lemma_free_of_bytes(dataref, ' ', 32);
            assert forall|j: int| 0 <= j < kw(dataref).len() implies rest[j] != 32 by {
                assert(rest[j] == kw(dataref)[j]);
            }
            assert(rest[kw(dataref).len() as int] == 32);
            lemma_find_byte_at(rest, 32, 0, kw(dataref).len() as int);
            assert(rest.subrange(0, kw(dataref).len() as int) =~= kw(dataref));
            assert(rest.subrange(kw(dataref).len() + 1int, rest.len() as int) =~= kw(path_text(path)));
            assert(ls_spec(rest, lenient, known, l) == Ok::<EventModel, PErr>(e));
            assert(command_spec(d, p, l, known, lenient) == match ls_spec(rest, lenient, known, l) {
                Err(e) => Err(e),
                Ok(ev) => Ok((Some(ev), known, 0nat, 0nat, false)),
            }) by {
                reveal(command_spec);
            }
        },
        _ => {},
    }
}

#[verifier::rlimit(30)]
proof fn lemma_command_simple(d: Seq<u8>, p: int, l: int, known: Set<u64>, e: EventModel, lenient: bool)
    requires
        e is Checkpoint || e is Done,
        event_at(d, p, e),
    ensures
        command_result_ok(command_spec(d, p, l, known, lenient), e, known, event_rest(e).len() as int),
{
    lemma_kw_commands();
    let line = event_line(e);
    lemma_not_prefix_first(line, kw("blob"@));
    lemma_not_prefix_first(line, kw("reset "@));
    lemma_not_prefix_first(line, kw("tag "@));
    lemma_not_prefix_first(line, kw("ls "@));
    if e is Checkpoint {
        lemma_not_prefix_at(line, kw("commit "@), 1);
        assert(command_spec(d, p, l, known, lenient) == Ok::<(Option<EventModel>, Set<u64>, nat, nat, bool), PErr>(
            (Some(EventModel::Checkpoint), known, 0, 0, false),
        )) by {
            reveal(command_spec);
        }
    } else {
        lemma_not_prefix_first(line, kw("commit "@));
        lemma_not_prefix_first(line, kw("checkpoint"@));
        assert(command_spec(d, p, l, known, lenient) == Ok::<(Option<EventModel>, Set<u64>, nat, nat, bool), PErr>(
            (Some(EventModel::Done), known, 0, 0, true),
        )) by {
            reveal(command_spec);
        }
    }
}

/// Reading one event that the writer wrote.
#[verifier::rlimit(30)]
proof fn lemma_command_read(d: Seq<u8>, p: int, l: int, known: Set<u64>, e: EventModel, lenient: bool)
    requires
        at_b(d, p, event_bytes(e)),
        event_ok(e, known, lenient),
        p + event_bytes(e).len() >= d.len() || d[p + event_bytes(e).len()] != 102,
    ensures
        command_result_ok(command_spec(d, p, l, known, lenient), e, known, event_bytes(e).len() - line_adv(d, p)),
        line_adv(d, p) >= 1,
        0 <= p < d.len(),
{
    lemma_event_bytes(e, known, lenient);
    let line = event_line(e);
    lemma_at_split(d, p, line + nl(), event_rest(e));
    lemma_line_read(d, p, line);
    if e is Blob {
        lemma_command_blob(d, p, l, known, e, lenient);
    } else if e is Commit {
        lemma_command_commit(d, p, l, known, e, lenient);
    } else if e is Reset {
        lemma_command_reset(d, p, l, known, e, lenient);
    } else if e is Tag {
        lemma_command_tag(d, p, l, known, e, lenient);
    } else if e is Ls {
        lemma_command_ls(d, p, l, known, e, lenient);
    } else {
        lemma_command_simple(d, p, l, known, e, lenient);
    }
}


// ---------------------------------------------------------------------------
// Streams
// ---------------------------------------------------------------------------

/// Events as they read back: each with the marks defined before it, and
/// `done`, which ends reading, only last.
pub open spec fn events_ok(es: Seq<EventModel>, known: Set<u64>, lenient: bool) -> bool
    decreases es.len(),
{
    if es.len() == 0 {
        true
    } else {
        &&& event_ok(es[0], known, lenient)
        &&& (es[0] is Done ==> es.len() == 1)
        &&& events_ok(es.drop_first(), with_mark(known, defined_mark(es[0])), lenient)
    }
}

proof fn lemma_write_front(e: EventModel, rest: Seq<EventModel>)
    ensures
        write_spec(seq![e] + rest) == event_bytes(e) + write_spec(rest),
    decreases rest.len(),
{
    let s = seq![e] + rest;
    if rest.len() == 0 {
        assert(s.drop_last() =~= Seq::<EventModel>::empty());
        assert(write_spec(s) =~= event_bytes(e) + write_spec(rest));
    } else {
        lemma_write_front(e, rest.drop_last());
        assert(s.drop_last() =~= seq![e] + rest.drop_last());
        assert(s.last() == rest.last());
        assert(write_spec(s) =~= event_bytes(e) + write_spec(rest));
    }
}

proof fn lemma_split_tail(d: Seq<u8>, p: int, x: Seq<u8>, y: Seq<u8>)
    requires
        0 <= p <= d.len(),
        d.subrange(p, d.len() as int) == x + y,
    ensures
        at_b(d, p, x),
        d.subrange(p + x.len(), d.len() as int) == y,
        p + x.len() <= d.len(),
        y.len() > 0 ==> d[p + x.len()] == y[0],
{
    let tail = d.subrange(p, d.len() as int);
    assert(tail.len() == x.len() + y.len());
    let q = p + x.len();
    assert forall|i: int| 0 <= i < x.len() implies d.subrange(p, q)[i] == x[i] by {
        assert(d.subrange(p, q)[i] == d[p + i]);
        assert(tail[i] == d[p + i]);
        assert((x + y)[i] == x[i]);
    }
    assert(d.subrange(p, q) =~= x);
    assert forall|i: int| 0 <= i < y.len() implies d.subrange(q, d.len() as int)[i] == y[i] by {
        assert(d.subrange(q, d.len() as int)[i] == d[q + i]);
        assert(tail[x.len() + i] == d[q + i]);
        assert((x + y)[x.len() + i] == y[i]);
    }
    assert(d.subrange(q, d.len() as int) =~= y);
}

/// The stream written for events that read back does not begin with `f`.
proof fn lemma_write_first_byte(es: Seq<EventModel>, known: Set<u64>, lenient: bool)
    requires
        events_ok(es, known, lenient),
    ensures
        write_spec(es).len() > 0 ==> write_spec(es)[0] != 102,
{
    if es.len() > 0 {
        let e = es[0];
        assert(es =~= seq![e] + es.drop_first());
        lemma_write_front(e, es.drop_first());
        lemma_event_bytes(e, known, lenient);
        assert(write_spec(es)[0] == event_line(e)[0]);
    }
}

/// Reading the stream written for `es`, from `p` on, gives `es`.
#[verifier::spinoff_prover]
#[verifier::rlimit(40)]
proof fn lemma_events_read(d: Seq<u8>, p: int, l: int, known: Set<u64>, es: Seq<EventModel>, lenient: bool)
    requires
        0 <= p <= d.len(),
        d.subrange(p, d.len() as int) == write_spec(es),
        events_ok(es, known, lenient),
    ensures
        events_spec(d, p, l, known, lenient) == Ok::<Seq<EventModel>, PErr>(es),
    decreases es.len(),
{
    if es.len() == 0 {
        assert(d.subrange(p, d.len() as int).len() == 0);
    } else {
        let e = es[0];
        let rest = es.drop_first();
        assert(es =~= seq![e] + rest);
        lemma_write_front(e, rest);
        let eb = event_bytes(e);
        let ws = write_spec(rest);
        lemma_split_tail(d, p, eb, ws);
        let q = p + eb.len();
        let known2 = with_mark(known, defined_mark(e));
        assert(events_ok(rest, known2, lenient));
        lemma_write_first_byte(rest, known2, lenient);
        lemma_command_read(d, p, l, known, e, lenient);
        lemma_line_end(d, p);
        match command_spec(d, p, l, known, lenient) {
            Ok((ev, kn, x, k, stop)) => {
                if !stop {
                    lemma_events_read(d, q, l + 1 + k, kn, rest, lenient);
                    assert(seq![e] + rest =~= es);
                } else {
                    assert(rest.len() == 0);
                    assert(seq![e] =~= es);
                }
            },
            Err(_) => {},
        }
    }
}

/// Reading back the stream that writing gives yields the events written,
/// for events whose texts can stand where the format puts them: names and
/// references on one line and trimmed, person stamps that read back, datarefs
/// that cannot be taken for another kind, mark references to marks defined
/// before them (unless reading is lenient), and `done` only last. Paths and
/// data are not restricted.
pub proof fn lemma_write_then_parse(es: Seq<EventModel>, lenient: bool)
    requires
        events_ok(es, Set::empty(), lenient),
    ensures
        parse_spec(write_spec(es), lenient) == Ok::<Seq<EventModel>, PErr>(es),
{
    let d = write_spec(es);
    assert(d.subrange(0, d.len() as int) =~= d);
    lemma_events_read(d, 0, 1, Set::empty(), es, lenient);
}

} // verus!
