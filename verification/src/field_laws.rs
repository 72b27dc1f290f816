//! What single fields mean: the file modes git uses, the shape of a time
//! zone offset, where a copy or rename keeps its two paths in JSON, the time
//! stamp of a person line, and the value of `--redact-author`.
use vstd::prelude::*;
use vstd::utf8::*;
use crate::fields::valid_mode;
use crate::model::{valid_tz, valid_tz_bytes, is_ascii_digit_byte, FileChangeModel, change_json, change_from_json};
use crate::json::{Json, get_spec, lemma_lookup_at};
use crate::text::is_digit;
use crate::roundtrip::{lemma_ascii_bytes_chars, lemma_non_ws_run_to};
use crate::fields::{utf8, rfind_char, lemma_rfind_char, person_spec, next_field};
use crate::text::{is_ws, ws_run, ws_run_back, trim, lemma_ws_run_back_bounds, parse_i64_spec};
use crate::json::free_of;
use crate::cli::{find_char, redact_author_spec};

verus! {

broadcast use vstd::seq_lib::group_seq_properties;

// ---------------------------------------------------------------------------
// File modes
// ---------------------------------------------------------------------------

/// Strict reading accepts exactly the file modes git uses: regular files
/// (100644), executables (100755), symbolic links (120000), gitlinks
/// (160000) and trees (040000).
pub proof fn lemma_git_modes(m: Seq<char>)
    ensures
        valid_mode("100644"@),
        valid_mode("100755"@),
        valid_mode("120000"@),
        valid_mode("160000"@),
        valid_mode("040000"@),
        valid_mode(m) <==> (m == "100644"@ || m == "100755"@ || m == "120000"@ || m == "160000"@ || m
            == "040000"@),
{
    reveal_strlit("100644");
    reveal_strlit("100755");
    reveal_strlit("120000");
    reveal_strlit("160000");
    reveal_strlit("040000");
}

// ---------------------------------------------------------------------------
// Time zone offsets
// ---------------------------------------------------------------------------

/// A character is a decimal digit exactly where its code is one.
proof fn lemma_digit_char(c: char)
    ensures
        is_digit(c) <==> 48 <= (c as u32) <= 57,
{
}

/// Characters with the same code are the same character.
proof fn lemma_char_code(c: char, d: char)
    ensures
        (c as u32) == (d as u32) ==> c == d,
{
}

/// A time zone offset is a sign (`+` or `-`) followed by four ASCII digits,
/// and every such text is one (`+0530` and `-0930` as well as `+0000`).
pub proof fn lemma_tz_offset_shape(s: Seq<char>)
    ensures
        valid_tz(s) <==> (s.len() == 5 && (s[0] == '+' || s[0] == '-') && forall|i: int|
            1 <= i < 5 ==> is_digit(#[trigger] s[i])),
{
    let b = encode_utf8(s);
    if valid_tz(s) {
        assert forall|i: int| 0 <= i < b.len() implies #[trigger] b[i] < 128 by {
            if i > 0 {
                assert(is_ascii_digit_byte(b[i]));
            }
        }
        lemma_ascii_bytes_chars(s);
        assert(b.len() == 5);
        assert(s.len() == 5);
        assert forall|i: int| 1 <= i < 5 implies is_digit(#[trigger] s[i]) by {
            assert(is_ascii_digit_byte(b[i]));
            assert(s[i] as u32 == encode_utf8(s)[i] as u32);
            assert(48 <= encode_utf8(s)[i] <= 57);
            assert(48 <= (s[i] as u32) <= 57);
            lemma_digit_char(s[i]);
        }
        assert(s[0] as u32 == b[0] as u32);
        lemma_char_code(s[0], '+');
        lemma_char_code(s[0], '-');
        assert(s[0] == '+' || s[0] == '-');
    }
    if s.len() == 5 && (s[0] == '+' || s[0] == '-') && forall|i: int| 1 <= i < 5 ==> is_digit(#[trigger] s[i]) {
        assert(is_ascii_chars(s)) by {
            assert forall|i: int| 0 <= i < s.len() implies '\0' <= #[trigger] s[i] <= '\u{7f}' by {
                if i > 0 {
                    lemma_digit_char(s[i]);
                }
            }
        }
        is_ascii_chars_encode_utf8(s);
        assert(b.len() == 5);
        assert forall|i: int| 1 <= i < 5 implies is_ascii_digit_byte(#[trigger] b[i]) by {
            assert(s[i] as u8 == encode_utf8(s)[i]);
            lemma_digit_char(s[i]);
            assert(48 <= (s[i] as u8) <= 57);
        }
        assert(s[0] as u8 == b[0]);
        assert(('+' as u8) == 43 && ('-' as u8) == 45);
        assert(b[0] == 43 || b[0] == 45);
        assert(b.len() == 5);
        assert(valid_tz_bytes(b));
    }
}

// ---------------------------------------------------------------------------
// Copies and renames in JSON
// ---------------------------------------------------------------------------

/// The JSON object of a copy or a rename names the operation under `"op"`,
/// its source under `"src"` and its destination under `"dst"`, and reading
/// such an object takes the source and destination from those entries.
pub proof fn lemma_copy_rename_json(src: Seq<char>, dst: Seq<char>, j: Json)
    ensures
        get_spec(change_json(FileChangeModel::Copy { src, dst }), "op"@) == Some(Json::Str("C"@)),
        get_spec(change_json(FileChangeModel::Copy { src, dst }), "src"@) == Some(Json::Str(src)),
        get_spec(change_json(FileChangeModel::Copy { src, dst }), "dst"@) == Some(Json::Str(dst)),
        get_spec(change_json(FileChangeModel::Rename { src, dst }), "op"@) == Some(Json::Str("R"@)),
        get_spec(change_json(FileChangeModel::Rename { src, dst }), "src"@) == Some(Json::Str(src)),
        get_spec(change_json(FileChangeModel::Rename { src, dst }), "dst"@) == Some(Json::Str(dst)),
        get_spec(j, "op"@) == Some(Json::Str("C"@)) && get_spec(j, "src"@) == Some(Json::Str(src))
            && get_spec(j, "dst"@) == Some(Json::Str(dst)) ==> change_from_json(j) == Ok::<FileChangeModel, Seq<char>>(
            FileChangeModel::Copy { src, dst },
        ),
        get_spec(j, "op"@) == Some(Json::Str("R"@)) && get_spec(j, "src"@) == Some(Json::Str(src))
            && get_spec(j, "dst"@) == Some(Json::Str(dst)) ==> change_from_json(j) == Ok::<FileChangeModel, Seq<char>>(
            FileChangeModel::Rename { src, dst },
        ),
{
    reveal_strlit("op");
    reveal_strlit("src");
    reveal_strlit("dst");
    reveal_strlit("C");
    reveal_strlit("R");
    reveal_strlit("D");
    let c = seq![("op"@, Json::Str("C"@)), ("src"@, Json::Str(src)), ("dst"@, Json::Str(dst))];
    let r = seq![("op"@, Json::Str("R"@)), ("src"@, Json::Str(src)), ("dst"@, Json::Str(dst))];
    assert("op"@.len() != "src"@.len());
    assert("op"@.len() != "dst"@.len());
    assert("src"@[0] != "dst"@[0]);
    assert("R"@[0] != "D"@[0] && "R"@[0] != "C"@[0] && "C"@[0] != "D"@[0]);
    lemma_lookup_at(c, 0, "op"@);
    lemma_lookup_at(c, 1, "src"@);
    lemma_lookup_at(c, 2, "dst"@);
    lemma_lookup_at(r, 0, "op"@);
    lemma_lookup_at(r, 1, "src"@);
    lemma_lookup_at(r, 2, "dst"@);
}

// ---------------------------------------------------------------------------
// Person stamps
// ---------------------------------------------------------------------------

proof fn lemma_rfind_last_at(s: Seq<char>, c: char, j: int, k: int)
    requires
        0 <= k < j <= s.len(),
        s[k] == c,
        forall|i: int| k < i < j ==> s[i] != c,
    ensures
        rfind_char(s, c, j) == Some(k),
    decreases j,
{
    if j - 1 > k {
        lemma_rfind_last_at(s, c, j - 1, k);
    }
}

proof fn lemma_rfind_skip(s: Seq<char>, c: char, m: int, j: int)
    requires
        0 <= m <= j <= s.len(),
        forall|i: int| m <= i < j ==> s[i] != c,
    ensures
        rfind_char(s, c, j) == rfind_char(s, c, m),
    decreases j,
{
    if j > m {
        lemma_rfind_skip(s, c, m, j - 1);
    }
}

proof fn lemma_rfind_found(s: Seq<char>, c: char, j: int, k: int)
    requires
        0 <= k < j <= s.len(),
        s[k] == c,
    ensures
        rfind_char(s, c, j) matches Some(x) && k <= x < j,
    decreases j,
{
    if s[j - 1] != c {
        lemma_rfind_found(s, c, j - 1, k);
    }
}

proof fn lemma_ws_run_to(s: Seq<char>, a: int, b: int)
    requires
        0 <= a <= b <= s.len(),
        forall|i: int| a <= i < b ==> is_ws(#[trigger] s[i]),
        b == s.len() || !is_ws(s[b]),
    ensures
        ws_run(s, a) == b - a,
    decreases b - a,
{
    if a < b {
        lemma_ws_run_to(s, a + 1, b);
    }
}

/// After whitespace, a field and then whitespace or the end, the first
/// field of the trimmed text is that field.
proof fn lemma_first_field(lead: Seq<char>, field: Seq<char>, tail: Seq<char>)
    requires
        forall|i: int| 0 <= i < lead.len() ==> is_ws(#[trigger] lead[i]),
        field.len() > 0,
        forall|i: int| 0 <= i < field.len() ==> !is_ws(#[trigger] field[i]),
        tail.len() == 0 || is_ws(tail[0]),
    ensures
        next_field(trim(lead + field + tail), 0) == Some((field, field.len() as int)),
{
    let rem = lead + field + tail;
    let a = lead.len() as int;
    let n = field.len() as int;
    assert(rem[a] == field[0]);
    lemma_ws_run_to(rem, 0, a);
    lemma_ws_run_back_bounds(rem, rem.len() as int);
    let e = rem.len() - ws_run_back(rem, rem.len() as int);
    assert(rem[a + n - 1] == field[n - 1]);
    assert(e >= a + n);
    let r = trim(rem);
    assert(r == rem.subrange(a, e));
    assert(r[0] == field[0]);
    assert(ws_run(r, 0) == 0);
    assert forall|i: int| 0 <= i < n implies !is_ws(#[trigger] r[i]) by {
        assert(r[i] == field[i]);
    }
    if n < r.len() {
        assert(r[n] == tail[0]);
    }
    lemma_non_ws_run_to(r, 0, n);
    assert(r.subrange(0, n) =~= field);
}

/// The time stamp of a person line is the first field after its email,
/// whatever follows it: reading, strict or lenient, gives that time stamp
/// also where the offset is missing or invalid, and lenient reading (which
/// then puts `+0000` for the offset) succeeds on every such line.
pub proof fn lemma_person_timestamp(
    b: Seq<u8>,
    line: int,
    lenient: bool,
    front: Seq<char>,
    lead: Seq<char>,
    field: Seq<char>,
    tail: Seq<char>,
    t: i64,
)
    requires
        utf8(b) == Some(front + seq!['>'] + (lead + field + tail)),
        exists|k: int| 0 <= k < front.len() && front[k] == '<',
        free_of(lead + field + tail, '<'),
        free_of(lead + field + tail, '>'),
        forall|i: int| 0 <= i < lead.len() ==> is_ws(#[trigger] lead[i]),
        forall|i: int| 0 <= i < field.len() ==> !is_ws(#[trigger] field[i]),
        tail.len() == 0 || is_ws(tail[0]),
        parse_i64_spec(field) == Some(t),
    ensures
        person_spec(b, line, lenient) matches Ok(p) ==> p.timestamp == t,
        lenient ==> person_spec(b, line, lenient) is Ok,
{
    reveal(person_spec);
    let rem = lead + field + tail;
    let text = front + seq!['>'] + rem;
    let c = front.len() as int;
    assert(field.len() > 0);
    assert(text[c] == '>');
    assert forall|i: int| c < i < text.len() implies text[i] != '>' by {
        assert(text[i] == rem[i - c - 1]);
    }
    lemma_rfind_last_at(text, '>', text.len() as int, c);
    assert forall|i: int| c + 1 <= i < text.len() implies text[i] != '<' by {
        assert(text[i] == rem[i - c - 1]);
    }
    lemma_rfind_skip(text, '<', c + 1, text.len() as int);
    let k = choose|k: int| 0 <= k < front.len() && front[k] == '<';
    assert(text[k] == front[k]);
    lemma_rfind_found(text, '<', c + 1, k);
    lemma_rfind_char(text, '<', c + 1);
    assert(text.subrange(c + 1, text.len() as int) =~= rem);
    lemma_first_field(lead, field, tail);
}

// ---------------------------------------------------------------------------
// The value of --redact-author
// ---------------------------------------------------------------------------

proof fn lemma_find_first(s: Seq<char>, c: char, i: int, k: int)
    requires
        0 <= i <= k < s.len(),
        s[k] == c,
        forall|j: int| i <= j < k ==> s[j] != c,
    ensures
        find_char(s, c, i) == Some(k),
    decreases k - i,
{
    if i < k {
        lemma_find_first(s, c, i + 1, k);
    }
}

/// The value of `--redact-author` gives as the name everything before the
/// first `<`, trimmed (none where that is blank), and as the email what
/// lies between that `<` and the last `>`, trimmed: `Jane Doe <jane@x>`
/// gives `Jane Doe` and `jane@x`, and `<jane@x>` gives no name.
pub proof fn lemma_redact_author_value(n: Seq<char>, e: Seq<char>)
    requires
        free_of(n, '<'),
        trim(e).len() > 0,
    ensures
        redact_author_spec(n + "<"@ + e + ">"@) == Ok::<(Option<Seq<char>>, Seq<char>), Seq<char>>(
            (if trim(n).len() == 0 {
                None
            } else {
                Some(trim(n))
            }, trim(e)),
        ),
{
    reveal_strlit("<");
    reveal_strlit(">");
    let s = n + "<"@ + e + ">"@;
    let o = n.len() as int;
    assert(s[o] == '<');
    assert forall|j: int| 0 <= j < o implies s[j] != '<' by {
        assert(s[j] == n[j]);
    }
    lemma_find_first(s, '<', 0, o);
    assert(s[s.len() - 1] == '>');
    assert(rfind_char(s, '>', s.len() as int) == Some(s.len() - 1));
    assert(s.subrange(0, o) =~= n);
    assert(s.subrange(o + 1, s.len() - 1) =~= e);
}

} // verus!
