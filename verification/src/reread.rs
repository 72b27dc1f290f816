//! What reading gives can be written and read again: the events that reading
//! a stream gives meet the conditions under which the stream written from
//! them reads back as them.
use vstd::prelude::*;
use vstd::utf8::*;
use crate::text::{trim, ws_run, ws_run_back, lemma_ws_run_bounds, lemma_ws_run_back_bounds, lemma_trim_bounds, lemma_trim_unpadded, is_ws, lossy_text, has_prefix};
use crate::fields::{utf8, rfind_char, lemma_rfind_char, person_spec, commitish_spec, find_byte, lemma_find_byte, PErr};
use crate::json::free_of;
use crate::model::{valid_tz, EventModel};
use crate::fastexport::{
    kw, line_end, line_at, line_adv, lemma_line_end, line_rest, delimited_body, data_spec, dataref_spec,
    filemodify_spec, notemodify_spec, change_line_spec, changes_spec, merges_spec, opt_person_spec,
    opt_from_spec, peek_starts, remaining, command_spec, events_spec, parse_spec, with_mark, defined_mark,
    write_spec, commit_spec, tag_spec, blob_spec, ls_spec, opt_mark_spec,
};
use crate::roundtrip::{
    no_byte, person_ok, commitish_ok, dataref_ok, change_ok, lemma_kw_first_byte,
    commit_ok, tag_ok, event_ok, events_ok, lemma_write_then_parse,
};

verus! {

broadcast use vstd::seq_lib::group_seq_properties;

// ---------------------------------------------------------------------------
// Bytes and their text
// ---------------------------------------------------------------------------

/// What follows a keyword on a line holds no newline.
proof fn lemma_rest_one(d: Seq<u8>, p: int, key: Seq<u8>)
    requires
        0 <= p <= d.len(),
        has_prefix(line_at(d, p), key),
    ensures
        no_byte(line_rest(d, p, key), 10),
{
    lemma_line_one(d, p);
    lemma_no_byte_sub(line_at(d, p), key.len() as int, line_at(d, p).len() as int, 10);
}

/// A line holds no newline.
proof fn lemma_line_one(d: Seq<u8>, p: int)
    requires
        0 <= p <= d.len(),
    ensures
        no_byte(line_at(d, p), 10),
{
    lemma_line_end(d, p);
    assert forall|i: int| 0 <= i < line_at(d, p).len() implies line_at(d, p)[i] != 10 by {
        assert(line_at(d, p)[i] == d[p + i]);
    }
}

proof fn lemma_no_byte_sub(b: Seq<u8>, i: int, j: int, v: u8)
    requires
        no_byte(b, v),
        0 <= i <= j <= b.len(),
    ensures
        no_byte(b.subrange(i, j), v),
{
    assert forall|k: int| 0 <= k < b.subrange(i, j).len() implies b.subrange(i, j)[k] != v by {
        assert(b.subrange(i, j)[k] == b[i + k]);
    }
}

/// The bytes of a text hold each ASCII character of the text.
proof fn lemma_encode_has(s: Seq<char>, i: int)
    requires
        0 <= i < s.len(),
        (s[i] as u32) < 128,
    ensures
        exists|k: int| 0 <= k < encode_utf8(s).len() && encode_utf8(s)[k] as u32 == s[i] as u32,
    decreases i,
{
    let c = s[0] as u32;
    char_is_scalar(s[0]);
    let e = encode_scalar(c);
    assert(encode_utf8(s) == e + encode_utf8(s.drop_first()));
    if i == 0 {
        assert(leading_byte_width_1(c) == c as u8) by (bit_vector)
            requires
                c <= 0x7f,
        ;
        assert(encode_utf8(s)[0] == e[0]);
    } else {
        assert(s.drop_first()[i - 1] == s[i]);
        lemma_encode_has(s.drop_first(), i - 1);
        let k = choose|k: int| 0 <= k < encode_utf8(s.drop_first()).len() && encode_utf8(s.drop_first())[k] as u32 == s[i] as u32;
        assert(encode_utf8(s)[e.len() + k] == encode_utf8(s.drop_first())[k]);
    }
}

/// Text read from bytes without an ASCII byte holds no character with its value.
proof fn lemma_decoded_free(b: Seq<u8>, s: Seq<char>, c: char)
    requires
        utf8(b) == Some(s),
        (c as u32) < 128,
        no_byte(b, c as u32 as u8),
    ensures
        free_of(s, c),
{
    decode_utf8_encode_utf8(b);
    assert(encode_utf8(s) == b);
    assert forall|i: int| 0 <= i < s.len() implies s[i] != c by {
        if s[i] == c {
            lemma_encode_has(s, i);
            let k = choose|k: int| 0 <= k < encode_utf8(s).len() && encode_utf8(s)[k] as u32 == s[i] as u32;
            assert(b[k] == c as u32 as u8);
        }
    }
}

proof fn lemma_free_sub(s: Seq<char>, i: int, j: int, c: char)
    requires
        free_of(s, c),
        0 <= i <= j <= s.len(),
    ensures
        free_of(s.subrange(i, j), c),
{
    assert forall|k: int| 0 <= k < s.subrange(i, j).len() implies s.subrange(i, j)[k] != c by {
        assert(s.subrange(i, j)[k] == s[i + k]);
    }
}

/// What trimming gives: a part of the text that neither begins nor ends with
/// whitespace, which trimming again leaves alone.
proof fn lemma_trim_facts(s: Seq<char>, c: char)
    ensures
        trim(trim(s)) == trim(s),
        trim(s).len() > 0 ==> !is_ws(trim(s)[0]) && !is_ws(trim(s).last()),
        free_of(s, c) ==> free_of(trim(s), c),
{
    lemma_ws_run_bounds(s, 0);
    lemma_ws_run_back_bounds(s, s.len() as int);
    lemma_trim_bounds(s);
    let a = ws_run(s, 0) as int;
    let b = s.len() - ws_run_back(s, s.len() as int);
    if a < s.len() {
        let t = s.subrange(a, b);
        assert(t[0] == s[a]);
        assert(t.last() == s[b - 1]);
        lemma_trim_unpadded(t);
        if free_of(s, c) {
            lemma_free_sub(s, a, b, c);
        }
    } else {
        assert(trim(s) =~= Seq::<char>::empty());
        assert(trim(Seq::<char>::empty()) =~= Seq::<char>::empty());
    }
}

proof fn lemma_rfind_last(s: Seq<char>, c: char, j: int, k: int)
    requires
        0 <= j <= s.len(),
        rfind_char(s, c, j) == Some(k),
    ensures
        forall|i: int| k < i < j ==> s[i] != c,
    decreases j,
{
    if j > 0 && s[j - 1] != c {
        lemma_rfind_last(s, c, j - 1, k);
    }
}

// ---------------------------------------------------------------------------
// Person stamps and references
// ---------------------------------------------------------------------------

proof fn lemma_unknown_email()
    ensures
        free_of("unknown@invalid"@, '\n'),
        free_of("unknown@invalid"@, '<'),
        valid_tz("+0000"@),
{
    reveal_strlit("unknown@invalid");
    reveal_strlit("+0000");
    let s = "+0000"@;
    assert(is_ascii_chars(s));
    is_ascii_chars_encode_utf8(s);
    let b = encode_utf8(s);
    assert(b[0] == 43);
    assert(forall|i: int| 1 <= i < 5 ==> #[trigger] b[i] == 48);
}

/// A person stamp that reading gives reads back as written.
pub proof fn lemma_person_ok(b: Seq<u8>, line: int, lenient: bool)
    requires
        no_byte(b, 10),
    ensures
        person_spec(b, line, lenient) matches Ok(p) ==> person_ok(p),
{
    reveal(person_spec);
    lemma_unknown_email();
    match utf8(b) {
        Some(text) => {
            lemma_decoded_free(b, text, '\n');
            let open = rfind_char(text, '<', text.len() as int);
            let close = rfind_char(text, '>', text.len() as int);
            if open is Some && close is Some && open->0 < close->0 {
                let o = open->0;
                let c = close->0;
                lemma_rfind_char(text, '<', text.len() as int);
                lemma_rfind_char(text, '>', text.len() as int);
                lemma_rfind_last(text, '<', text.len() as int, o);
                lemma_free_sub(text, 0, o, '\n');
                lemma_trim_facts(text.subrange(0, o), '\n');
                lemma_free_sub(text, o + 1, c, '\n');
                let email = text.subrange(o + 1, c);
                assert forall|i: int| 0 <= i < email.len() implies email[i] != '<' by {
                    assert(email[i] == text[o + 1 + i]);
                }
            }
        },
        None => {},
    }
}

/// A commit-ish reference that reading gives reads back as written; it
/// holds no space where its bytes hold none.
pub proof fn lemma_commitish_ok(b: Seq<u8>, lenient: bool, known: Set<u64>, line: int)
    requires
        no_byte(b, 10),
    ensures
        commitish_spec(b, lenient, known, line) matches Ok(t) ==> commitish_ok(t, known, lenient),
        no_byte(b, 32) ==> (commitish_spec(b, lenient, known, line) matches Ok(t) ==> free_of(t, ' ')),
{
    match utf8(b) {
        Some(s) => {
            lemma_decoded_free(b, s, '\n');
            lemma_trim_facts(s, '\n');
            if no_byte(b, 32) {
                lemma_decoded_free(b, s, ' ');
                lemma_trim_facts(s, ' ');
            }
        },
        None => {},
    }
}


// ---------------------------------------------------------------------------
// Data and file changes
// ---------------------------------------------------------------------------

proof fn lemma_delimited_len(d: Seq<u8>, p: int, l: int, delim: Seq<u8>, lenient: bool)
    requires
        0 <= p,
    ensures
        delimited_body(d, p, l, delim, lenient) matches Ok((v, x, _)) ==> v.len() <= x + 1 && (p
            < d.len() ==> p + x <= d.len()),
    decreases d.len() - p,
{
    if p < d.len() {
        lemma_line_end(d, p);
        let a = line_adv(d, p);
        lemma_delimited_len(d, p + a, l + 1, delim, lenient);
        if line_end(d, p) == d.len() {
            assert(p + a >= d.len());
        }
    }
}

/// A data block that reading gives is no longer than `usize` can count.
proof fn lemma_data_len(d: Seq<u8>, p: int, l: int, lenient: bool)
    requires
        0 <= p,
        d.len() < usize::MAX,
    ensures
        data_spec(d, p, l, lenient) matches Ok((v, _, _)) ==> v.len() <= usize::MAX,
{
    reveal(data_spec);
    if 0 <= p < d.len() {
        lemma_line_end(d, p);
        let rest = line_rest(d, p, kw("data "@));
        lemma_delimited_len(d, p + line_adv(d, p), l + 1, rest.subrange(kw("<<"@).len() as int, rest.len() as int), lenient);
    }
}

proof fn lemma_dataref_ok(b: Seq<u8>, d: Seq<u8>, p: int, l: int, lenient: bool, line: int)
    requires
        no_byte(b, 32),
        no_byte(b, 10),
        0 <= p,
        d.len() < usize::MAX,
    ensures
        dataref_spec(b, d, p, l, lenient, line) matches Ok((dr, _, _)) ==> dataref_ok(dr, lenient),
{
    lemma_data_len(d, p, l, lenient);
    match utf8(b) {
        Some(sh) => {
            lemma_decoded_free(b, sh, ' ');
            lemma_decoded_free(b, sh, '\n');
            decode_utf8_encode_utf8(b);
            assert(kw(sh) == b);
            if sh.len() > 0 && sh[0] == ':' {
                lemma_kw_first_byte(sh);
            }
        },
        None => {},
    }
}

proof fn lemma_filemodify_ok(rest: Seq<u8>, d: Seq<u8>, p: int, l: int, lenient: bool, known: Set<u64>, line: int)
    requires
        no_byte(rest, 10),
        0 <= p,
        d.len() < usize::MAX,
    ensures
        filemodify_spec(rest, d, p, l, lenient, line) matches Ok((c, _, _)) ==> change_ok(c, known, lenient),
{
    lemma_find_byte(rest, 32, 0);
    match find_byte(rest, 32, 0) {
        Some(i1) => {
            lemma_find_byte(rest, 32, i1 + 1);
            match find_byte(rest, 32, i1 + 1) {
                Some(i2) => {
                    let mb = rest.subrange(0, i1);
                    let db = rest.subrange(i1 + 1, i2);
                    assert(no_byte(mb, 32)) by {
                        assert forall|k: int| 0 <= k < mb.len() implies mb[k] != 32 by {
                            assert(mb[k] == rest[k]);
                        }
                    }
                    assert(no_byte(db, 32)) by {
                        assert forall|k: int| 0 <= k < db.len() implies db[k] != 32 by {
                            assert(db[k] == rest[i1 + 1 + k]);
                        }
                    }
                    lemma_no_byte_sub(rest, 0, i1, 10);
                    lemma_no_byte_sub(rest, i1 + 1, i2, 10);
                    match utf8(mb) {
                        Some(mode) => {
                            lemma_decoded_free(mb, mode, ' ');
                            lemma_decoded_free(mb, mode, '\n');
                        },
                        None => {},
                    }
                    lemma_dataref_ok(db, d, p, l, lenient, line);
                },
                None => {},
            }
        },
        None => {},
    }
}

proof fn lemma_notemodify_ok(rest: Seq<u8>, d: Seq<u8>, p: int, l: int, lenient: bool, known: Set<u64>, line: int)
    requires
        no_byte(rest, 10),
        0 <= p,
        d.len() < usize::MAX,
    ensures
        notemodify_spec(rest, d, p, l, lenient, known, line) matches Ok((c, _, _)) ==> change_ok(c, known, lenient),
{
    lemma_find_byte(rest, 32, 0);
    match find_byte(rest, 32, 0) {
        Some(i1) => {
            let db = rest.subrange(0, i1);
            assert(no_byte(db, 32)) by {
                assert forall|k: int| 0 <= k < db.len() implies db[k] != 32 by {
                    assert(db[k] == rest[k]);
                }
            }
            lemma_no_byte_sub(rest, 0, i1, 10);
            lemma_no_byte_sub(rest, i1 + 1, rest.len() as int, 10);
            lemma_dataref_ok(db, d, p, l, lenient, line);
            lemma_commitish_ok(rest.subrange(i1 + 1, rest.len() as int), lenient, known, line);
        },
        None => {},
    }
}

/// A file change line that reading gives reads back as written.
proof fn lemma_change_line_ok(d: Seq<u8>, p: int, l: int, lenient: bool, known: Set<u64>)
    requires
        0 <= p < d.len(),
        d.len() < usize::MAX,
    ensures
        change_line_spec(d, p, l, lenient, known) matches Some(Ok((c, _, _))) ==> change_ok(c, known, lenient),
{
    reveal(change_line_spec);
    lemma_line_end(d, p);
    let line = line_at(d, p);
    let p1 = p + line_adv(d, p);
    if has_prefix(line, kw("M "@)) {
        lemma_rest_one(d, p, kw("M "@));
        lemma_filemodify_ok(line_rest(d, p, kw("M "@)), d, p1, l + 1, lenient, known, l);
    } else if has_prefix(line, kw("D "@)) {
    } else if has_prefix(line, kw("N "@)) {
        lemma_rest_one(d, p, kw("N "@));
        lemma_notemodify_ok(line_rest(d, p, kw("N "@)), d, p1, l + 1, lenient, known, l);
    }
}

/// The file changes that reading gives read back as written.
proof fn lemma_changes_ok(d: Seq<u8>, p: int, l: int, lenient: bool, known: Set<u64>)
    requires
        0 <= p,
        d.len() < usize::MAX,
    ensures
        changes_spec(d, p, l, lenient, known) matches Ok((cs, _, _)) ==> forall|i: int| 0 <= i < cs.len() ==> change_ok(#[trigger] cs[i], known, lenient),
    decreases remaining(d, p),
{
    if p < d.len() && line_at(d, p).len() != 0 {
        lemma_line_end(d, p);
        let a = line_adv(d, p);
        lemma_change_line_ok(d, p, l, lenient, known);
        match change_line_spec(d, p, l, lenient, known) {
            Some(Ok((c, x, k))) => {
                lemma_changes_ok(d, p + a + x, l + 1 + k, lenient, known);
                match changes_spec(d, p + a + x, l + 1 + k, lenient, known) {
                    Ok((rest, _, _)) => {
                        let cs = seq![c] + rest;
                        assert forall|i: int| 0 <= i < cs.len() implies change_ok(#[trigger] cs[i], known, lenient) by {
                            if i > 0 {
                                assert(cs[i] == rest[i - 1]);
                            }
                        }
                    },
                    Err(_) => {},
                }
            },
            _ => {},
        }
    }
}

/// The merge references that reading gives read back as written.
proof fn lemma_merges_ok(d: Seq<u8>, p: int, l: int, lenient: bool, known: Set<u64>)
    ensures
        merges_spec(d, p, l, lenient, known) matches Ok((ms, _, _)) ==> forall|i: int| 0 <= i < ms.len() ==> commitish_ok(#[trigger] ms[i], known, lenient),
    decreases remaining(d, p),
{
    if peek_starts(d, p, kw("merge "@)) {
        lemma_line_end(d, p);
        let a = line_adv(d, p);
        lemma_rest_one(d, p, kw("merge "@));
        lemma_commitish_ok(line_rest(d, p, kw("merge "@)), lenient, known, l);
        lemma_merges_ok(d, p + a, l + 1, lenient, known);
        match commitish_spec(line_rest(d, p, kw("merge "@)), lenient, known, l) {
            Ok(m) => match merges_spec(d, p + a, l + 1, lenient, known) {
                Ok((rest, _, _)) => {
                    let ms = seq![m] + rest;
                    assert forall|i: int| 0 <= i < ms.len() implies commitish_ok(#[trigger] ms[i], known, lenient) by {
                        if i > 0 {
                            assert(ms[i] == rest[i - 1]);
                        }
                    }
                },
                Err(_) => {},
            },
            Err(_) => {},
        }
    }
}

proof fn lemma_opt_person_ok(d: Seq<u8>, p: int, l: int, key: Seq<u8>, lenient: bool)
    ensures
        opt_person_spec(d, p, l, key, lenient) matches Ok((x, _, _)) ==> (x matches Some(q) ==> person_ok(q)),
{
    if peek_starts(d, p, key) {
        lemma_rest_one(d, p, key);
        lemma_person_ok(line_rest(d, p, key), l, lenient);
    }
}

proof fn lemma_opt_from_ok(d: Seq<u8>, p: int, l: int, lenient: bool, known: Set<u64>)
    ensures
        opt_from_spec(d, p, l, lenient, known) matches Ok((x, _, _)) ==> (x matches Some(f) ==> commitish_ok(f, known, lenient)),
{
    if peek_starts(d, p, kw("from "@)) {
        lemma_rest_one(d, p, kw("from "@));
        lemma_commitish_ok(line_rest(d, p, kw("from "@)), lenient, known, l);
    }
}

// ---------------------------------------------------------------------------
// Events
// ---------------------------------------------------------------------------

/// What reading checks of an event: person stamps with valid offsets,
/// file changes with modes and sha1s of the format (unless lenient), and
/// mark references to marks defined before (unless lenient).
pub open spec fn event_checked(e: EventModel, known: Set<u64>, lenient: bool) -> bool {
    match e {
        EventModel::Commit(c) => {
            &&& (c.author matches Some(a) ==> person_ok(a))
            &&& person_ok(c.committer)
            &&& (c.from matches Some(f) ==> commitish_ok(f, known, lenient))
            &&& forall|i: int| 0 <= i < c.merges.len() ==> commitish_ok(#[trigger] c.merges[i], known, lenient)
            &&& forall|i: int| 0 <= i < c.file_changes.len() ==> change_ok(#[trigger] c.file_changes[i], known, lenient)
        },
        EventModel::Tag(t) => commitish_ok(t.from, known, lenient) && (t.tagger matches Some(x) ==> person_ok(x)),
        EventModel::Ls { dataref, .. } => commitish_ok(dataref, known, lenient),
        _ => true,
    }
}

/// What reading checks of each event of a sequence, with the marks defined
/// before it.
pub open spec fn events_checked(es: Seq<EventModel>, known: Set<u64>, lenient: bool) -> bool
    decreases es.len(),
{
    if es.len() == 0 {
        true
    } else {
        event_checked(es[0], known, lenient) && events_checked(
            es.drop_first(),
            with_mark(known, defined_mark(es[0])),
            lenient,
        )
    }
}

/// A commit that reading gives reads back as written, where its branch
/// name is one line.
#[verifier::rlimit(30)]
proof fn lemma_commit_ok(d: Seq<u8>, p: int, l: int, branch: Seq<u8>, lenient: bool, known: Set<u64>)
    requires
        0 <= p,
        d.len() < usize::MAX,
    ensures
        commit_spec(d, p, l, branch, lenient, known) matches Ok((c, _, _)) ==> event_checked(EventModel::Commit(c), known, lenient)
            && (free_of(c.branch, '\n') ==> commit_ok(c, known, lenient)),
{
    reveal(commit_spec);
    lemma_trim_facts(lossy_text(branch), '\n');
    match opt_mark_spec(d, p, l) {
        Ok((mark, a1, k1)) => {
            let p1 = p + a1;
            let l1 = l + k1;
            lemma_opt_person_ok(d, p1, l1, kw("author "@), lenient);
            match opt_person_spec(d, p1, l1, kw("author "@), lenient) {
                Ok((author, a2, k2)) => {
                    let p2 = p1 + a2;
                    let l2 = l1 + k2;
                    if 0 <= p2 < d.len() && has_prefix(line_at(d, p2), kw("committer "@)) {
                        lemma_rest_one(d, p2, kw("committer "@));
                        lemma_person_ok(line_rest(d, p2, kw("committer "@)), l2, lenient);
                    }
                    let p3 = p2 + line_adv(d, p2);
                    let l3 = l2 + 1;
                    lemma_data_len(d, p3, l3, lenient);
                    match data_spec(d, p3, l3, lenient) {
                        Ok((message, a4, k4)) => {
                            let p4 = p3 + a4;
                            let l4 = l3 + k4;
                            lemma_opt_from_ok(d, p4, l4, lenient, known);
                            match opt_from_spec(d, p4, l4, lenient, known) {
                                Ok((from, a5, k5)) => {
                                    let p5 = p4 + a5;
                                    let l5 = l4 + k5;
                                    lemma_merges_ok(d, p5, l5, lenient, known);
                                    match merges_spec(d, p5, l5, lenient, known) {
                                        Ok((merges, a6, k6)) => {
                                            lemma_changes_ok(d, p5 + a6, l5 + k6, lenient, known);
                                        },
                                        Err(_) => {},
                                    }
                                },
                                Err(_) => {},
                            }
                        },
                        Err(_) => {},
                    }
                },
                Err(_) => {},
            }
        },
        Err(_) => {},
    }
}

/// A tag that reading gives reads back as written, where its name is one
/// line.
#[verifier::rlimit(30)]
proof fn lemma_tag_ok(d: Seq<u8>, p: int, l: int, name: Seq<u8>, lenient: bool, known: Set<u64>)
    requires
        0 <= p,
        d.len() < usize::MAX,
    ensures
        tag_spec(d, p, l, name, lenient, known) matches Ok((t, _, _)) ==> event_checked(EventModel::Tag(t), known, lenient)
            && (free_of(t.name, '\n') ==> tag_ok(t, known, lenient)),
{
    reveal(tag_spec);
    lemma_trim_facts(lossy_text(name), '\n');
    match opt_mark_spec(d, p, l) {
        Ok((mark, a1, k1)) => {
            let p1 = p + a1;
            let l1 = l + k1;
            if 0 <= p1 < d.len() && has_prefix(line_at(d, p1), kw("from "@)) {
                lemma_rest_one(d, p1, kw("from "@));
                lemma_commitish_ok(line_rest(d, p1, kw("from "@)), lenient, known, l1);
            }
            let p2 = p1 + line_adv(d, p1);
            let l2 = l1 + 1;
            lemma_opt_person_ok(d, p2, l2, kw("tagger "@), lenient);
            match opt_person_spec(d, p2, l2, kw("tagger "@), lenient) {
                Ok((tagger, a3, k3)) => {
                    lemma_data_len(d, p2 + a3, l2 + k3, lenient);
                },
                Err(_) => {},
            }
        },
        Err(_) => {},
    }
}

proof fn lemma_blob_ok(d: Seq<u8>, p: int, l: int, lenient: bool)
    requires
        0 <= p,
        d.len() < usize::MAX,
    ensures
        blob_spec(d, p, l, lenient) matches Ok((e, _, _)) ==> e is Blob && e->Blob_data.len() <= usize::MAX,
{
    reveal(blob_spec);
    match opt_mark_spec(d, p, l) {
        Ok((mark, a1, k1)) => {
            lemma_data_len(d, p + a1, l + k1, lenient);
        },
        Err(_) => {},
    }
}

proof fn lemma_ls_ok(rest: Seq<u8>, lenient: bool, known: Set<u64>, line: int)
    requires
        no_byte(rest, 10),
    ensures
        ls_spec(rest, lenient, known, line) matches Ok(e) ==> e is Ls && commitish_ok(e->Ls_dataref, known, lenient)
            && free_of(e->Ls_dataref, ' '),
{
    lemma_find_byte(rest, 32, 0);
    match find_byte(rest, 32, 0) {
        Some(i) => {
            let db = rest.subrange(0, i);
            assert(no_byte(db, 32)) by {
                assert forall|k: int| 0 <= k < db.len() implies db[k] != 32 by {
                    assert(db[k] == rest[k]);
                }
            }
            lemma_no_byte_sub(rest, 0, i, 10);
            lemma_commitish_ok(db, lenient, known, line);
        },
        None => {},
    }
}

/// The names of an event (a branch, a tag name, a reset and its source)
/// hold no line break.
pub open spec fn names_one_line(e: EventModel) -> bool {
    match e {
        EventModel::Commit(c) => free_of(c.branch, '\n'),
        EventModel::Reset { branch, from } => free_of(branch, '\n') && (from matches Some(f) ==> free_of(
            f,
            '\n',
        )),
        EventModel::Tag(t) => free_of(t.name, '\n'),
        _ => true,
    }
}

/// One command that reading gives: its event reads back as written (where
/// its names are one line), the marks known after it are those it defines,
/// and reading stops after it exactly at `done`.
#[verifier::rlimit(40)]
proof fn lemma_command_ok(d: Seq<u8>, p: int, l: int, known: Set<u64>, lenient: bool)
    requires
        0 <= p < d.len(),
        d.len() < usize::MAX,
    ensures
        command_spec(d, p, l, known, lenient) matches Ok((ev, known2, _, _, stop)) ==> match ev {
            Some(e) => event_checked(e, known, lenient) && (names_one_line(e) ==> event_ok(e, known, lenient)) && known2 == with_mark(
                known,
                defined_mark(e),
            ) && (stop <==> e is Done),
            None => known2 == known && !stop,
        },
{
    reveal(command_spec);
    lemma_line_end(d, p);
    let line = line_at(d, p);
    let p1 = p + line_adv(d, p);
    let l1 = l + 1;
    if line.len() == 0 || line[0] == 35 {
    } else if line == kw("blob"@) {
        lemma_blob_ok(d, p1, l1, lenient);
    } else if has_prefix(line, kw("commit "@)) {
        lemma_commit_ok(d, p1, l1, line_rest(d, p, kw("commit "@)), lenient, known);
    } else if has_prefix(line, kw("reset "@)) {
        lemma_trim_facts(lossy_text(line_rest(d, p, kw("reset "@))), '\n');
        if peek_starts(d, p1, kw("from "@)) {
            lemma_trim_facts(lossy_text(line_rest(d, p1, kw("from "@))), '\n');
        }
    } else if has_prefix(line, kw("tag "@)) {
        lemma_tag_ok(d, p1, l1, line_rest(d, p, kw("tag "@)), lenient, known);
    } else if has_prefix(line, kw("ls "@)) {
        lemma_rest_one(d, p, kw("ls "@));
        lemma_ls_ok(line_rest(d, p, kw("ls "@)), lenient, known, l);
    }
}

/// The events that reading gives from `p` on read back as written, where
/// their names are one line.
proof fn lemma_events_ok(d: Seq<u8>, p: int, l: int, known: Set<u64>, lenient: bool)
    requires
        0 <= p,
        d.len() < usize::MAX,
    ensures
        events_spec(d, p, l, known, lenient) matches Ok(es) ==> events_checked(es, known, lenient) && ((forall|i: int| 0 <= i < es.len() ==> names_one_line(#[trigger] es[i]))
            ==> events_ok(es, known, lenient)),
    decreases remaining(d, p),
{
    if p < d.len() {
        lemma_line_end(d, p);
        let a = line_adv(d, p);
        lemma_command_ok(d, p, l, known, lenient);
        match command_spec(d, p, l, known, lenient) {
            Ok((ev, known2, x, k, stop)) => {
                if stop {
                    let e = ev->0;
                    let es = seq![e];
                    assert(es.drop_first() =~= Seq::<EventModel>::empty());
                    assert(es[0] == e);
                    assert(events_ok(Seq::<EventModel>::empty(), with_mark(known, defined_mark(e)), lenient));
                    assert(events_checked(Seq::<EventModel>::empty(), with_mark(known, defined_mark(e)), lenient));
                    if events_spec(d, p, l, known, lenient) == Ok::<Seq<EventModel>, PErr>(es) {
                        if forall|i: int| 0 <= i < es.len() ==> names_one_line(#[trigger] es[i]) {
                            assert(names_one_line(es[0]));
                        }
                    }
                } else {
                    lemma_events_ok(d, p + a + x, l + 1 + k, known2, lenient);
                    match events_spec(d, p + a + x, l + 1 + k, known2, lenient) {
                        Ok(rest) => match ev {
                            Some(e) => {
                                let es = seq![e] + rest;
                                assert(es[0] == e);
                                assert(es.drop_first() =~= rest);
                                if forall|i: int| 0 <= i < es.len() ==> names_one_line(#[trigger] es[i]) {
                                    assert(names_one_line(es[0]));
                                    assert forall|i: int| 0 <= i < rest.len() implies names_one_line(#[trigger] rest[i]) by {
                                        assert(rest[i] == es[i + 1]);
                                    }
                                }
                            },
                            None => {
                                assert(Seq::<EventModel>::empty() + rest =~= rest);
                            },
                        },
                        Err(_) => {},
                    }
                }
            },
            Err(_) => {},
        }
    }
}

/// Reading, writing and reading again gives what the first reading gave:
/// the events that reading a stream gives are written as a stream that
/// reads back as exactly those events. Reading turns bytes that are not
/// UTF-8 into text by a lossy decoding that is named here but not defined,
/// so the law asks that the names read (branches, tag names, reset
/// sources) hold no line break; the length limit is the reader's own.
pub proof fn lemma_parse_write_parse(d: Seq<u8>, lenient: bool, es: Seq<EventModel>)
    requires
        d.len() < usize::MAX,
        parse_spec(d, lenient) == Ok::<Seq<EventModel>, PErr>(es),
        forall|i: int| 0 <= i < es.len() ==> names_one_line(#[trigger] es[i]),
    ensures
        parse_spec(write_spec(es), lenient) == Ok::<Seq<EventModel>, PErr>(es),
{
    lemma_events_ok(d, 0, 1, Set::empty(), lenient);
    lemma_write_then_parse(es, lenient);
}

/// Reading checks what the format asks: every event that strict reading
/// gives has person stamps with valid offsets, file changes with modes git
/// uses and forty-hex sha1s, and mark references only to marks defined
/// before it. Lenient reading leaves modes, sha1s and mark references
/// unchecked and still gives whole stamps (its fallbacks are valid). The
/// length limit is the reader's own.
pub proof fn lemma_reading_checks(d: Seq<u8>, lenient: bool, es: Seq<EventModel>)
    requires
        d.len() < usize::MAX,
        parse_spec(d, lenient) == Ok::<Seq<EventModel>, PErr>(es),
    ensures
        events_checked(es, Set::empty(), lenient),
{
    lemma_events_ok(d, 0, 1, Set::empty(), lenient);
}

} // verus!
