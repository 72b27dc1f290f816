//! Lenient reading only relaxes: every stream that strict reading accepts,
//! lenient reading accepts too, and reads the same way.
use vstd::prelude::*;
use crate::fields::{
    unescape, c_string_spec, path_spec, quote_scan, leading_path_spec, two_paths_spec,
    person_parts, person_spec, commitish_spec,
};
use crate::model::{person_from_json, opt_person_field, commit_from_json, tag_from_json, event_from_json};
use crate::json::{Json, get_spec};
use crate::cli::{jsonl_line, jsonl_events, next_line, text_line_end, lemma_text_line_end, to_fastexport_spec, to_jsonl_spec};
use crate::text::trim;
use crate::fastexport::{
    delimited_body, data_spec, dataref_spec, filemodify_spec, notemodify_spec, change_line_spec,
    changes_spec, merges_spec, opt_person_spec, opt_from_spec, commit_spec, tag_spec, blob_spec,
    ls_spec, command_spec, events_spec, parse_spec, line_adv, lemma_line_end, remaining,
    line_rest, kw,
};

verus! {

// ---------------------------------------------------------------------------
// Fields of a line
// ---------------------------------------------------------------------------

proof fn lemma_unescape(b: Seq<u8>, i: int)
    ensures
        unescape(b, i, false) is Ok ==> unescape(b, i, true) == unescape(b, i, false),
    decreases b.len() - i,
{
    if 0 <= i < b.len() {
        if b[i] == 92 && i + 1 < b.len() {
            lemma_unescape(b, i + 2);
            if i + 3 < b.len() {
                lemma_unescape(b, i + 4);
            }
        } else {
            lemma_unescape(b, i + 1);
        }
    }
}

proof fn lemma_path(b: Seq<u8>, line: int)
    ensures
        path_spec(b, false, line) is Ok ==> path_spec(b, true, line) == path_spec(b, false, line),
{
    if b.len() >= 2 {
        lemma_unescape(b.subrange(1, b.len() - 1), 0);
    }
}

proof fn lemma_quote_scan(b: Seq<u8>, i: int, line: int)
    ensures
        quote_scan(b, i, false, line) is Ok ==> quote_scan(b, i, true, line) == quote_scan(b, i, false, line),
    decreases b.len() - i,
{
    if 0 <= i < b.len() {
        if b[i] == 92 && i + 1 < b.len() {
            lemma_quote_scan(b, i + 2, line);
        } else if b[i] != 34 {
            lemma_quote_scan(b, i + 1, line);
        }
    }
}

proof fn lemma_two_paths(b: Seq<u8>, line: int)
    ensures
        two_paths_spec(b, false, line) is Ok ==> two_paths_spec(b, true, line) == two_paths_spec(b, false, line),
{
    lemma_quote_scan(b, 1, line);
    match leading_path_spec(b, false, line) {
        Ok((first, rest)) => {
            lemma_path(first, line);
            lemma_path(rest, line);
        },
        Err(_) => {},
    }
}

proof fn lemma_person(b: Seq<u8>, line: int)
    ensures
        person_spec(b, line, false) is Ok ==> person_spec(b, line, true) == person_spec(b, line, false),
{
    reveal(person_spec);
}

proof fn lemma_opt_person(d: Seq<u8>, p: int, l: int, key: Seq<u8>)
    ensures
        opt_person_spec(d, p, l, key, false) is Ok ==> opt_person_spec(d, p, l, key, true)
            == opt_person_spec(d, p, l, key, false),
{
    lemma_person(line_rest(d, p, key), l);
}

proof fn lemma_commitish(b: Seq<u8>, known: Set<u64>, line: int)
    ensures
        commitish_spec(b, false, known, line) is Ok ==> commitish_spec(b, true, known, line)
            == commitish_spec(b, false, known, line),
{
}

// ---------------------------------------------------------------------------
// Data and file changes
// ---------------------------------------------------------------------------

proof fn lemma_delimited(d: Seq<u8>, p: int, l: int, delim: Seq<u8>)
    ensures
        delimited_body(d, p, l, delim, false) is Ok ==> delimited_body(d, p, l, delim, true)
            == delimited_body(d, p, l, delim, false),
    decreases d.len() - p,
{
    if 0 <= p < d.len() {
        lemma_line_end(d, p);
        lemma_delimited(d, p + line_adv(d, p), l + 1, delim);
    }
}

proof fn lemma_data(d: Seq<u8>, p: int, l: int)
    ensures
        data_spec(d, p, l, false) is Ok ==> data_spec(d, p, l, true) == data_spec(d, p, l, false),
{
    reveal(data_spec);
    if 0 <= p < d.len() {
        lemma_line_end(d, p);
        let rest = line_rest(d, p, kw("data "@));
        lemma_delimited(d, p + line_adv(d, p), l + 1, rest.subrange(kw("<<"@).len() as int, rest.len() as int));
    }
}

proof fn lemma_dataref(b: Seq<u8>, d: Seq<u8>, p: int, l: int, line: int)
    ensures
        dataref_spec(b, d, p, l, false, line) is Ok ==> dataref_spec(b, d, p, l, true, line)
            == dataref_spec(b, d, p, l, false, line),
{
    lemma_data(d, p, l);
}

proof fn lemma_filemodify(rest: Seq<u8>, d: Seq<u8>, p: int, l: int, line: int)
    ensures
        filemodify_spec(rest, d, p, l, false, line) is Ok ==> filemodify_spec(rest, d, p, l, true, line)
            == filemodify_spec(rest, d, p, l, false, line),
{
    match crate::fields::find_byte(rest, 32, 0) {
        Some(i1) => match crate::fields::find_byte(rest, 32, i1 + 1) {
            Some(i2) => {
                lemma_path(rest.subrange(i2 + 1, rest.len() as int), line);
                lemma_dataref(rest.subrange(i1 + 1, i2), d, p, l, line);
            },
            None => {},
        },
        None => {},
    }
}

proof fn lemma_notemodify(rest: Seq<u8>, d: Seq<u8>, p: int, l: int, known: Set<u64>, line: int)
    ensures
        notemodify_spec(rest, d, p, l, false, known, line) is Ok ==> notemodify_spec(rest, d, p, l, true, known, line)
            == notemodify_spec(rest, d, p, l, false, known, line),
{
    match crate::fields::find_byte(rest, 32, 0) {
        Some(i1) => {
            lemma_dataref(rest.subrange(0, i1), d, p, l, line);
            lemma_commitish(rest.subrange(i1 + 1, rest.len() as int), known, line);
        },
        None => {},
    }
}

proof fn lemma_change_line(d: Seq<u8>, p: int, l: int, known: Set<u64>)
    ensures
        change_line_spec(d, p, l, false, known) matches Some(Ok(_)) ==> change_line_spec(d, p, l, true, known)
            == change_line_spec(d, p, l, false, known),
        change_line_spec(d, p, l, false, known) is None ==> change_line_spec(d, p, l, true, known) is None,
{
    reveal(change_line_spec);
    let p1 = p + line_adv(d, p);
    lemma_filemodify(line_rest(d, p, kw("M "@)), d, p1, l + 1, l);
    lemma_path(line_rest(d, p, kw("D "@)), l);
    lemma_notemodify(line_rest(d, p, kw("N "@)), d, p1, l + 1, known, l);
    lemma_two_paths(line_rest(d, p, kw("C "@)), l);
    lemma_two_paths(line_rest(d, p, kw("R "@)), l);
    lemma_path(line_rest(d, p, kw("ls "@)), l);
}

proof fn lemma_changes(d: Seq<u8>, p: int, l: int, known: Set<u64>)
    ensures
        changes_spec(d, p, l, false, known) is Ok ==> changes_spec(d, p, l, true, known)
            == changes_spec(d, p, l, false, known),
    decreases remaining(d, p),
{
    if 0 <= p < d.len() {
        lemma_line_end(d, p);
        lemma_change_line(d, p, l, known);
        match change_line_spec(d, p, l, false, known) {
            Some(Ok((c, x, k))) => {
                lemma_changes(d, p + line_adv(d, p) + x, l + 1 + k, known);
            },
            _ => {},
        }
    }
}

// ---------------------------------------------------------------------------
// Commands
// ---------------------------------------------------------------------------

proof fn lemma_merges(d: Seq<u8>, p: int, l: int, known: Set<u64>)
    ensures
        merges_spec(d, p, l, false, known) is Ok ==> merges_spec(d, p, l, true, known)
            == merges_spec(d, p, l, false, known),
    decreases remaining(d, p),
{
    if 0 <= p < d.len() {
        lemma_line_end(d, p);
        lemma_merges(d, p + line_adv(d, p), l + 1, known);
    }
}

proof fn lemma_commit(d: Seq<u8>, p: int, l: int, branch: Seq<u8>, known: Set<u64>)
    ensures
        commit_spec(d, p, l, branch, false, known) is Ok ==> commit_spec(d, p, l, branch, true, known)
            == commit_spec(d, p, l, branch, false, known),
{
    reveal(commit_spec);
    match crate::fastexport::opt_mark_spec(d, p, l) {
        Ok((mark, a1, k1)) => {
            let p1 = p + a1;
            let l1 = l + k1;
            lemma_opt_person(d, p1, l1, kw("author "@));
            match opt_person_spec(d, p1, l1, kw("author "@), false) {
                Ok((author, a2, k2)) => {
                    let p2 = p1 + a2;
                    let l2 = l1 + k2;
                    match crate::fastexport::required_line(d, p2, l2, kw("committer "@), "committer"@) {
                        Ok(crest) => lemma_person(crest, l2),
                        Err(_) => {},
                    }
                    let p3 = p2 + line_adv(d, p2);
                    let l3 = l2 + 1;
                    lemma_data(d, p3, l3);
                    match data_spec(d, p3, l3, false) {
                        Ok((message, a4, k4)) => {
                            let p4 = p3 + a4;
                            let l4 = l3 + k4;
                            match opt_from_spec(d, p4, l4, false, known) {
                                Ok((from, a5, k5)) => {
                                    let p5 = p4 + a5;
                                    let l5 = l4 + k5;
                                    lemma_merges(d, p5, l5, known);
                                    match merges_spec(d, p5, l5, false, known) {
                                        Ok((merges, a6, k6)) => {
                                            lemma_changes(d, p5 + a6, l5 + k6, known);
                                        },
                                        Err(_) => {},
                                    }
                                },
                                Err(_) => {},
                            }
                        },
                        Err(_) => {},
                    }
                },
                Err(_) => {},
            }
        },
        Err(_) => {},
    }
}

proof fn lemma_tag(d: Seq<u8>, p: int, l: int, name: Seq<u8>, known: Set<u64>)
    ensures
        tag_spec(d, p, l, name, false, known) is Ok ==> tag_spec(d, p, l, name, true, known)
            == tag_spec(d, p, l, name, false, known),
{
    reveal(tag_spec);
    match crate::fastexport::opt_mark_spec(d, p, l) {
        Ok((mark, a1, k1)) => {
            let p1 = p + a1;
            let l1 = l + k1;
            let p2 = p1 + line_adv(d, p1);
            let l2 = l1 + 1;
            lemma_opt_person(d, p2, l2, kw("tagger "@));
            match opt_person_spec(d, p2, l2, kw("tagger "@), false) {
                Ok((tagger, a3, k3)) => {
                    lemma_data(d, p2 + a3, l2 + k3);
                },
                Err(_) => {},
            }
        },
        Err(_) => {},
    }
}

proof fn lemma_command(d: Seq<u8>, p: int, l: int, known: Set<u64>)
    ensures
        command_spec(d, p, l, known, false) is Ok ==> command_spec(d, p, l, known, true)
            == command_spec(d, p, l, known, false),
{
    reveal(blob_spec);
    reveal(command_spec);
    let p1 = p + line_adv(d, p);
    let l1 = l + 1;
    lemma_data(d, p1 + match crate::fastexport::opt_mark_spec(d, p1, l1) {
        Ok((_, a1, _)) => a1 as int,
        Err(_) => 0,
    }, l1 + match crate::fastexport::opt_mark_spec(d, p1, l1) {
        Ok((_, _, k1)) => k1 as int,
        Err(_) => 0,
    });
    lemma_commit(d, p1, l1, line_rest(d, p, kw("commit "@)), known);
    lemma_tag(d, p1, l1, line_rest(d, p, kw("tag "@)), known);
    let rest = line_rest(d, p, kw("ls "@));
    match crate::fields::find_byte(rest, 32, 0) {
        Some(i) => {
            lemma_commitish(rest.subrange(0, i), known, l);
            lemma_path(rest.subrange(i + 1, rest.len() as int), l);
        },
        None => {},
    }
}

proof fn lemma_events(d: Seq<u8>, p: int, l: int, known: Set<u64>)
    ensures
        events_spec(d, p, l, known, false) is Ok ==> events_spec(d, p, l, known, true)
            == events_spec(d, p, l, known, false),
    decreases remaining(d, p),
{
    if 0 <= p < d.len() {
        lemma_line_end(d, p);
        lemma_command(d, p, l, known);
        match command_spec(d, p, l, known, false) {
            Ok((ev, known2, x, k, stop)) => {
                if !stop {
                    lemma_events(d, p + line_adv(d, p) + x, l + 1 + k, known2);
                }
            },
            Err(_) => {},
        }
    }
}

// ---------------------------------------------------------------------------
// JSON Lines
// ---------------------------------------------------------------------------

proof fn lemma_person_json(j: Json)
    ensures
        person_from_json(j, false) is Ok ==> person_from_json(j, true) == person_from_json(j, false),
{
}

proof fn lemma_opt_person_json(j: Json, key: Seq<char>)
    ensures
        opt_person_field(j, key, false) is Ok ==> opt_person_field(j, key, true) == opt_person_field(j, key, false),
{
    match get_spec(j, key) {
        Some(v) => lemma_person_json(v),
        None => {},
    }
}

/// An event's JSON object that strict reading accepts is read the same way
/// by lenient reading.
pub proof fn lemma_event_json_lenient(j: Json)
    ensures
        event_from_json(j, false) is Ok ==> event_from_json(j, true) == event_from_json(j, false),
{
    lemma_opt_person_json(j, "author"@);
    lemma_opt_person_json(j, "tagger"@);
    match get_spec(j, "committer"@) {
        Some(v) => lemma_person_json(v),
        None => {},
    }
}

proof fn lemma_jsonl_line(t: Seq<char>, n: int)
    ensures
        jsonl_line(t, n, false) is Ok ==> jsonl_line(t, n, true) == jsonl_line(t, n, false),
{
    reveal(jsonl_line);
    match crate::json::parse_spec(t) {
        Ok(v) => lemma_event_json_lenient(v),
        Err(_) => {},
    }
}

proof fn lemma_jsonl_events(s: Seq<char>, p: int, n: nat)
    ensures
        jsonl_events(s, p, n, false) is Ok ==> jsonl_events(s, p, n, true) == jsonl_events(s, p, n, false),
    decreases s.len() - p,
{
    if 0 <= p < s.len() {
        lemma_text_line_end(s, p);
        lemma_jsonl_line(trim(s.subrange(p, text_line_end(s, p))), n as int);
        lemma_jsonl_events(s, next_line(s, p), n + 1);
    }
}

/// Converting JSON Lines back: what strict reading accepts, lenient reading
/// converts the same way.
pub proof fn lemma_to_fastexport_lenient(input: Seq<u8>, redact: Option<(Option<Seq<char>>, Seq<char>)>)
    requires
        to_fastexport_spec(input, false, redact) is Ok,
    ensures
        to_fastexport_spec(input, true, redact) == to_fastexport_spec(input, false, redact),
{
    match crate::fields::utf8(input) {
        Some(text) => lemma_jsonl_events(text, 0, 1),
        None => {},
    }
}

/// Converting a stream to JSON Lines: what strict reading accepts, lenient
/// reading converts the same way.
pub proof fn lemma_to_jsonl_lenient(input: Seq<u8>, redact: Option<(Option<Seq<char>>, Seq<char>)>)
    requires
        to_jsonl_spec(input, false, redact) is Ok,
    ensures
        to_jsonl_spec(input, true, redact) == to_jsonl_spec(input, false, redact),
{
    lemma_events(input, 0, 1, Set::empty());
}

/// Lenient reading only relaxes: a stream that strict reading accepts is
/// read the same way by lenient reading.
pub proof fn lemma_lenient_extends_strict(d: Seq<u8>)
    requires
        parse_spec(d, false) is Ok,
    ensures
        parse_spec(d, true) == parse_spec(d, false),
{
    lemma_events(d, 0, 1, Set::empty());
}

} // verus!
