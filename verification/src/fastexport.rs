//! Reader and writer for the text stream that `git fast-export` produces and
//! `git fast-import` consumes: blob, commit, reset, tag, ls, checkpoint and
//! done, with filemodify, filedelete, filecopy, filerename, deleteall,
//! notemodify and ls inside commits. Both forms of `data` are read (exact
//! byte count and delimited `<<DELIM`); output always uses the byte count.
//!
//! The reader is specified on the whole input and a position (`p`, the byte
//! index, and `l`, the line number): each step gives what it read and how
//! many bytes and lines it took, or the error with its line.
use vstd::prelude::*;
use vstd::utf8::*;
use std::collections::HashSet;
use crate::text::{
    has_prefix, trim, decimal, decimal_int, digit_char, char_from_digit, push_char, push_decimal,
    push_decimal_i64, push_str_bytes, lossy_text, parse_unsigned, owned, push_str, push_bytes, bytes_eq,
    range_starts_with, utf8_lossy, utf8_str, chars_of, trim_bounds, parse_unsigned_chars,
    string_from_range, trim_string,
};
pub use crate::fields::ParseError;
use crate::fields::{
    PErr, perr, parse_error, parse_error_with, utf8, find_byte, lemma_find_byte,
    find_byte_exec, mark_id_spec, commitish_spec, person_spec, path_spec, two_paths_spec,
    valid_mode, valid_sha1, parse_mark_id, resolve_commitish, parse_person, is_valid_mode,
    is_valid_sha1, unquote_path, parse_two_paths,
};
use crate::model::{
    stamps_valid, valid_tz, PersonModel, DataRefModel, FileChangeModel, CommitModel, TagModel, EventModel, DataRef,
    FileChange, FileModify, NoteModify, PersonStamp, Commit, Tag, Blob, Reset, Event, changes_view,
    strings_view, events_view, opt_person_view, opt_str_view,
};

verus! {

broadcast use vstd::seq_lib::group_seq_properties, vstd::std_specs::hash::group_hash_axioms;

/// The UTF-8 bytes of a text.
pub open spec fn kw(s: Seq<char>) -> Seq<u8> {
    encode_utf8(s)
}

/// Reading options: `lenient` relaxes every check that has a defined fallback.
pub struct ParseOptions {
    pub lenient: bool,
}

// ---------------------------------------------------------------------------
// Lines
// ---------------------------------------------------------------------------

/// The index of the newline that ends the line starting at `p`, or the end of
/// the input.
pub open spec fn line_end(d: Seq<u8>, p: int) -> int
    decreases d.len() - p,
{
    if p < 0 || p >= d.len() || d[p] == 10 {
        p
    } else {
        line_end(d, p + 1)
    }
}

/// The line starting at `p`, without its newline.
pub open spec fn line_at(d: Seq<u8>, p: int) -> Seq<u8> {
    d.subrange(p, line_end(d, p))
}

/// How many bytes reading the line at `p` takes (its newline included).
pub open spec fn line_adv(d: Seq<u8>, p: int) -> nat {
    let e = line_end(d, p);
    (if e < d.len() {
        e + 1 - p
    } else {
        e - p
    }) as nat
}

pub proof fn lemma_line_end(d: Seq<u8>, p: int)
    requires
        0 <= p <= d.len(),
    ensures
        p <= line_end(d, p) <= d.len(),
        line_end(d, p) < d.len() ==> d[line_end(d, p)] == 10,
        forall|k: int| p <= k < line_end(d, p) ==> d[k] != 10,
        p < d.len() ==> line_adv(d, p) >= 1,
        p + line_adv(d, p) <= d.len(),
    decreases d.len() - p,
{
    if p < d.len() && d[p] != 10 {
        lemma_line_end(d, p + 1);
    }
}

/// Whether the line at `p` exists and begins with `prefix`.
pub open spec fn peek_starts(d: Seq<u8>, p: int, prefix: Seq<u8>) -> bool {
    0 <= p < d.len() && has_prefix(line_at(d, p), prefix)
}

/// What follows `prefix` in the line at `p`.
pub open spec fn line_rest(d: Seq<u8>, p: int, prefix: Seq<u8>) -> Seq<u8> {
    let line = line_at(d, p);
    line.subrange(prefix.len() as int, line.len() as int)
}

/// The number of bytes left from `p` on.
pub open spec fn remaining(d: Seq<u8>, p: int) -> nat {
    if p < d.len() {
        (d.len() - p) as nat
    } else {
        0
    }
}

/// A step of the reader: the value, then the bytes and lines it took.
pub type Step<T> = Result<(T, nat, nat), PErr>;

// ---------------------------------------------------------------------------
// Data
// ---------------------------------------------------------------------------

pub open spec fn unterminated_message(delim: Seq<u8>) -> Seq<char> {
    "unterminated delimited data block, expected a line matching '"@ + lossy_text(delim) + "'"@
}

/// The lines of a delimited data block from `p` on, up to the line that
/// equals `delim` (which is read but not kept).
pub open spec fn delimited_body(d: Seq<u8>, p: int, l: int, delim: Seq<u8>, lenient: bool) -> Step<
    Seq<u8>,
>
    decreases d.len() - p,
{
    if p < 0 || p >= d.len() {
        if lenient {
            Ok((Seq::empty(), 0, 0))
        } else {
            Err(perr(l, unterminated_message(delim)))
        }
    } else {
        let line = line_at(d, p);
        let a = line_adv(d, p);
        proof {
            lemma_line_end(d, p);
        }
        if line == delim {
            Ok((Seq::empty(), a, 1))
        } else {
            match delimited_body(d, p + a, l + 1, delim, lenient) {
                Ok((rest, b, k)) => Ok((line.push(10) + rest, a + b, 1 + k)),
                Err(e) => Err(e),
            }
        }
    }
}

/// A `data` command at `p` and its payload.
#[verifier::opaque]
pub open spec fn data_spec(d: Seq<u8>, p: int, l: int, lenient: bool) -> Step<Seq<u8>> {
    if p < 0 || p >= d.len() {
        Err(perr(l, "expected data command, found end of input"@))
    } else {
        let line = line_at(d, p);
        let a = line_adv(d, p);
        let p1 = p + a;
        let l1 = l + 1;
        if !has_prefix(line, kw("data "@)) {
            Err(perr(l, "expected data command, found: "@ + lossy_text(line)))
        } else {
            let rest = line_rest(d, p, kw("data "@));
            if has_prefix(rest, kw("<<"@)) {
                let delim = rest.subrange(kw("<<"@).len() as int, rest.len() as int);
                if delim.len() == 0 {
                    Err(perr(l, "empty delimiter in data <<DELIM"@))
                } else {
                    match delimited_body(d, p1, l1, delim, lenient) {
                        Ok((v, b, k)) => Ok((v, a + b, 1 + k)),
                        Err(e) => Err(e),
                    }
                }
            } else {
                match utf8(rest) {
                    None => Err(perr(l, "data length is not valid UTF-8"@)),
                    Some(s) => {
                        let cs = trim(s);
                        match parse_unsigned(cs, usize::MAX as nat) {
                            None => Err(perr(l, "invalid data length: "@ + cs)),
                            Some(count) => if p1 + count > d.len() {
                                Err(
                                    perr(
                                        l1,
                                        "unexpected end of input while reading a data payload"@,
                                    ),
                                )
                            } else {
                                let p2 = p1 + count;
                                let had_lf = p2 < d.len() && d[p2] == 10;
                                if !had_lf && p2 < d.len() && !lenient {
                                    Err(
                                        perr(
                                            l,
                                            "data payload must be followed by a newline separator"@,
                                        ),
                                    )
                                } else {
                                    Ok(
                                        (
                                            d.subrange(p1, p2),
                                            (a + count + if had_lf {
                                                1nat
                                            } else {
                                                0nat
                                            }) as nat,
                                            (1 + if had_lf {
                                                1nat
                                            } else {
                                                0nat
                                            }) as nat,
                                        ),
                                    )
                                }
                            },
                        }
                    },
                }
            }
        }
    }
}

// ---------------------------------------------------------------------------
// File changes
// ---------------------------------------------------------------------------

/// The dataref of a filemodify or notemodify (`inline` reads a data block).
pub open spec fn dataref_spec(b: Seq<u8>, d: Seq<u8>, p: int, l: int, lenient: bool, line: int) -> Step<
    DataRefModel,
> {
    if b == kw("inline"@) {
        match data_spec(d, p, l, lenient) {
            Ok((v, x, k)) => Ok((DataRefModel::Inline(v), x, k)),
            Err(e) => Err(e),
        }
    } else if b.len() > 0 && b[0] == 58 {
        match mark_id_spec(b.drop_first(), line) {
            Ok(id) => Ok((DataRefModel::Mark(id), 0, 0)),
            Err(e) => Err(e),
        }
    } else {
        match utf8(b) {
            None => Err(perr(line, "sha1 dataref is not valid UTF-8"@)),
            Some(sha) => if !lenient && !valid_sha1(sha) {
                Err(perr(line, "invalid sha1: "@ + sha))
            } else {
                Ok((DataRefModel::Sha1(sha), 0, 0))
            },
        }
    }
}

/// `M <mode> <dataref> <path>`, after the `M `.
pub open spec fn filemodify_spec(rest: Seq<u8>, d: Seq<u8>, p: int, l: int, lenient: bool, line: int) -> Step<
    FileChangeModel,
> {
    match find_byte(rest, 32, 0) {
        None => Err(perr(line, "filemodify missing dataref"@)),
        Some(i1) => match find_byte(rest, 32, i1 + 1) {
            None => Err(perr(line, "filemodify missing path"@)),
            Some(i2) => {
                let mode_bytes = rest.subrange(0, i1);
                let dataref_bytes = rest.subrange(i1 + 1, i2);
                let path_bytes = rest.subrange(i2 + 1, rest.len() as int);
                match utf8(mode_bytes) {
                    None => Err(perr(line, "filemodify mode is not valid UTF-8"@)),
                    Some(mode) => if !lenient && !valid_mode(mode) {
                        Err(perr(line, "invalid file mode: "@ + mode))
                    } else {
                        match path_spec(path_bytes, lenient, line) {
                            Err(e) => Err(e),
                            Ok(path) => match dataref_spec(dataref_bytes, d, p, l, lenient, line) {
                                Err(e) => Err(e),
                                Ok((dataref, x, k)) => Ok(
                                    (FileChangeModel::Modify { mode, dataref, path }, x, k),
                                ),
                            },
                        }
                    },
                }
            },
        },
    }
}

/// `N <dataref> <commit-ish>`, after the `N `.
pub open spec fn notemodify_spec(rest: Seq<u8>, d: Seq<u8>, p: int, l: int, lenient: bool, known: Set<u64>, line: int) -> Step<
    FileChangeModel,
> {
    match find_byte(rest, 32, 0) {
        None => Err(perr(line, "notemodify missing commit-ish"@)),
        Some(i1) => match dataref_spec(rest.subrange(0, i1), d, p, l, lenient, line) {
            Err(e) => Err(e),
            Ok((dataref, x, k)) => match commitish_spec(
                rest.subrange(i1 + 1, rest.len() as int),
                lenient,
                known,
                line,
            ) {
                Err(e) => Err(e),
                Ok(commitish) => Ok((FileChangeModel::Note { dataref, commitish }, x, k)),
            },
        },
    }
}

/// One file change line (the line at `p`) and any data block after it: the
/// change and the bytes and lines taken after the line itself. `None` when
/// the line is no file change.
#[verifier::opaque]
pub open spec fn change_line_spec(d: Seq<u8>, p: int, l: int, lenient: bool, known: Set<u64>) -> Option<
    Step<FileChangeModel>,
> {
    let line = line_at(d, p);
    let p1 = p + line_adv(d, p);
    let l1 = l + 1;
    if has_prefix(line, kw("M "@)) {
        Some(filemodify_spec(line_rest(d, p, kw("M "@)), d, p1, l1, lenient, l))
    } else if has_prefix(line, kw("D "@)) {
        Some(
            match path_spec(line_rest(d, p, kw("D "@)), lenient, l) {
                Ok(path) => Ok((FileChangeModel::Delete { path }, 0, 0)),
                Err(e) => Err(e),
            },
        )
    } else if has_prefix(line, kw("N "@)) {
        Some(notemodify_spec(line_rest(d, p, kw("N "@)), d, p1, l1, lenient, known, l))
    } else if has_prefix(line, kw("C "@)) {
        Some(
            match two_paths_spec(line_rest(d, p, kw("C "@)), lenient, l) {
                Ok((src, dst)) => Ok((FileChangeModel::Copy { src, dst }, 0, 0)),
                Err(e) => Err(e),
            },
        )
    } else if has_prefix(line, kw("R "@)) {
        Some(
            match two_paths_spec(line_rest(d, p, kw("R "@)), lenient, l) {
                Ok((src, dst)) => Ok((FileChangeModel::Rename { src, dst }, 0, 0)),
                Err(e) => Err(e),
            },
        )
    } else if line == kw("deleteall"@) {
        Some(Ok((FileChangeModel::DeleteAll, 0, 0)))
    } else if has_prefix(line, kw("ls "@)) {
        Some(
            match path_spec(line_rest(d, p, kw("ls "@)), lenient, l) {
                Ok(path) => Ok((FileChangeModel::Ls { path }, 0, 0)),
                Err(e) => Err(e),
            },
        )
    } else {
        None
    }
}

/// The file changes of a commit from `p` on: up to an empty line (which is
/// read), the end of the input, or a line that is no file change (not read).
pub open spec fn changes_spec(d: Seq<u8>, p: int, l: int, lenient: bool, known: Set<u64>) -> Step<
    Seq<FileChangeModel>,
>
    decreases remaining(d, p),
{
    if p < 0 || p >= d.len() {
        Ok((Seq::empty(), 0, 0))
    } else if line_at(d, p).len() == 0 {
        Ok((Seq::empty(), line_adv(d, p), 1))
    } else {
        let a = line_adv(d, p);
        proof {
            lemma_line_end(d, p);
        }
        match change_line_spec(d, p, l, lenient, known) {
            None => Ok((Seq::empty(), 0, 0)),
            Some(Err(e)) => Err(e),
            Some(Ok((c, x, k))) => match changes_spec(d, p + a + x, l + 1 + k, lenient, known) {
                Ok((rest, y, j)) => Ok((seq![c] + rest, a + x + y, 1 + k + j)),
                Err(e) => Err(e),
            },
        }
    }
}

// ---------------------------------------------------------------------------
// Commands
// ---------------------------------------------------------------------------

/// The `merge` lines from `p` on.
pub open spec fn merges_spec(d: Seq<u8>, p: int, l: int, lenient: bool, known: Set<u64>) -> Step<
    Seq<Seq<char>>,
>
    decreases remaining(d, p),
{
    if peek_starts(d, p, kw("merge "@)) {
        let a = line_adv(d, p);
        proof {
            lemma_line_end(d, p);
        }
        match commitish_spec(line_rest(d, p, kw("merge "@)), lenient, known, l) {
            Err(e) => Err(e),
            Ok(m) => match merges_spec(d, p + a, l + 1, lenient, known) {
                Ok((rest, y, j)) => Ok((seq![m] + rest, a + y, 1 + j)),
                Err(e) => Err(e),
            },
        }
    } else {
        Ok((Seq::empty(), 0, 0))
    }
}

/// An optional `mark :<n>` line at `p`.
pub open spec fn opt_mark_spec(d: Seq<u8>, p: int, l: int) -> Step<Option<u64>> {
    if peek_starts(d, p, kw("mark :"@)) {
        match mark_id_spec(line_rest(d, p, kw("mark :"@)), l) {
            Ok(id) => Ok((Some(id), line_adv(d, p), 1)),
            Err(e) => Err(e),
        }
    } else {
        Ok((None, 0, 0))
    }
}

/// An optional person line with the keyword `key` at `p`.
pub open spec fn opt_person_spec(d: Seq<u8>, p: int, l: int, key: Seq<u8>, lenient: bool) -> Step<
    Option<PersonModel>,
> {
    if peek_starts(d, p, key) {
        match person_spec(line_rest(d, p, key), l, lenient) {
            Ok(x) => Ok((Some(x), line_adv(d, p), 1)),
            Err(e) => Err(e),
        }
    } else {
        Ok((None, 0, 0))
    }
}

/// An optional `from` line of a commit at `p`.
pub open spec fn opt_from_spec(d: Seq<u8>, p: int, l: int, lenient: bool, known: Set<u64>) -> Step<
    Option<Seq<char>>,
> {
    if peek_starts(d, p, kw("from "@)) {
        match commitish_spec(line_rest(d, p, kw("from "@)), lenient, known, l) {
            Ok(x) => Ok((Some(x), line_adv(d, p), 1)),
            Err(e) => Err(e),
        }
    } else {
        Ok((None, 0, 0))
    }
}

/// A line that must begin with `key` at `p`; `what` names it in errors.
pub open spec fn required_line(d: Seq<u8>, p: int, l: int, key: Seq<u8>, what: Seq<char>) -> Result<
    Seq<u8>,
    PErr,
> {
    if p < 0 || p >= d.len() {
        Err(perr(l, "expected "@ + what + " line, found end of input"@))
    } else if !has_prefix(line_at(d, p), key) {
        Err(perr(l, "expected "@ + what + " line, found: "@ + lossy_text(line_at(d, p))))
    } else {
        Ok(line_rest(d, p, key))
    }
}

/// The name after `commit `, `reset ` or `tag `.
pub open spec fn ref_name(b: Seq<u8>) -> Seq<char> {
    trim(lossy_text(b))
}

/// The rest of a commit after its `commit <branch>` line.
#[verifier::opaque]
pub open spec fn commit_spec(d: Seq<u8>, p: int, l: int, branch: Seq<u8>, lenient: bool, known: Set<u64>) -> Step<
    CommitModel,
> {
    match opt_mark_spec(d, p, l) {
        Err(e) => Err(e),
        Ok((mark, a1, k1)) => {
            let p1 = p + a1;
            let l1 = l + k1;
            match opt_person_spec(d, p1, l1, kw("author "@), lenient) {
                Err(e) => Err(e),
                Ok((author, a2, k2)) => {
                    let p2 = p1 + a2;
                    let l2 = l1 + k2;
                    match required_line(d, p2, l2, kw("committer "@), "committer"@) {
                        Err(e) => Err(e),
                        Ok(crest) => match person_spec(crest, l2, lenient) {
                            Err(e) => Err(e),
                            Ok(committer) => {
                                let p3 = p2 + line_adv(d, p2);
                                let l3 = l2 + 1;
                                match data_spec(d, p3, l3, lenient) {
                                    Err(e) => Err(e),
                                    Ok((message, a4, k4)) => {
                                        let p4 = p3 + a4;
                                        let l4 = l3 + k4;
                                        match opt_from_spec(d, p4, l4, lenient, known) {
                                            Err(e) => Err(e),
                                            Ok((from, a5, k5)) => {
                                                let p5 = p4 + a5;
                                                let l5 = l4 + k5;
                                                match merges_spec(d, p5, l5, lenient, known) {
                                                    Err(e) => Err(e),
                                                    Ok((merges, a6, k6)) => {
                                                        let p6 = p5 + a6;
                                                        let l6 = l5 + k6;
                                                        match changes_spec(
                                                            d,
                                                            p6,
                                                            l6,
                                                            lenient,
                                                            known,
                                                        ) {
                                                            Err(e) => Err(e),
                                                            Ok((file_changes, a7, k7)) => Ok(
                                                                (
                                                                    CommitModel {
                                                                        branch: ref_name(branch),
                                                                        mark,
                                                                        author,
                                                                        committer,
                                                                        message,
                                                                        from,
                                                                        merges,
                                                                        file_changes,
                                                                    },
                                                                    (p6 + a7 - p) as nat,
                                                                    (l6 + k7 - l) as nat,
                                                                ),
                                                            ),
                                                        }
                                                    },
                                                }
                                            },
                                        }
                                    },
                                }
                            },
                        },
                    }
                },
            }
        },
    }
}

/// The rest of a reset after its `reset <branch>` line.
pub open spec fn reset_spec(d: Seq<u8>, p: int, l: int, branch: Seq<u8>) -> Step<EventModel> {
    if peek_starts(d, p, kw("from "@)) {
        Ok(
            (
                EventModel::Reset {
                    branch: ref_name(branch),
                    from: Some(trim(lossy_text(line_rest(d, p, kw("from "@))))),
                },
                line_adv(d, p),
                1,
            ),
        )
    } else {
        Ok((EventModel::Reset { branch: ref_name(branch), from: None }, 0, 0))
    }
}

/// The rest of a tag after its `tag <name>` line.
#[verifier::opaque]
pub open spec fn tag_spec(d: Seq<u8>, p: int, l: int, name: Seq<u8>, lenient: bool, known: Set<u64>) -> Step<
    TagModel,
> {
    match opt_mark_spec(d, p, l) {
        Err(e) => Err(e),
        Ok((mark, a1, k1)) => {
            let p1 = p + a1;
            let l1 = l + k1;
            match required_line(d, p1, l1, kw("from "@), "from"@) {
                Err(e) => Err(e),
                Ok(frest) => match commitish_spec(frest, lenient, known, l1) {
                    Err(e) => Err(e),
                    Ok(from) => {
                        let p2 = p1 + line_adv(d, p1);
                        let l2 = l1 + 1;
                        match opt_person_spec(d, p2, l2, kw("tagger "@), lenient) {
                            Err(e) => Err(e),
                            Ok((tagger, a3, k3)) => {
                                let p3 = p2 + a3;
                                let l3 = l2 + k3;
                                match data_spec(d, p3, l3, lenient) {
                                    Err(e) => Err(e),
                                    Ok((message, a4, k4)) => Ok(
                                        (
                                            TagModel {
                                                name: ref_name(name),
                                                mark,
                                                from,
                                                tagger,
                                                message,
                                            },
                                            (p3 + a4 - p) as nat,
                                            (l3 + k4 - l) as nat,
                                        ),
                                    ),
                                }
                            },
                        }
                    },
                },
            }
        },
    }
}

/// The rest of a blob after its `blob` line.
#[verifier::opaque]
pub open spec fn blob_spec(d: Seq<u8>, p: int, l: int, lenient: bool) -> Step<EventModel> {
    match opt_mark_spec(d, p, l) {
        Err(e) => Err(e),
        Ok((mark, a1, k1)) => match data_spec(d, p + a1, l + k1, lenient) {
            Err(e) => Err(e),
            Ok((data, a2, k2)) => Ok((EventModel::Blob { mark, data }, a1 + a2, k1 + k2)),
        },
    }
}

/// A standalone `ls <dataref> <path>`, after the `ls `.
pub open spec fn ls_spec(rest: Seq<u8>, lenient: bool, known: Set<u64>, line: int) -> Result<
    EventModel,
    PErr,
> {
    match find_byte(rest, 32, 0) {
        None => Err(perr(line, "ls missing path"@)),
        Some(i) => match commitish_spec(rest.subrange(0, i), lenient, known, line) {
            Err(e) => Err(e),
            Ok(dataref) => match path_spec(rest.subrange(i + 1, rest.len() as int), lenient, line) {
                Err(e) => Err(e),
                Ok(path) => Ok(EventModel::Ls { dataref, path }),
            },
        },
    }
}

/// The marks known after an event that may define one.
pub open spec fn with_mark(known: Set<u64>, mark: Option<u64>) -> Set<u64> {
    match mark {
        Some(m) => known.insert(m),
        None => known,
    }
}

/// One command at `p` (the line there, and what follows it): the event if
/// it gives one, the marks known after it, the bytes and lines it took after
/// its own line, and whether reading stops after it (`done`).
#[verifier::opaque]
pub open spec fn command_spec(d: Seq<u8>, p: int, l: int, known: Set<u64>, lenient: bool) -> Result<
    (Option<EventModel>, Set<u64>, nat, nat, bool),
    PErr,
> {
    let line = line_at(d, p);
    let p1 = p + line_adv(d, p);
    let l1 = l + 1;
    if line.len() == 0 || line[0] == 35 {
        Ok((None, known, 0, 0, false))
    } else if line == kw("blob"@) {
        match blob_spec(d, p1, l1, lenient) {
            Err(e) => Err(e),
            Ok((ev, x, k)) => Ok((Some(ev), with_mark(known, ev->Blob_mark), x, k, false)),
        }
    } else if has_prefix(line, kw("commit "@)) {
        match commit_spec(d, p1, l1, line_rest(d, p, kw("commit "@)), lenient, known) {
            Err(e) => Err(e),
            Ok((c, x, k)) => Ok(
                (Some(EventModel::Commit(c)), with_mark(known, c.mark), x, k, false),
            ),
        }
    } else if has_prefix(line, kw("reset "@)) {
        match reset_spec(d, p1, l1, line_rest(d, p, kw("reset "@))) {
            Err(e) => Err(e),
            Ok((ev, x, k)) => Ok((Some(ev), known, x, k, false)),
        }
    } else if has_prefix(line, kw("tag "@)) {
        match tag_spec(d, p1, l1, line_rest(d, p, kw("tag "@)), lenient, known) {
            Err(e) => Err(e),
            Ok((t, x, k)) => Ok(
                (Some(EventModel::Tag(t)), with_mark(known, t.mark), x, k, false),
            ),
        }
    } else if has_prefix(line, kw("ls "@)) {
        match ls_spec(line_rest(d, p, kw("ls "@)), lenient, known, l) {
            Err(e) => Err(e),
            Ok(ev) => Ok((Some(ev), known, 0, 0, false)),
        }
    } else if line == kw("checkpoint"@) {
        Ok((Some(EventModel::Checkpoint), known, 0, 0, false))
    } else if line == kw("done"@) {
        Ok((Some(EventModel::Done), known, 0, 0, true))
    } else if lenient {
        Ok((None, known, 0, 0, false))
    } else {
        Err(perr(l, "unsupported command: "@ + lossy_text(line)))
    }
}

/// The events of the stream from `p` on.
pub open spec fn events_spec(d: Seq<u8>, p: int, l: int, known: Set<u64>, lenient: bool) -> Result<
    Seq<EventModel>,
    PErr,
>
    decreases remaining(d, p),
{
    if p < 0 || p >= d.len() {
        Ok(Seq::empty())
    } else {
        let a = line_adv(d, p);
        proof {
            lemma_line_end(d, p);
        }
        match command_spec(d, p, l, known, lenient) {
            Err(e) => Err(e),
            Ok((ev, known2, x, k, stop)) => {
                let here: Seq<EventModel> = match ev {
                    Some(e) => seq![e],
                    None => Seq::empty(),
                };
                if stop {
                    Ok(here)
                } else {
                    match events_spec(d, p + a + x, l + 1 + k, known2, lenient) {
                        Ok(rest) => Ok(here + rest),
                        Err(e) => Err(e),
                    }
                }
            },
        }
    }
}

/// What reading a whole stream gives.
pub open spec fn parse_spec(d: Seq<u8>, lenient: bool) -> Result<Seq<EventModel>, PErr> {
    events_spec(d, 0, 1, Set::empty(), lenient)
}

// ---------------------------------------------------------------------------
// The reader
// ---------------------------------------------------------------------------

/// A step whose value sequence follows `acc`, read with `x` bytes and `k`
/// lines before it.
pub open spec fn step_after<T>(s: Step<Seq<T>>, acc: Seq<T>, x: nat, k: nat) -> Step<Seq<T>> {
    match s {
        Ok((v, y, j)) => Ok((acc + v, x + y, k + j)),
        Err(e) => Err(e),
    }
}

struct Cursor<'a> {
    data: &'a [u8],
    pos: usize,
    line: usize,
}

impl<'a> Cursor<'a> {
    spec fn wf(&self) -> bool {
        &&& self.pos <= self.data.len()
        &&& self.line <= self.pos + 1
        &&& self.data.len() < usize::MAX
    }

    /// The cursor moved on by `x` bytes and `k` lines from `old`.
    spec fn moved(&self, old: Cursor<'a>, x: nat, k: nat) -> bool {
        &&& self.data == old.data
        &&& self.wf()
        &&& self.pos == old.pos + x
        &&& self.line == old.line + k
    }

    fn new(data: &'a [u8]) -> (c: Self)
        requires
            data.len() < usize::MAX,
        ensures
            c.wf(),
            c.data == data,
            c.pos == 0,
            c.line == 1,
    {
        Cursor { data, pos: 0, line: 1 }
    }

    fn is_eof(&self) -> (b: bool)
        ensures
            b == (self.pos >= self.data.len()),
    {
        self.pos >= self.data.len()
    }

    fn read_line(&mut self) -> (res: Option<(usize, &'a [u8])>)
        requires
            old(self).wf(),
        ensures
            old(self).pos >= old(self).data.len() ==> res is None && *final(self) == *old(self),
            old(self).pos < old(self).data.len() ==> {
                &&& res matches Some((n, line)) && n == old(self).line && line@ == line_at(
                    old(self).data@,
                    old(self).pos as int,
                )
                &&& final(self).moved(*old(self), line_adv(old(self).data@, old(self).pos as int), 1)
            },
    {
        if self.is_eof() {
            return None;
        }
        proof {
            lemma_line_end(self.data@, self.pos as int);
        }
        let line_no = self.line;
        let start = self.pos;
        let mut end = start;
        while end < self.data.len() && self.data[end] != 10
            invariant
                start <= end <= self.data.len(),
                line_end(self.data@, start as int) == line_end(self.data@, end as int),
            decreases self.data.len() - end,
        {
            end = end + 1;
        }
        let line = &self.data[start..end];
        if end < self.data.len() {
            self.pos = end + 1;
        } else {
            self.pos = end;
        }
        self.line = self.line + 1;
        Some((line_no, line))
    }

    fn peek_line(&self) -> (res: Option<&'a [u8]>)
        requires
            self.wf(),
        ensures
            self.pos >= self.data.len() ==> res is None,
            self.pos < self.data.len() ==> (res matches Some(line) && line@ == line_at(
                self.data@,
                self.pos as int,
            )),
    {
        if self.is_eof() {
            return None;
        }
        proof {
            lemma_line_end(self.data@, self.pos as int);
        }
        let mut end = self.pos;
        while end < self.data.len() && self.data[end] != 10
            invariant
                self.pos <= end <= self.data.len(),
                line_end(self.data@, self.pos as int) == line_end(self.data@, end as int),
            decreases self.data.len() - end,
        {
            end = end + 1;
        }
        Some(&self.data[self.pos..end])
    }

    fn read_exact(&mut self, n: usize) -> (res: Result<&'a [u8], ParseError>)
        requires
            old(self).wf(),
        ensures
            old(self).pos + n > old(self).data.len() ==> (res matches Err(e) && e.line == old(
                self,
            ).line && e.message@ == "unexpected end of input while reading a data payload"@
                && *final(self) == *old(self)),
            old(self).pos + n <= old(self).data.len() ==> (res matches Ok(b) && b@
                == old(self).data@.subrange(old(self).pos as int, old(self).pos + n)
                && final(self).moved(*old(self), n as nat, 0)),
    {
        if n > self.data.len() - self.pos {
            return Err(
                parse_error(self.line, "unexpected end of input while reading a data payload"),
            );
        }
        let bytes = &self.data[self.pos..self.pos + n];
        self.pos = self.pos + n;
        Ok(bytes)
    }

    fn consume_lf_if_present(&mut self) -> (b: bool)
        requires
            old(self).wf(),
        ensures
            b == (old(self).pos < old(self).data.len() && old(self).data@[old(self).pos as int]
                == 10),
            b ==> final(self).moved(*old(self), 1, 1),
            !b ==> *final(self) == *old(self),
    {
        if self.pos < self.data.len() && self.data[self.pos] == 10 {
            self.pos = self.pos + 1;
            self.line = self.line + 1;
            true
        } else {
            false
        }
    }
}

/// `line` without `prefix`, where it begins with it.
fn strip_prefix<'b>(line: &'b [u8], prefix: &[u8]) -> (res: Option<&'b [u8]>)
    ensures
        has_prefix(line@, prefix@) ==> (res matches Some(r) && r@ == line@.subrange(
            prefix@.len() as int,
            line@.len() as int,
        )),
        !has_prefix(line@, prefix@) ==> res is None,
{
    if range_starts_with(line, 0, line.len(), prefix) {
        assert(line@.subrange(0, line.len() as int) =~= line@);
        Some(&line[prefix.len()..line.len()])
    } else {
        assert(line@.subrange(0, line.len() as int) =~= line@);
        None
    }
}

fn starts_with_peek(cur: &Cursor, prefix: &[u8]) -> (b: bool)
    requires
        cur.wf(),
    ensures
        b == peek_starts(cur.data@, cur.pos as int, prefix@),
{
    match cur.peek_line() {
        Some(line) => {
            assert(line@.subrange(0, line.len() as int) =~= line@);
            range_starts_with(line, 0, line.len(), prefix)
        },
        None => false,
    }
}

#[verifier::rlimit(30)]
fn parse_delimited_data(cur: &mut Cursor, delim: &[u8], line_no: usize, lenient: bool) -> (res: Result<Vec<u8>, ParseError>)
    requires
        old(cur).wf(),
        delim@.len() > 0,
    ensures
        final(cur).data == old(cur).data,
        match delimited_body(old(cur).data@, old(cur).pos as int, old(cur).line as int, delim@, lenient) {
            Ok((v, x, k)) => res matches Ok(r) && r@ == v && final(cur).moved(*old(cur), x, k),
            Err(e) => res matches Err(x) && x.matches(e),
        },
{
    let ghost d = cur.data@;
    let ghost c0 = *cur;
    let mut data: Vec<u8> = Vec::new();
    loop
        invariant
            c0 == *old(cur),
            cur.wf(),
            cur.data == c0.data,
            d == cur.data@,
            c0.pos <= cur.pos,
            c0.line <= cur.line,
            delimited_body(d, c0.pos as int, c0.line as int, delim@, lenient) == step_after(
                delimited_body(d, cur.pos as int, cur.line as int, delim@, lenient),
                data@,
                (cur.pos - c0.pos) as nat,
                (cur.line - c0.line) as nat,
            ),
        decreases cur.data.len() - cur.pos,
    {
        let ghost c1 = *cur;
        proof {
            lemma_line_end(d, cur.pos as int);
        }
        match cur.read_line() {
            Some((_, line)) => {
                if bytes_eq(line, delim) {
                    assert(data@ + Seq::<u8>::empty() =~= data@);
                    return Ok(data);
                }
                let ghost before = data@;
                push_bytes(&mut data, line);
                data.push(10);
                proof {
                    match delimited_body(d, cur.pos as int, cur.line as int, delim@, lenient) {
                        Ok((rest, _, _)) => {
                            assert(before + (line@.push(10) + rest) =~= data@ + rest);
                        },
                        Err(_) => {},
                    }
                }
            },
            None => {
                if lenient {
                    assert(data@ + Seq::<u8>::empty() =~= data@);
                    return Ok(data);
                }
                let mut m = owned("unterminated delimited data block, expected a line matching '");
                let shown = utf8_lossy(delim);
                push_str(&mut m, shown.as_str());
                push_str(&mut m, "'");
                return Err(ParseError { line: cur.line, message: m });
            },
        }
    }
}

#[verifier::rlimit(30)]
fn parse_data(cur: &mut Cursor, lenient: bool) -> (res: Result<Vec<u8>, ParseError>)
    requires
        old(cur).wf(),
    ensures
        final(cur).data == old(cur).data,
        match data_spec(old(cur).data@, old(cur).pos as int, old(cur).line as int, lenient) {
            Ok((v, x, k)) => res matches Ok(r) && r@ == v && final(cur).moved(*old(cur), x, k),
            Err(e) => res matches Err(x) && x.matches(e),
        },
{
    proof {
        reveal(data_spec);
    }
    let ghost c0 = *cur;
    let (line_no, line) = match cur.read_line() {
        Some(x) => x,
        None => return Err(parse_error(cur.line, "expected data command, found end of input")),
    };
    let rest = match strip_prefix(line, "data ".as_bytes()) {
        Some(r) => r,
        None => {
            let shown = utf8_lossy(line);
            return Err(
                parse_error_with(line_no, "expected data command, found: ", shown.as_str()),
            );
        },
    };
    match strip_prefix(rest, "<<".as_bytes()) {
        Some(delim) => {
            if delim.len() == 0 {
                return Err(parse_error(line_no, "empty delimiter in data <<DELIM"));
            }
            return parse_delimited_data(cur, delim, line_no, lenient);
        },
        None => {},
    }
    let count_str = match utf8_str(rest) {
        Some(s) => s,
        None => return Err(parse_error(line_no, "data length is not valid UTF-8")),
    };
    let cs = chars_of(count_str);
    let (ta, tb) = trim_bounds(cs.as_slice());
    let count: usize = match parse_unsigned_chars(&cs.as_slice()[ta..tb], usize::MAX as u64) {
        Some(c) => c as usize,
        None => {
            let shown = string_from_range(cs.as_slice(), ta, tb);
            return Err(parse_error_with(line_no, "invalid data length: ", shown.as_str()));
        },
    };
    let bytes = cur.read_exact(count)?;
    let mut data: Vec<u8> = Vec::new();
    push_bytes(&mut data, bytes);
    assert(data@ =~= bytes@);
    let had_lf = cur.consume_lf_if_present();
    if !had_lf && !cur.is_eof() && !lenient {
        return Err(parse_error(line_no, "data payload must be followed by a newline separator"));
    }
    Ok(data)
}


/// The dataref of a filemodify or notemodify; `inline` reads a data block.
fn parse_dataref(b: &[u8], cur: &mut Cursor, lenient: bool, line_no: usize) -> (res: Result<DataRef, ParseError>)
    requires
        old(cur).wf(),
    ensures
        final(cur).data == old(cur).data,
        match dataref_spec(b@, old(cur).data@, old(cur).pos as int, old(cur).line as int, lenient, line_no as int) {
            Ok((v, x, k)) => res matches Ok(r) && r@ == v && final(cur).moved(*old(cur), x, k),
            Err(e) => res matches Err(er) && er.matches(e),
        },
{
    if bytes_eq(b, "inline".as_bytes()) {
        let data = parse_data(cur, lenient)?;
        return Ok(DataRef::Inline(data));
    }
    if b.len() > 0 && b[0] == 58 {
        assert(b@.drop_first() =~= b@.subrange(1, b.len() as int));
        let id = parse_mark_id(&b[1..b.len()], line_no)?;
        return Ok(DataRef::Mark(id));
    }
    let sha = match utf8_str(b) {
        Some(s) => s,
        None => return Err(parse_error(line_no, "sha1 dataref is not valid UTF-8")),
    };
    if !lenient && !is_valid_sha1(sha) {
        return Err(parse_error_with(line_no, "invalid sha1: ", sha));
    }
    Ok(DataRef::Sha1(owned(sha)))
}

/// `M <mode> <dataref> <path>`, after the `M `.
#[verifier::rlimit(30)]
fn parse_filemodify(rest: &[u8], cur: &mut Cursor, lenient: bool, line_no: usize) -> (res: Result<FileChange, ParseError>)
    requires
        old(cur).wf(),
    ensures
        final(cur).data == old(cur).data,
        match filemodify_spec(rest@, old(cur).data@, old(cur).pos as int, old(cur).line as int, lenient, line_no as int) {
            Ok((v, x, k)) => res matches Ok(r) && r@ == v && final(cur).moved(*old(cur), x, k),
            Err(e) => res matches Err(er) && er.matches(e),
        },
{
    proof {
        lemma_find_byte(rest@, 32, 0);
    }
    let n = rest.len();
    let i1 = match find_byte_exec(rest, 32, 0) {
        Some(i) => i,
        None => return Err(parse_error(line_no, "filemodify missing dataref")),
    };
    proof {
        lemma_find_byte(rest@, 32, i1 + 1);
    }
    let i2 = match find_byte_exec(rest, 32, i1 + 1) {
        Some(i) => i,
        None => return Err(parse_error(line_no, "filemodify missing path")),
    };
    let mode = match utf8_str(&rest[0..i1]) {
        Some(s) => s,
        None => return Err(parse_error(line_no, "filemodify mode is not valid UTF-8")),
    };
    if !lenient && !is_valid_mode(mode) {
        return Err(parse_error_with(line_no, "invalid file mode: ", mode));
    }
    let path = unquote_path(&rest[i2 + 1..rest.len()], lenient, line_no)?;
    let dataref = parse_dataref(&rest[i1 + 1..i2], cur, lenient, line_no)?;
    Ok(FileChange::Modify(FileModify { mode: owned(mode), dataref, path }))
}

/// `N <dataref> <commit-ish>`, after the `N `.
fn parse_notemodify(rest: &[u8], cur: &mut Cursor, lenient: bool, known_marks: &HashSet<u64>, line_no: usize) -> (res: Result<FileChange, ParseError>)
    requires
        old(cur).wf(),
    ensures
        final(cur).data == old(cur).data,
        match notemodify_spec(rest@, old(cur).data@, old(cur).pos as int, old(cur).line as int, lenient, known_marks@, line_no as int) {
            Ok((v, x, k)) => res matches Ok(r) && r@ == v && final(cur).moved(*old(cur), x, k),
            Err(e) => res matches Err(er) && er.matches(e),
        },
{
    proof {
        lemma_find_byte(rest@, 32, 0);
    }
    let n = rest.len();
    let i1 = match find_byte_exec(rest, 32, 0) {
        Some(i) => i,
        None => return Err(parse_error(line_no, "notemodify missing commit-ish")),
    };
    let dataref = parse_dataref(&rest[0..i1], cur, lenient, line_no)?;
    let commitish = resolve_commitish(&rest[i1 + 1..rest.len()], lenient, known_marks, line_no)?;
    Ok(FileChange::Note(NoteModify { dataref, commitish }))
}

/// The file change on the line at the cursor, if that line is one; the line
/// and any data block after it are read only then.
#[verifier::rlimit(30)]
fn parse_file_change(cur: &mut Cursor, lenient: bool, known_marks: &HashSet<u64>) -> (res: Option<Result<FileChange, ParseError>>)
    requires
        old(cur).wf(),
        old(cur).pos < old(cur).data.len(),
    ensures
        final(cur).data == old(cur).data,
        match change_line_spec(old(cur).data@, old(cur).pos as int, old(cur).line as int, lenient, known_marks@) {
            None => res is None && *final(cur) == *old(cur),
            Some(Ok((v, x, k))) => res matches Some(Ok(r)) && r@ == v && final(cur).moved(
                *old(cur),
                line_adv(old(cur).data@, old(cur).pos as int) + x,
                1 + k,
            ),
            Some(Err(e)) => res matches Some(Err(er)) && er.matches(e),
        },
{
    proof {
        lemma_line_end(cur.data@, cur.pos as int);
        reveal(change_line_spec);
    }
    let line = match cur.peek_line() {
        Some(l) => l,
        None => return None,
    };
    let line_no = cur.line;
    match strip_prefix(line, "M ".as_bytes()) {
        Some(rest) => {
            let _ = cur.read_line();
            return Some(parse_filemodify(rest, cur, lenient, line_no));
        },
        None => {},
    }
    match strip_prefix(line, "D ".as_bytes()) {
        Some(rest) => {
            let _ = cur.read_line();
            return Some(
                match unquote_path(rest, lenient, line_no) {
                    Ok(path) => Ok(FileChange::Delete { path }),
                    Err(e) => Err(e),
                },
            );
        },
        None => {},
    }
    match strip_prefix(line, "N ".as_bytes()) {
        Some(rest) => {
            let _ = cur.read_line();
            return Some(parse_notemodify(rest, cur, lenient, known_marks, line_no));
        },
        None => {},
    }
    match strip_prefix(line, "C ".as_bytes()) {
        Some(rest) => {
            let _ = cur.read_line();
            return Some(
                match parse_two_paths(rest, lenient, line_no) {
                    Ok((src, dst)) => Ok(FileChange::Copy { src, dst }),
                    Err(e) => Err(e),
                },
            );
        },
        None => {},
    }
    match strip_prefix(line, "R ".as_bytes()) {
        Some(rest) => {
            let _ = cur.read_line();
            return Some(
                match parse_two_paths(rest, lenient, line_no) {
                    Ok((src, dst)) => Ok(FileChange::Rename { src, dst }),
                    Err(e) => Err(e),
                },
            );
        },
        None => {},
    }
    if bytes_eq(line, "deleteall".as_bytes()) {
        let _ = cur.read_line();
        return Some(Ok(FileChange::DeleteAll));
    }
    match strip_prefix(line, "ls ".as_bytes()) {
        Some(rest) => {
            let _ = cur.read_line();
            return Some(
                match unquote_path(rest, lenient, line_no) {
                    Ok(path) => Ok(FileChange::Ls { path }),
                    Err(e) => Err(e),
                },
            );
        },
        None => {},
    }
    None
}

/// The file changes of a commit, up to an empty line (read), the end of the
/// input, or a line that is no file change (left unread).
#[verifier::rlimit(30)]
fn parse_file_changes(cur: &mut Cursor, lenient: bool, known_marks: &HashSet<u64>) -> (res: Result<Vec<FileChange>, ParseError>)
    requires
        old(cur).wf(),
    ensures
        final(cur).data == old(cur).data,
        match changes_spec(old(cur).data@, old(cur).pos as int, old(cur).line as int, lenient, known_marks@) {
            Ok((v, x, k)) => res matches Ok(r) && changes_view(r@) == v && final(cur).moved(*old(cur), x, k),
            Err(e) => res matches Err(er) && er.matches(e),
        },
{
    let ghost d = cur.data@;
    let ghost c0 = *cur;
    let mut out: Vec<FileChange> = Vec::new();
    loop
        invariant
            c0 == *old(cur),
            cur.wf(),
            cur.data == c0.data,
            d == cur.data@,
            c0.pos <= cur.pos,
            c0.line <= cur.line,
            changes_spec(d, c0.pos as int, c0.line as int, lenient, known_marks@) == step_after(
                changes_spec(d, cur.pos as int, cur.line as int, lenient, known_marks@),
                changes_view(out@),
                (cur.pos - c0.pos) as nat,
                (cur.line - c0.line) as nat,
            ),
        decreases cur.data.len() - cur.pos,
    {
        if cur.is_eof() {
            assert(changes_view(out@) + Seq::<FileChangeModel>::empty() =~= changes_view(out@));
            return Ok(out);
        }
        proof {
            lemma_line_end(d, cur.pos as int);
        }
        let empty = match cur.peek_line() {
            Some(l) => l.len() == 0,
            None => false,
        };
        if empty {
            let _ = cur.read_line();
            assert(changes_view(out@) + Seq::<FileChangeModel>::empty() =~= changes_view(out@));
            return Ok(out);
        }
        let ghost before = changes_view(out@);
        match parse_file_change(cur, lenient, known_marks) {
            None => {
                assert(changes_view(out@) + Seq::<FileChangeModel>::empty() =~= changes_view(out@));
                return Ok(out);
            },
            Some(Err(e)) => {
                return Err(e);
            },
            Some(Ok(c)) => {
                out.push(c);
                proof {
                    assert(changes_view(out@) =~= before.push(c@));
                    match changes_spec(d, cur.pos as int, cur.line as int, lenient, known_marks@) {
                        Ok((rest, _, _)) => {
                            assert(before + (seq![c@] + rest) =~= changes_view(out@) + rest);
                        },
                        Err(_) => {},
                    }
                }
            },
        }
    }
}


/// An optional `mark :<n>` line.
fn parse_opt_mark(cur: &mut Cursor) -> (res: Result<Option<u64>, ParseError>)
    requires
        old(cur).wf(),
    ensures
        final(cur).data == old(cur).data,
        match opt_mark_spec(old(cur).data@, old(cur).pos as int, old(cur).line as int) {
            Ok((v, x, k)) => res matches Ok(r) && r == v && final(cur).moved(*old(cur), x, k),
            Err(e) => res matches Err(er) && er.matches(e),
        },
{
    if !starts_with_peek(cur, "mark :".as_bytes()) {
        return Ok(None);
    }
    proof {
        lemma_line_end(cur.data@, cur.pos as int);
    }
    let line_no = cur.line;
    let line = match cur.read_line() {
        Some((_, l)) => l,
        None => return Ok(None),
    };
    let rest = match strip_prefix(line, "mark :".as_bytes()) {
        Some(r) => r,
        None => return Ok(None),
    };
    let id = parse_mark_id(rest, line_no)?;
    Ok(Some(id))
}

/// An optional person line that begins with `key`.
fn parse_opt_person(cur: &mut Cursor, key: &[u8], lenient: bool) -> (res: Result<Option<PersonStamp>, ParseError>)
    requires
        old(cur).wf(),
    ensures
        final(cur).data == old(cur).data,
        match opt_person_spec(old(cur).data@, old(cur).pos as int, old(cur).line as int, key@, lenient) {
            Ok((v, x, k)) => res matches Ok(r) && opt_person_view(r) == v && final(cur).moved(*old(cur), x, k),
            Err(e) => res matches Err(er) && er.matches(e),
        },
{
    if !starts_with_peek(cur, key) {
        return Ok(None);
    }
    proof {
        lemma_line_end(cur.data@, cur.pos as int);
    }
    let line_no = cur.line;
    let line = match cur.read_line() {
        Some((_, l)) => l,
        None => return Ok(None),
    };
    let rest = match strip_prefix(line, key) {
        Some(r) => r,
        None => return Ok(None),
    };
    let person = parse_person(rest, line_no, lenient)?;
    Ok(Some(person))
}

/// An optional `from` line of a commit.
fn parse_opt_from(cur: &mut Cursor, lenient: bool, known_marks: &HashSet<u64>) -> (res: Result<Option<String>, ParseError>)
    requires
        old(cur).wf(),
    ensures
        final(cur).data == old(cur).data,
        match opt_from_spec(old(cur).data@, old(cur).pos as int, old(cur).line as int, lenient, known_marks@) {
            Ok((v, x, k)) => res matches Ok(r) && opt_str_view(r) == v && final(cur).moved(*old(cur), x, k),
            Err(e) => res matches Err(er) && er.matches(e),
        },
{
    if !starts_with_peek(cur, "from ".as_bytes()) {
        return Ok(None);
    }
    proof {
        lemma_line_end(cur.data@, cur.pos as int);
    }
    let line_no = cur.line;
    let line = match cur.read_line() {
        Some((_, l)) => l,
        None => return Ok(None),
    };
    let rest = match strip_prefix(line, "from ".as_bytes()) {
        Some(r) => r,
        None => return Ok(None),
    };
    let from = resolve_commitish(rest, lenient, known_marks, line_no)?;
    Ok(Some(from))
}

/// The `merge` lines of a commit.
#[verifier::rlimit(30)]
fn parse_merges(cur: &mut Cursor, lenient: bool, known_marks: &HashSet<u64>) -> (res: Result<Vec<String>, ParseError>)
    requires
        old(cur).wf(),
    ensures
        final(cur).data == old(cur).data,
        match merges_spec(old(cur).data@, old(cur).pos as int, old(cur).line as int, lenient, known_marks@) {
            Ok((v, x, k)) => res matches Ok(r) && strings_view(r@) == v && final(cur).moved(*old(cur), x, k),
            Err(e) => res matches Err(er) && er.matches(e),
        },
{
    let ghost d = cur.data@;
    let ghost c0 = *cur;
    let mut out: Vec<String> = Vec::new();
    loop
        invariant
            c0 == *old(cur),
            cur.wf(),
            cur.data == c0.data,
            d == cur.data@,
            c0.pos <= cur.pos,
            c0.line <= cur.line,
            merges_spec(d, c0.pos as int, c0.line as int, lenient, known_marks@) == step_after(
                merges_spec(d, cur.pos as int, cur.line as int, lenient, known_marks@),
                strings_view(out@),
                (cur.pos - c0.pos) as nat,
                (cur.line - c0.line) as nat,
            ),
        decreases cur.data.len() - cur.pos,
    {
        if !starts_with_peek(cur, "merge ".as_bytes()) {
            assert(strings_view(out@) + Seq::<Seq<char>>::empty() =~= strings_view(out@));
            return Ok(out);
        }
        proof {
            lemma_line_end(d, cur.pos as int);
        }
        let line_no = cur.line;
        let line = match cur.read_line() {
            Some((_, l)) => l,
            None => return Ok(out),
        };
        let rest = match strip_prefix(line, "merge ".as_bytes()) {
            Some(r) => r,
            None => return Ok(out),
        };
        let ghost before = strings_view(out@);
        let m = resolve_commitish(rest, lenient, known_marks, line_no)?;
        out.push(m);
        proof {
            assert(strings_view(out@) =~= before.push(m@));
            match merges_spec(d, cur.pos as int, cur.line as int, lenient, known_marks@) {
                Ok((rest, _, _)) => {
                    assert(before + (seq![m@] + rest) =~= strings_view(out@) + rest);
                },
                Err(_) => {},
            }
        }
    }
}

/// A line that must begin with `key`; gives its number and what follows the key.
fn read_required<'a>(cur: &mut Cursor<'a>, key: &[u8], what: &str) -> (res: Result<(usize, &'a [u8]), ParseError>)
    requires
        old(cur).wf(),
    ensures
        final(cur).data == old(cur).data,
        match required_line(old(cur).data@, old(cur).pos as int, old(cur).line as int, key@, what@) {
            Ok(r) => res matches Ok((n, b)) && n == old(cur).line && b@ == r && final(cur).moved(
                *old(cur),
                line_adv(old(cur).data@, old(cur).pos as int),
                1,
            ),
            Err(e) => res matches Err(er) && er.matches(e),
        },
{
    let (line_no, line) = match cur.read_line() {
        Some(x) => x,
        None => {
            let mut m = owned("expected ");
            push_str(&mut m, what);
            push_str(&mut m, " line, found end of input");
            return Err(ParseError { line: cur.line, message: m });
        },
    };
    match strip_prefix(line, key) {
        Some(rest) => Ok((line_no, rest)),
        None => {
            let mut m = owned("expected ");
            push_str(&mut m, what);
            push_str(&mut m, " line, found: ");
            let shown = utf8_lossy(line);
            push_str(&mut m, shown.as_str());
            Err(ParseError { line: line_no, message: m })
        },
    }
}

/// The name after `commit `, `reset ` or `tag `: read leniently as UTF-8 and trimmed.
fn ref_name_exec(b: &[u8]) -> (s: String)
    ensures
        s@ == ref_name(b@),
{
    let shown = utf8_lossy(b);
    trim_string(shown.as_str())
}


/// The rest of a commit after its `commit <branch>` line.
#[verifier::rlimit(30)]
fn parse_commit(cur: &mut Cursor, branch_bytes: &[u8], lenient: bool, known_marks: &HashSet<u64>) -> (res: Result<Commit, ParseError>)
    requires
        old(cur).wf(),
    ensures
        final(cur).data == old(cur).data,
        match commit_spec(old(cur).data@, old(cur).pos as int, old(cur).line as int, branch_bytes@, lenient, known_marks@) {
            Ok((v, x, k)) => res matches Ok(r) && r@ == v && final(cur).moved(*old(cur), x, k),
            Err(e) => res matches Err(er) && er.matches(e),
        },
{
    proof {
        reveal(commit_spec);
    }
    let branch = ref_name_exec(branch_bytes);
    let mark = parse_opt_mark(cur)?;
    let author = parse_opt_person(cur, "author ".as_bytes(), lenient)?;
    let (line_no, crest) = read_required(cur, "committer ".as_bytes(), "committer")?;
    let committer = parse_person(crest, line_no, lenient)?;
    let message = parse_data(cur, lenient)?;
    let from = parse_opt_from(cur, lenient, known_marks)?;
    let merges = parse_merges(cur, lenient, known_marks)?;
    let file_changes = parse_file_changes(cur, lenient, known_marks)?;
    Ok(Commit { branch, mark, author, committer, message, from, merges, file_changes })
}

/// The rest of a reset after its `reset <branch>` line.
fn parse_reset(cur: &mut Cursor, branch_bytes: &[u8]) -> (res: Reset)
    requires
        old(cur).wf(),
    ensures
        final(cur).data == old(cur).data,
        match reset_spec(old(cur).data@, old(cur).pos as int, old(cur).line as int, branch_bytes@) {
            Ok((v, x, k)) => Event::Reset(res)@ == v && final(cur).moved(*old(cur), x, k),
            Err(_) => false,
        },
{
    let branch = ref_name_exec(branch_bytes);
    if !starts_with_peek(cur, "from ".as_bytes()) {
        return Reset { branch, from: None };
    }
    proof {
        lemma_line_end(cur.data@, cur.pos as int);
    }
    let line = match cur.read_line() {
        Some((_, l)) => l,
        None => return Reset { branch, from: None },
    };
    let rest = match strip_prefix(line, "from ".as_bytes()) {
        Some(r) => r,
        None => return Reset { branch, from: None },
    };
    Reset { branch, from: Some(ref_name_exec(rest)) }
}

/// The rest of a tag after its `tag <name>` line.
#[verifier::rlimit(30)]
fn parse_tag(cur: &mut Cursor, name_bytes: &[u8], lenient: bool, known_marks: &HashSet<u64>) -> (res: Result<Tag, ParseError>)
    requires
        old(cur).wf(),
    ensures
        final(cur).data == old(cur).data,
        match tag_spec(old(cur).data@, old(cur).pos as int, old(cur).line as int, name_bytes@, lenient, known_marks@) {
            Ok((v, x, k)) => res matches Ok(r) && r@ == v && final(cur).moved(*old(cur), x, k),
            Err(e) => res matches Err(er) && er.matches(e),
        },
{
    proof {
        reveal(tag_spec);
    }
    let name = ref_name_exec(name_bytes);
    let mark = parse_opt_mark(cur)?;
    let (line_no, frest) = read_required(cur, "from ".as_bytes(), "from")?;
    let from = resolve_commitish(frest, lenient, known_marks, line_no)?;
    let tagger = parse_opt_person(cur, "tagger ".as_bytes(), lenient)?;
    let message = parse_data(cur, lenient)?;
    Ok(Tag { name, mark, from, tagger, message })
}

/// The rest of a blob after its `blob` line.
fn parse_blob(cur: &mut Cursor, lenient: bool) -> (res: Result<Blob, ParseError>)
    requires
        old(cur).wf(),
    ensures
        final(cur).data == old(cur).data,
        match blob_spec(old(cur).data@, old(cur).pos as int, old(cur).line as int, lenient) {
            Ok((v, x, k)) => res matches Ok(r) && Event::Blob(r)@ == v && final(cur).moved(*old(cur), x, k),
            Err(e) => res matches Err(er) && er.matches(e),
        },
{
    proof {
        reveal(blob_spec);
    }
    let mark = parse_opt_mark(cur)?;
    let data = parse_data(cur, lenient)?;
    Ok(Blob { mark, data })
}

/// A standalone `ls <dataref> <path>`, after the `ls `: the tree to look in
/// is named explicitly, as by `from` and `merge`.
fn parse_ls_standalone(rest: &[u8], lenient: bool, known_marks: &HashSet<u64>, line_no: usize) -> (res: Result<(String, String), ParseError>)
    ensures
        match ls_spec(rest@, lenient, known_marks@, line_no as int) {
            Ok(v) => res matches Ok((a, b)) && (Event::Ls { dataref: a, path: b })@ == v,
            Err(e) => res matches Err(er) && er.matches(e),
        },
{
    proof {
        lemma_find_byte(rest@, 32, 0);
    }
    let n = rest.len();
    let i = match find_byte_exec(rest, 32, 0) {
        Some(i) => i,
        None => return Err(parse_error(line_no, "ls missing path")),
    };
    let dataref = resolve_commitish(&rest[0..i], lenient, known_marks, line_no)?;
    let path = unquote_path(&rest[i + 1..n], lenient, line_no)?;
    Ok((dataref, path))
}


/// The mark an event defines, if any.
pub open spec fn defined_mark(e: EventModel) -> Option<u64> {
    match e {
        EventModel::Blob { mark, .. } => mark,
        EventModel::Commit(c) => c.mark,
        EventModel::Tag(t) => t.mark,
        _ => None,
    }
}

fn event_mark(e: &Event) -> (m: Option<u64>)
    ensures
        m == defined_mark(e@),
{
    match e {
        Event::Blob(b) => b.mark,
        Event::Commit(c) => c.mark,
        Event::Tag(t) => t.mark,
        _ => None,
    }
}

/// One command: its line at the cursor and whatever belongs to it. Gives the
/// event, if the command makes one, and whether reading stops here.
#[verifier::rlimit(30)]
fn parse_command(cur: &mut Cursor, lenient: bool, known_marks: &HashSet<u64>) -> (res: Result<(Option<Event>, bool), ParseError>)
    requires
        old(cur).wf(),
        old(cur).pos < old(cur).data.len(),
    ensures
        final(cur).data == old(cur).data,
        match command_spec(old(cur).data@, old(cur).pos as int, old(cur).line as int, known_marks@, lenient) {
            Ok((ev, known2, x, k, stop)) => res matches Ok((r, st)) && st == stop && match r {
                Some(e) => ev == Some(e@) && known2 == with_mark(known_marks@, defined_mark(e@)),
                None => ev is None && known2 == known_marks@,
            } && final(cur).moved(*old(cur), line_adv(old(cur).data@, old(cur).pos as int) + x, 1 + k),
            Err(e) => res matches Err(er) && er.matches(e),
        },
        res matches Ok((None, st)) ==> !st,
{
    proof {
        lemma_line_end(cur.data@, cur.pos as int);
        reveal(command_spec);
    }
    let (line_no, line) = match cur.read_line() {
        Some(x) => x,
        None => return Ok((None, false)),
    };
    if line.len() == 0 || line[0] == 35 {
        return Ok((None, false));
    }
    if bytes_eq(line, "blob".as_bytes()) {
        let blob = parse_blob(cur, lenient)?;
        return Ok((Some(Event::Blob(blob)), false));
    }
    match strip_prefix(line, "commit ".as_bytes()) {
        Some(rest) => {
            let commit = parse_commit(cur, rest, lenient, known_marks)?;
            return Ok((Some(Event::Commit(commit)), false));
        },
        None => {},
    }
    match strip_prefix(line, "reset ".as_bytes()) {
        Some(rest) => {
            let reset = parse_reset(cur, rest);
            return Ok((Some(Event::Reset(reset)), false));
        },
        None => {},
    }
    match strip_prefix(line, "tag ".as_bytes()) {
        Some(rest) => {
            let tag = parse_tag(cur, rest, lenient, known_marks)?;
            return Ok((Some(Event::Tag(tag)), false));
        },
        None => {},
    }
    match strip_prefix(line, "ls ".as_bytes()) {
        Some(rest) => {
            let (dataref, path) = parse_ls_standalone(rest, lenient, known_marks, line_no)?;
            return Ok((Some(Event::Ls { dataref, path }), false));
        },
        None => {},
    }
    if bytes_eq(line, "checkpoint".as_bytes()) {
        return Ok((Some(Event::Checkpoint), false));
    }
    if bytes_eq(line, "done".as_bytes()) {
        return Ok((Some(Event::Done), true));
    }
    if lenient {
        return Ok((None, false));
    }
    let shown = utf8_lossy(line);
    Err(parse_error_with(line_no, "unsupported command: ", shown.as_str()))
}

/// The events read after `acc`.
pub open spec fn events_after(r: Result<Seq<EventModel>, PErr>, acc: Seq<EventModel>) -> Result<
    Seq<EventModel>,
    PErr,
> {
    match r {
        Ok(v) => Ok(acc + v),
        Err(e) => Err(e),
    }
}

/// Reads a whole fast-export stream into its events. Reading stops after
/// `done`; empty lines and `#` comment lines between commands are skipped.
/// Strict reading refuses anything the format does not allow; lenient
/// reading falls back where a fallback is defined and skips unknown commands.
#[verifier::rlimit(30)]
pub fn parse(input: &[u8], opts: &ParseOptions) -> (res: Result<Vec<Event>, ParseError>)
    requires
        input.len() < usize::MAX,
    ensures
        match parse_spec(input@, opts.lenient) {
            Ok(v) => res matches Ok(r) && events_view(r@) == v,
            Err(e) => res matches Err(er) && er.matches(e),
        },
{
    let lenient = opts.lenient;
    let mut cur = Cursor::new(input);
    let mut events: Vec<Event> = Vec::new();
    let mut known_marks: HashSet<u64> = HashSet::new();
    let ghost d = input@;
    loop
        invariant
            cur.wf(),
            cur.data == input,
            d == input@,
            lenient == opts.lenient,
            parse_spec(d, lenient) == events_after(
                events_spec(d, cur.pos as int, cur.line as int, known_marks@, lenient),
                events_view(events@),
            ),
        decreases input.len() - cur.pos,
    {
        if cur.is_eof() {
            assert(events_view(events@) + Seq::<EventModel>::empty() =~= events_view(events@));
            return Ok(events);
        }
        proof {
            lemma_line_end(d, cur.pos as int);
        }
        let ghost before = events_view(events@);
        let ghost k0 = known_marks@;
        let ghost c1 = cur;
        let (ev, stop) = parse_command(&mut cur, lenient, &known_marks)?;
        match ev {
            Some(e) => {
                match event_mark(&e) {
                    Some(m) => {
                        known_marks.insert(m);
                    },
                    None => {},
                }
                let ghost em = e@;
                events.push(e);
                proof {
                    assert(known_marks@ == with_mark(k0, defined_mark(em)));
                    assert(events_view(events@) =~= before.push(em));
                    if stop {
                        assert(events_spec(d, c1.pos as int, c1.line as int, k0, lenient) == Ok::<
                            Seq<EventModel>,
                            PErr,
                        >(seq![em]));
                        assert(before + seq![em] =~= events_view(events@));
                    } else {
                        assert(events_spec(d, c1.pos as int, c1.line as int, k0, lenient)
                            == events_after(
                            events_spec(d, cur.pos as int, cur.line as int, known_marks@, lenient),
                            seq![em],
                        ));
                        match events_spec(d, cur.pos as int, cur.line as int, known_marks@, lenient) {
                            Ok(rest) => {
                                assert(before + (seq![em] + rest) =~= events_view(events@) + rest);
                            },
                            Err(_) => {},
                        }
                    }
                }
                if stop {
                    return Ok(events);
                }
            },
            None => {
                proof {
                    assert(known_marks@ == k0);
                    assert(events_spec(d, c1.pos as int, c1.line as int, k0, lenient) == events_after(
                        events_spec(d, cur.pos as int, cur.line as int, known_marks@, lenient),
                        Seq::<EventModel>::empty(),
                    ));
                    match events_spec(d, cur.pos as int, cur.line as int, known_marks@, lenient) {
                        Ok(rest) => {
                            assert(before + (Seq::<EventModel>::empty() + rest) =~= before + rest);
                        },
                        Err(_) => {},
                    }
                }
            },
        }
    }
}


// ---------------------------------------------------------------------------
// The writer
// ---------------------------------------------------------------------------

/// A character that makes a path need quoting: a quote, a backslash, a space
/// (which would be taken for a field separator) or a control character.
pub open spec fn special_char(c: char) -> bool {
    c == '"' || c == '\\' || c == ' ' || (c as u32) < 0x20
}

pub open spec fn needs_quoting(s: Seq<char>) -> bool {
    exists|i: int| 0 <= i < s.len() && special_char(#[trigger] s[i])
}

/// How a character is written inside a quoted path.
pub open spec fn escape_path_char(c: char) -> Seq<char> {
    if c == '"' {
        seq!['\\', '"']
    } else if c == '\\' {
        seq!['\\', '\\']
    } else if c == '\n' {
        seq!['\\', 'n']
    } else if c == '\t' {
        seq!['\\', 't']
    } else if c == '\r' {
        seq!['\\', 'r']
    } else if (c as u32) < 0x20 {
        seq!['\\', '0', digit_char((c as u32 / 8) as nat), digit_char((c as u32 % 8) as nat)]
    } else {
        seq![c]
    }
}

pub open spec fn escape_path(s: Seq<char>) -> Seq<char>
    decreases s.len(),
{
    if s.len() == 0 {
        Seq::empty()
    } else {
        escape_path(s.drop_last()) + escape_path_char(s.last())
    }
}

/// A path as it is written: C-style quoted where it needs quoting.
pub open spec fn path_text(s: Seq<char>) -> Seq<char> {
    if needs_quoting(s) {
        seq!['"'] + escape_path(s) + seq!['"']
    } else {
        s
    }
}

pub open spec fn nl() -> Seq<u8> {
    seq![10u8]
}

pub open spec fn sp() -> Seq<u8> {
    seq![32u8]
}

/// `data <len>`, the payload and a newline.
pub open spec fn data_bytes(d: Seq<u8>) -> Seq<u8> {
    kw("data "@) + kw(decimal(d.len())) + nl() + d + nl()
}

pub open spec fn mark_line(m: Option<u64>) -> Seq<u8> {
    match m {
        Some(id) => kw("mark :"@) + kw(decimal(id as nat)) + nl(),
        None => Seq::empty(),
    }
}

/// `[Name ]<email> <unix-ts> <tz-offset>` and a newline.
pub open spec fn person_bytes(p: PersonModel) -> Seq<u8> {
    let name: Seq<u8> = match p.name {
        Some(n) => kw(n) + sp(),
        None => Seq::empty(),
    };
    name + seq![60u8] + kw(p.email) + kw("> "@) + kw(decimal_int(p.timestamp as int)) + sp() + kw(
        p.tz_offset,
    ) + nl()
}

pub open spec fn opt_person_line(key: Seq<char>, p: Option<PersonModel>) -> Seq<u8> {
    match p {
        Some(x) => kw(key) + person_bytes(x),
        None => Seq::empty(),
    }
}

pub open spec fn dataref_bytes(d: DataRefModel) -> Seq<u8> {
    match d {
        DataRefModel::Mark(id) => seq![58u8] + kw(decimal(id as nat)),
        DataRefModel::Sha1(s) => kw(s),
        DataRefModel::Inline(_) => kw("inline"@),
    }
}

/// The data block that follows an `inline` dataref.
pub open spec fn inline_data(d: DataRefModel) -> Seq<u8> {
    match d {
        DataRefModel::Inline(v) => data_bytes(v),
        _ => Seq::empty(),
    }
}

pub open spec fn change_bytes(c: FileChangeModel) -> Seq<u8> {
    match c {
        FileChangeModel::Modify { mode, dataref, path } => kw("M "@) + kw(mode) + sp() + dataref_bytes(
            dataref,
        ) + sp() + kw(path_text(path)) + nl() + inline_data(dataref),
        FileChangeModel::Delete { path } => kw("D "@) + kw(path_text(path)) + nl(),
        FileChangeModel::Copy { src, dst } => kw("C "@) + kw(path_text(src)) + sp() + kw(
            path_text(dst),
        ) + nl(),
        FileChangeModel::Rename { src, dst } => kw("R "@) + kw(path_text(src)) + sp() + kw(
            path_text(dst),
        ) + nl(),
        FileChangeModel::DeleteAll => kw("deleteall"@) + nl(),
        FileChangeModel::Ls { path } => kw("ls "@) + kw(path_text(path)) + nl(),
        FileChangeModel::Note { dataref, commitish } => kw("N "@) + dataref_bytes(dataref) + sp()
            + kw(commitish) + nl() + inline_data(dataref),
    }
}

pub open spec fn changes_bytes(cs: Seq<FileChangeModel>) -> Seq<u8>
    decreases cs.len(),
{
    if cs.len() == 0 {
        Seq::empty()
    } else {
        changes_bytes(cs.drop_last()) + change_bytes(cs.last())
    }
}

pub open spec fn merges_bytes(ms: Seq<Seq<char>>) -> Seq<u8>
    decreases ms.len(),
{
    if ms.len() == 0 {
        Seq::empty()
    } else {
        merges_bytes(ms.drop_last()) + kw("merge "@) + kw(ms.last()) + nl()
    }
}

/// An optional line of `key` and a value.
pub open spec fn opt_line(key: Seq<char>, v: Option<Seq<char>>) -> Seq<u8> {
    match v {
        Some(f) => kw(key) + kw(f) + nl(),
        None => Seq::empty(),
    }
}

/// A commit up to its `from` line.
pub open spec fn commit_head(c: CommitModel) -> Seq<u8> {
    kw("commit "@) + kw(c.branch) + nl() + mark_line(c.mark) + opt_person_line("author "@, c.author)
        + kw("committer "@) + person_bytes(c.committer) + data_bytes(c.message) + opt_line(
        "from "@,
        c.from,
    )
}

pub open spec fn commit_bytes(c: CommitModel) -> Seq<u8> {
    commit_head(c) + merges_bytes(c.merges) + changes_bytes(c.file_changes) + nl()
}

pub open spec fn tag_bytes(t: TagModel) -> Seq<u8> {
    kw("tag "@) + kw(t.name) + nl() + mark_line(t.mark) + kw("from "@) + kw(t.from) + nl()
        + opt_person_line("tagger "@, t.tagger) + data_bytes(t.message)
}

/// The text of one event in the stream.
pub open spec fn event_bytes(e: EventModel) -> Seq<u8> {
    match e {
        EventModel::Blob { mark, data } => kw("blob"@) + nl() + mark_line(mark) + data_bytes(data),
        EventModel::Commit(c) => commit_bytes(c),
        EventModel::Reset { branch, from } => kw("reset "@) + kw(branch) + nl() + opt_line(
            "from "@,
            from,
        ),
        EventModel::Tag(t) => tag_bytes(t),
        EventModel::Ls { dataref, path } => kw("ls "@) + kw(dataref) + sp() + kw(path_text(path))
            + nl(),
        EventModel::Checkpoint => kw("checkpoint"@) + nl(),
        EventModel::Done => kw("done"@) + nl(),
    }
}

/// The stream written for a sequence of events.
pub open spec fn write_spec(es: Seq<EventModel>) -> Seq<u8>
    decreases es.len(),
{
    if es.len() == 0 {
        Seq::empty()
    } else {
        write_spec(es.drop_last()) + event_bytes(es.last())
    }
}

fn write_decimal(out: &mut Vec<u8>, n: u64)
    ensures
        final(out)@ == old(out)@ + kw(decimal(n as nat)),
{
    let mut s = String::new();
    push_decimal(&mut s, n);
    assert(s@ =~= decimal(n as nat));
    push_str_bytes(out, s.as_str());
}

fn write_decimal_i64(out: &mut Vec<u8>, n: i64)
    ensures
        final(out)@ == old(out)@ + kw(decimal_int(n as int)),
{
    let mut s = String::new();
    push_decimal_i64(&mut s, n);
    assert(s@ =~= decimal_int(n as int));
    push_str_bytes(out, s.as_str());
}

fn write_data(out: &mut Vec<u8>, data: &[u8])
    ensures
        final(out)@ == old(out)@ + data_bytes(data@),
{
    push_str_bytes(out, "data ");
    write_decimal(out, data.len() as u64);
    out.push(10);
    push_bytes(out, data);
    out.push(10);
    assert(out@ =~= old(out)@ + data_bytes(data@));
}

fn write_mark_line(out: &mut Vec<u8>, mark: Option<u64>)
    ensures
        final(out)@ == old(out)@ + mark_line(mark),
{
    match mark {
        Some(id) => {
            push_str_bytes(out, "mark :");
            write_decimal(out, id);
            out.push(10);
            assert(out@ =~= old(out)@ + mark_line(mark));
        },
        None => {
            assert(out@ =~= old(out)@ + mark_line(mark));
        },
    }
}

fn write_person(out: &mut Vec<u8>, person: &PersonStamp)
    ensures
        final(out)@ == old(out)@ + person_bytes(person@),
{
    match &person.name {
        Some(name) => {
            push_str_bytes(out, name.as_str());
            out.push(32);
        },
        None => {},
    }
    out.push(60);
    push_str_bytes(out, person.email.as_str());
    push_str_bytes(out, "> ");
    write_decimal_i64(out, person.timestamp);
    out.push(32);
    push_str_bytes(out, person.tz_offset.as_str());
    out.push(10);
    assert(out@ =~= old(out)@ + person_bytes(person@));
}

fn is_special_char(c: char) -> (b: bool)
    ensures
        b == special_char(c),
{
    c == '"' || c == '\\' || c == ' ' || (c as u32) < 0x20
}

fn write_escaped_path_char(c: char, out: &mut String)
    ensures
        final(out)@ == old(out)@ + escape_path_char(c),
{
    if c == '"' {
        push_char(out, '\\');
        push_char(out, '"');
    } else if c == '\\' {
        push_char(out, '\\');
        push_char(out, '\\');
    } else if c == '\n' {
        push_char(out, '\\');
        push_char(out, 'n');
    } else if c == '\t' {
        push_char(out, '\\');
        push_char(out, 't');
    } else if c == '\r' {
        push_char(out, '\\');
        push_char(out, 'r');
    } else if (c as u32) < 0x20 {
        let u = c as u32;
        push_char(out, '\\');
        push_char(out, '0');
        push_char(out, char_from_digit(48 + u / 8));
        push_char(out, char_from_digit(48 + u % 8));
    } else {
        push_char(out, c);
    }
    assert(out@ =~= old(out)@ + escape_path_char(c));
}

/// A path as it is written: quoted, with C-style escapes, where it holds a
/// quote, a backslash, a space or a control character.
fn quote_path_if_needed(path: &str) -> (out: String)
    ensures
        out@ == path_text(path@),
{
    let mut needs = false;
    for c in it: path.chars()
        invariant
            it.seq() == path@,
            needs == exists|k: int| 0 <= k < it.index() && special_char(#[trigger] path@[k]),
    {
        let ghost i = it.index();
        if is_special_char(c) {
            needs = true;
        }
        proof {
            if needs {
                if special_char(c) {
                    assert(special_char(path@[i as int]));
                }
            } else {
                assert forall|k: int| 0 <= k < i + 1 implies !special_char(#[trigger] path@[k]) by {
                    if k < i {
                        assert(!(0 <= k < i && special_char(path@[k])));
                    }
                }
            }
        }
    }
    if !needs {
        return owned(path);
    }
    let mut out = String::new();
    push_char(&mut out, '"');
    for c in it: path.chars()
        invariant
            it.seq() == path@,
            out@ == seq!['"'] + escape_path(path@.take(it.index() as int)),
    {
        let ghost i = it.index();
        proof {
            assert(path@.take(i + 1).drop_last() =~= path@.take(i as int));
        }
        write_escaped_path_char(c, &mut out);
    }
    proof {
        assert(path@.take(path@.len() as int) =~= path@);
    }
    push_char(&mut out, '"');
    out
}


fn write_path(out: &mut Vec<u8>, path: &str)
    ensures
        final(out)@ == old(out)@ + kw(path_text(path@)),
{
    let q = quote_path_if_needed(path);
    push_str_bytes(out, q.as_str());
}

fn write_dataref(out: &mut Vec<u8>, dataref: &DataRef)
    ensures
        final(out)@ == old(out)@ + dataref_bytes(dataref@),
{
    match dataref {
        DataRef::Mark(id) => {
            out.push(58);
            write_decimal(out, *id);
        },
        DataRef::Sha1(sha) => push_str_bytes(out, sha.as_str()),
        DataRef::Inline(_) => push_str_bytes(out, "inline"),
    }
    assert(out@ =~= old(out)@ + dataref_bytes(dataref@));
}

fn write_inline_data(out: &mut Vec<u8>, dataref: &DataRef)
    ensures
        final(out)@ == old(out)@ + inline_data(dataref@),
{
    match dataref {
        DataRef::Inline(data) => write_data(out, data.as_slice()),
        _ => {
            assert(out@ =~= old(out)@ + inline_data(dataref@));
        },
    }
}

fn write_file_change(out: &mut Vec<u8>, change: &FileChange)
    ensures
        final(out)@ == old(out)@ + change_bytes(change@),
{
    match change {
        FileChange::Modify(modify) => {
            push_str_bytes(out, "M ");
            push_str_bytes(out, modify.mode.as_str());
            out.push(32);
            write_dataref(out, &modify.dataref);
            out.push(32);
            write_path(out, modify.path.as_str());
            out.push(10);
            write_inline_data(out, &modify.dataref);
        },
        FileChange::Delete { path } => {
            push_str_bytes(out, "D ");
            write_path(out, path.as_str());
            out.push(10);
        },
        FileChange::Copy { src, dst } => {
            push_str_bytes(out, "C ");
            write_path(out, src.as_str());
            out.push(32);
            write_path(out, dst.as_str());
            out.push(10);
        },
        FileChange::Rename { src, dst } => {
            push_str_bytes(out, "R ");
            write_path(out, src.as_str());
            out.push(32);
            write_path(out, dst.as_str());
            out.push(10);
        },
        FileChange::DeleteAll => {
            push_str_bytes(out, "deleteall");
            out.push(10);
        },
        FileChange::Ls { path } => {
            push_str_bytes(out, "ls ");
            write_path(out, path.as_str());
            out.push(10);
        },
        FileChange::Note(note) => {
            push_str_bytes(out, "N ");
            write_dataref(out, &note.dataref);
            out.push(32);
            push_str_bytes(out, note.commitish.as_str());
            out.push(10);
            write_inline_data(out, &note.dataref);
        },
    }
    assert(out@ =~= old(out)@ + change_bytes(change@));
}

fn write_opt_person(out: &mut Vec<u8>, key: &str, person: &Option<PersonStamp>)
    ensures
        final(out)@ == old(out)@ + opt_person_line(key@, opt_person_view(*person)),
{
    match person {
        Some(p) => {
            push_str_bytes(out, key);
            write_person(out, p);
            assert(out@ =~= old(out)@ + opt_person_line(key@, opt_person_view(*person)));
        },
        None => {
            assert(out@ =~= old(out)@ + opt_person_line(key@, opt_person_view(*person)));
        },
    }
}

fn write_opt_line(out: &mut Vec<u8>, key: &str, value: &Option<String>)
    ensures
        final(out)@ == old(out)@ + opt_line(key@, opt_str_view(*value)),
{
    match value {
        Some(v) => {
            push_str_bytes(out, key);
            push_str_bytes(out, v.as_str());
            out.push(10);
            assert(out@ =~= old(out)@ + opt_line(key@, opt_str_view(*value)));
        },
        None => {
            assert(out@ =~= old(out)@ + opt_line(key@, opt_str_view(*value)));
        },
    }
}

fn write_commit_head(out: &mut Vec<u8>, commit: &Commit)
    ensures
        final(out)@ == old(out)@ + commit_head(commit@),
{
    push_str_bytes(out, "commit ");
    push_str_bytes(out, commit.branch.as_str());
    out.push(10);
    write_mark_line(out, commit.mark);
    write_opt_person(out, "author ", &commit.author);
    push_str_bytes(out, "committer ");
    write_person(out, &commit.committer);
    write_data(out, commit.message.as_slice());
    write_opt_line(out, "from ", &commit.from);
    assert(out@ =~= old(out)@ + commit_head(commit@));
}

fn write_merges(out: &mut Vec<u8>, merges: &Vec<String>)
    ensures
        final(out)@ == old(out)@ + merges_bytes(strings_view(merges@)),
{
    let ghost head = out@;
    let ghost ms = strings_view(merges@);
    let mut i: usize = 0;
    while i < merges.len()
        invariant
            i <= merges.len(),
            ms == strings_view(merges@),
            out@ == head + merges_bytes(ms.take(i as int)),
        decreases merges.len() - i,
    {
        proof {
            assert(ms.take(i + 1).drop_last() =~= ms.take(i as int));
        }
        push_str_bytes(out, "merge ");
        push_str_bytes(out, merges[i].as_str());
        out.push(10);
        i = i + 1;
        assert(out@ =~= head + merges_bytes(ms.take(i as int)));
    }
    assert(ms.take(ms.len() as int) =~= ms);
}

fn write_file_changes(out: &mut Vec<u8>, changes: &Vec<FileChange>)
    ensures
        final(out)@ == old(out)@ + changes_bytes(changes_view(changes@)),
{
    let ghost mid = out@;
    let ghost cs = changes_view(changes@);
    let mut j: usize = 0;
    while j < changes.len()
        invariant
            j <= changes.len(),
            cs == changes_view(changes@),
            out@ == mid + changes_bytes(cs.take(j as int)),
        decreases changes.len() - j,
    {
        proof {
            assert(cs.take(j + 1).drop_last() =~= cs.take(j as int));
        }
        write_file_change(out, &changes[j]);
        j = j + 1;
    }
    assert(cs.take(cs.len() as int) =~= cs);
}

fn write_commit(out: &mut Vec<u8>, commit: &Commit)
    ensures
        final(out)@ == old(out)@ + commit_bytes(commit@),
{
    write_commit_head(out, commit);
    write_merges(out, &commit.merges);
    write_file_changes(out, &commit.file_changes);
    out.push(10);
    assert(out@ =~= old(out)@ + commit_bytes(commit@));
}

fn write_tag(out: &mut Vec<u8>, tag: &Tag)
    ensures
        final(out)@ == old(out)@ + tag_bytes(tag@),
{
    push_str_bytes(out, "tag ");
    push_str_bytes(out, tag.name.as_str());
    out.push(10);
    write_mark_line(out, tag.mark);
    push_str_bytes(out, "from ");
    push_str_bytes(out, tag.from.as_str());
    out.push(10);
    write_opt_person(out, "tagger ", &tag.tagger);
    write_data(out, tag.message.as_slice());
    assert(out@ =~= old(out)@ + tag_bytes(tag@));
}

fn write_event(out: &mut Vec<u8>, event: &Event)
    ensures
        final(out)@ == old(out)@ + event_bytes(event@),
{
    match event {
        Event::Blob(blob) => {
            push_str_bytes(out, "blob");
            out.push(10);
            write_mark_line(out, blob.mark);
            write_data(out, blob.data.as_slice());
        },
        Event::Commit(commit) => write_commit(out, commit),
        Event::Reset(reset) => {
            push_str_bytes(out, "reset ");
            push_str_bytes(out, reset.branch.as_str());
            out.push(10);
            write_opt_line(out, "from ", &reset.from);
        },
        Event::Tag(tag) => write_tag(out, tag),
        Event::Ls { dataref, path } => {
            push_str_bytes(out, "ls ");
            push_str_bytes(out, dataref.as_str());
            out.push(32);
            write_path(out, path.as_str());
            out.push(10);
        },
        Event::Checkpoint => {
            push_str_bytes(out, "checkpoint");
            out.push(10);
        },
        Event::Done => {
            push_str_bytes(out, "done");
            out.push(10);
        },
    }
    assert(out@ =~= old(out)@ + event_bytes(event@));
}

/// Writes events as a fast-import stream. Data is always written in the
/// exact byte count form.
pub fn write(events: &[Event]) -> (out: Vec<u8>)
    ensures
        out@ == write_spec(events_view(events@)),
{
    let mut out: Vec<u8> = Vec::new();
    let ghost es = events_view(events@);
    let mut i: usize = 0;
    while i < events.len()
        invariant
            i <= events.len(),
            es == events_view(events@),
            out@ == write_spec(es.take(i as int)),
        decreases events.len() - i,
    {
        proof {
            assert(es.take(i + 1).drop_last() =~= es.take(i as int));
        }
        write_event(&mut out, &events[i]);
        i = i + 1;
    }
    assert(es.take(es.len() as int) =~= es);
    out
}


// ---------------------------------------------------------------------------
// What reading guarantees
// ---------------------------------------------------------------------------

proof fn lemma_default_tz_valid()
    ensures
        valid_tz("+0000"@),
{
    reveal_strlit("+0000");
    let s = "+0000"@;
    assert(s.len() == 5);
    assert(vstd::utf8::is_ascii_chars(s));
    vstd::utf8::is_ascii_chars_encode_utf8(s);
    let b = encode_utf8(s);
    assert(b[0] == 43);
    assert(forall|i: int| 1 <= i < 5 ==> #[trigger] b[i] == 48);
}

/// A person stamp that reading gives has a valid time zone offset, in both
/// modes: lenient reading puts `+0000` in place of a bad one.
proof fn lemma_person_tz_valid(b: Seq<u8>, line: int, lenient: bool)
    ensures
        person_spec(b, line, lenient) matches Ok(p) ==> valid_tz(p.tz_offset),
{
    reveal(person_spec);
    lemma_default_tz_valid();
}

proof fn lemma_opt_person_tz_valid(d: Seq<u8>, p: int, l: int, key: Seq<u8>, lenient: bool)
    ensures
        opt_person_spec(d, p, l, key, lenient) matches Ok((Some(x), _, _)) ==> valid_tz(x.tz_offset),
{
    lemma_person_tz_valid(line_rest(d, p, key), l, lenient);
}

proof fn lemma_command_stamps(d: Seq<u8>, p: int, l: int, known: Set<u64>, lenient: bool)
    ensures
        command_spec(d, p, l, known, lenient) matches Ok((Some(e), _, _, _, _)) ==> stamps_valid(e),
{
    reveal(tag_spec);
    reveal(commit_spec);
    reveal(blob_spec);
    reveal(command_spec);
    let line = line_at(d, p);
    let p1 = p + line_adv(d, p);
    let l1 = l + 1;
    if has_prefix(line, kw("commit "@)) {
        let branch = line_rest(d, p, kw("commit "@));
        match opt_mark_spec(d, p1, l1) {
            Ok((mark, a1, k1)) => {
                lemma_opt_person_tz_valid(d, p1 + a1, l1 + k1, kw("author "@), lenient);
                match opt_person_spec(d, p1 + a1, l1 + k1, kw("author "@), lenient) {
                    Ok((author, a2, k2)) => {
                        let p2 = p1 + a1 + a2;
                        let l2 = l1 + k1 + k2;
                        match required_line(d, p2, l2, kw("committer "@), "committer"@) {
                            Ok(crest) => lemma_person_tz_valid(crest, l2, lenient),
                            Err(_) => {},
                        }
                    },
                    Err(_) => {},
                }
            },
            Err(_) => {},
        }
    } else if has_prefix(line, kw("tag "@)) {
        match opt_mark_spec(d, p1, l1) {
            Ok((mark, a1, k1)) => {
                let pf = p1 + a1;
                let lf = l1 + k1;
                lemma_opt_person_tz_valid(d, pf + line_adv(d, pf), lf + 1, kw("tagger "@), lenient);
            },
            Err(_) => {},
        }
    }
}

/// Every event that reading a stream gives has valid person stamps.
pub proof fn lemma_events_stamps(d: Seq<u8>, p: int, l: int, known: Set<u64>, lenient: bool)
    ensures
        events_spec(d, p, l, known, lenient) matches Ok(es) ==> forall|i: int|
            0 <= i < es.len() ==> stamps_valid(#[trigger] es[i]),
    decreases remaining(d, p),
{
    if 0 <= p < d.len() {
        lemma_line_end(d, p);
        lemma_command_stamps(d, p, l, known, lenient);
        match command_spec(d, p, l, known, lenient) {
            Ok((ev, known2, x, k, stop)) => {
                let a = line_adv(d, p);
                if !stop {
                    lemma_events_stamps(d, p + a + x, l + 1 + k, known2, lenient);
                }
                let here: Seq<EventModel> = match ev {
                    Some(e) => seq![e],
                    None => Seq::empty(),
                };
                match events_spec(d, p, l, known, lenient) {
                    Ok(es) => {
                        assert forall|i: int| 0 <= i < es.len() implies stamps_valid(#[trigger] es[i]) by {
                            if i < here.len() {
                                assert(es[i] == here[i]);
                            } else {
                                match events_spec(d, p + a + x, l + 1 + k, known2, lenient) {
                                    Ok(rest) => {
                                        assert(es == here + rest);
                                        assert(es[i] == rest[i - here.len()]);
                                    },
                                    Err(_) => {},
                                }
                            }
                        }
                    },
                    Err(_) => {},
                }
            },
            Err(_) => {},
        }
    }
}

} // verus!
