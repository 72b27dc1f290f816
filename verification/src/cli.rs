//! The two conversions of the command line tool, from input bytes to output
//! bytes, and the `--redact-author` option.
use vstd::prelude::*;
use vstd::utf8::*;
use crate::text::{
    owned, push_str, push_decimal, push_bytes, push_str_bytes, chars_of, string_from_range,
    trim, trim_bounds, decimal, utf8_str, lemma_encode_concat, lemma_trim_unpadded, is_ws,
};
use crate::fields::{rfind_char, lemma_rfind_char, utf8};
use crate::json::{parse, parse_spec as json_parse_spec, json_text, Json, free_of, lemma_json_text_no_newline, lemma_json_roundtrip, entries_text};
use crate::model::{Event, EventModel, events_view, event_json, event_from_json, redact_spec, redact_authors, result_view, opt_str_view, stamps_valid, lemma_event_json_roundtrip, lemma_redact_keeps_times, event_times};
use crate::fastexport::{ParseOptions, parse_spec, write_spec, lemma_events_stamps};
use crate::roundtrip::{events_ok, lemma_write_then_parse};

verus! {

broadcast use vstd::seq_lib::group_seq_properties;

// ---------------------------------------------------------------------------
// --redact-author
// ---------------------------------------------------------------------------

/// The index of the first character `c` of `s` at or after `i`.
pub open spec fn find_char(s: Seq<char>, c: char, i: int) -> Option<int>
    decreases s.len() - i,
{
    if i < 0 || i >= s.len() {
        None
    } else if s[i] == c {
        Some(i)
    } else {
        find_char(s, c, i + 1)
    }
}

pub proof fn lemma_find_char(s: Seq<char>, c: char, i: int)
    requires
        0 <= i,
    ensures
        find_char(s, c, i) matches Some(k) ==> i <= k < s.len() && s[k] == c,
    decreases s.len() - i,
{
    if i < s.len() && s[i] != c {
        lemma_find_char(s, c, i + 1);
    }
}

fn find_char_exec(s: &[char], c: char) -> (res: Option<usize>)
    ensures
        match find_char(s@, c, 0) {
            Some(k) => res == Some(k as usize),
            None => res is None,
        },
{
    let mut j: usize = 0;
    while j < s.len()
        invariant
            find_char(s@, c, 0) == find_char(s@, c, j as int),
        decreases s.len() - j,
    {
        if s[j] == c {
            return Some(j);
        }
        j = j + 1;
    }
    None
}

fn rfind_char_exec(s: &[char], c: char) -> (res: Option<usize>)
    ensures
        match rfind_char(s@, c, s@.len() as int) {
            Some(k) => res == Some(k as usize),
            None => res is None,
        },
{
    let mut j = s.len();
    while j > 0
        invariant
            j <= s.len(),
            rfind_char(s@, c, s@.len() as int) == rfind_char(s@, c, j as int),
        decreases j,
    {
        if s[j - 1] == c {
            return Some(j - 1);
        }
        j = j - 1;
    }
    None
}

/// What `--redact-author=<spec>` asks for: `Name <email>` or `<email>`, the
/// name taken before the first `<`, the email between it and the last `>`,
/// both trimmed. The email must not be empty.
pub open spec fn redact_author_spec(s: Seq<char>) -> Result<(Option<Seq<char>>, Seq<char>), Seq<char>> {
    let open = find_char(s, '<', 0);
    let close = rfind_char(s, '>', s.len() as int);
    if open is Some && close is Some && open->0 < close->0 {
        let name = trim(s.subrange(0, open->0));
        let email = trim(s.subrange(open->0 + 1, close->0));
        if email.len() == 0 {
            Err("--redact-author email must not be empty"@)
        } else {
            Ok(
                (
                    if name.len() == 0 {
                        None
                    } else {
                        Some(name)
                    },
                    email,
                ),
            )
        }
    } else {
        Err("--redact-author value must look like \"Name <email>\": "@ + s)
    }
}

/// Reads the value of `--redact-author`.
pub fn parse_redact_author(spec: &str) -> (res: Result<(Option<String>, String), String>)
    ensures
        match redact_author_spec(spec@) {
            Ok((name, email)) => res matches Ok((n, e)) && opt_str_view(n) == name && e@ == email,
            Err(m) => res matches Err(x) && x@ == m,
        },
{
    let cs = chars_of(spec);
    let n = cs.len();
    let open = find_char_exec(cs.as_slice(), '<');
    let close = rfind_char_exec(cs.as_slice(), '>');
    proof {
        lemma_find_char(cs@, '<', 0);
        lemma_rfind_char(cs@, '>', n as int);
    }
    match (open, close) {
        (Some(o), Some(c)) => {
            if o < c {
                let (na, nb) = trim_bounds(&cs.as_slice()[0..o]);
                let (ea, eb) = trim_bounds(&cs.as_slice()[o + 1..c]);
                if ea == eb {
                    return Err(owned("--redact-author email must not be empty"));
                }
                let name = if na == nb {
                    None
                } else {
                    Some(string_from_range(&cs.as_slice()[0..o], na, nb))
                };
                let email = string_from_range(&cs.as_slice()[o + 1..c], ea, eb);
                return Ok((name, email));
            }
        },
        _ => {},
    }
    let mut m = owned("--redact-author value must look like \"Name <email>\": ");
    push_str(&mut m, spec);
    Err(m)
}

// ---------------------------------------------------------------------------
// Redaction of a whole stream
// ---------------------------------------------------------------------------

/// The events with the identity of `redact` put in, if it is given.
pub open spec fn maybe_redact(es: Seq<EventModel>, redact: Option<(Option<Seq<char>>, Seq<char>)>) -> Seq<EventModel> {
    match redact {
        Some((name, email)) => es.map_values(|e: EventModel| redact_spec(e, name, email)),
        None => es,
    }
}

pub open spec fn redact_view(r: Option<&(Option<String>, String)>) -> Option<(Option<Seq<char>>, Seq<char>)> {
    match r {
        Some(p) => Some((opt_str_view(p.0), p.1@)),
        None => None,
    }
}

fn apply_redaction(events: &mut Vec<Event>, redact_author: Option<&(Option<String>, String)>)
    ensures
        events_view(final(events)@) == maybe_redact(events_view(old(events)@), redact_view(redact_author)),
{
    match redact_author {
        Some(pair) => {
            let ghost before = events@;
            redact_authors(events.as_mut_slice(), &pair.0, pair.1.as_str());
            assert(events_view(events@) =~= maybe_redact(events_view(before), redact_view(redact_author)));
        },
        None => {},
    }
}

// ---------------------------------------------------------------------------
// to-jsonl
// ---------------------------------------------------------------------------

/// The compact JSON text of an event's object.
#[verifier::opaque]
pub open spec fn event_line(e: EventModel) -> Seq<char> {
    json_text(event_json(e))
}

/// One JSON object per event, each followed by a newline.
pub open spec fn jsonl_bytes(es: Seq<EventModel>) -> Seq<u8>
    decreases es.len(),
{
    if es.len() == 0 {
        Seq::empty()
    } else {
        jsonl_bytes(es.drop_last()) + encode_utf8(event_line(es.last())) + seq![10u8]
    }
}

/// How an error of the stream reader is shown: `line <n>: <message>`.
pub open spec fn line_error(line: int, message: Seq<char>) -> Seq<char> {
    "line "@ + decimal(line as nat) + ": "@ + message
}

pub open spec fn to_jsonl_spec(input: Seq<u8>, lenient: bool, redact: Option<(Option<Seq<char>>, Seq<char>)>) -> Result<Seq<u8>, Seq<char>> {
    match parse_spec(input, lenient) {
        Err(e) => Err(line_error(e.line, e.message)),
        Ok(es) => Ok(jsonl_bytes(maybe_redact(es, redact))),
    }
}

/// Converts a fast-export stream into JSON Lines.
pub fn to_jsonl(input: &[u8], lenient: bool, redact_author: Option<&(Option<String>, String)>) -> (res: Result<Vec<u8>, String>)
    requires
        input.len() < usize::MAX,
    ensures
        match to_jsonl_spec(input@, lenient, redact_view(redact_author)) {
            Ok(b) => res matches Ok(r) && r@ == b,
            Err(m) => res matches Err(x) && x@ == m,
        },
{
    let opts = ParseOptions { lenient };
    let mut events = match crate::fastexport::parse(input, &opts) {
        Ok(v) => v,
        Err(e) => return Err(e.to_string()),
    };
    apply_redaction(&mut events, redact_author);
    let ghost es = events_view(events@);
    let mut out: Vec<u8> = Vec::new();
    let mut i: usize = 0;
    while i < events.len()
        invariant
            i <= events.len(),
            es == events_view(events@),
            out@ == jsonl_bytes(es.take(i as int)),
        decreases events.len() - i,
    {
        proof {
            assert(es.take(i + 1).drop_last() =~= es.take(i as int));
            reveal(event_line);
        }
        let text = events[i].to_json().to_compact_string();
        push_str_bytes(&mut out, text.as_str());
        out.push(10);
        i = i + 1;
    }
    assert(es.take(es.len() as int) =~= es);
    Ok(out)
}

// ---------------------------------------------------------------------------
// to-fastexport
// ---------------------------------------------------------------------------

/// The index of the newline that ends the line of `s` starting at `p`, or the end.
pub open spec fn text_line_end(s: Seq<char>, p: int) -> int
    decreases s.len() - p,
{
    if p < 0 || p >= s.len() || s[p] == '\n' {
        p
    } else {
        text_line_end(s, p + 1)
    }
}

pub proof fn lemma_text_line_end(s: Seq<char>, p: int)
    requires
        0 <= p <= s.len(),
    ensures
        p <= text_line_end(s, p) <= s.len(),
        text_line_end(s, p) < s.len() ==> s[text_line_end(s, p)] == '\n',
    decreases s.len() - p,
{
    if p < s.len() && s[p] != '\n' {
        lemma_text_line_end(s, p + 1);
    }
}

/// One line of JSON Lines, trimmed, numbered `n`: no event when it is blank,
/// else the event its JSON object gives, or the error with the line number.
#[verifier::opaque]
pub open spec fn jsonl_line(t: Seq<char>, n: int, lenient: bool) -> Result<Option<EventModel>, Seq<char>> {
    if t.len() == 0 {
        Ok(None)
    } else {
        match json_parse_spec(t) {
            Err(m) => Err(line_error(n, m)),
            Ok(v) => match event_from_json(v, lenient) {
                Err(m) => Err(line_error(n, m)),
                Ok(ev) => Ok(Some(ev)),
            },
        }
    }
}

/// Where the line after the one at `p` starts.
pub open spec fn next_line(s: Seq<char>, p: int) -> int {
    let e = text_line_end(s, p);
    if e < s.len() {
        e + 1
    } else {
        s.len() as int
    }
}

/// The events of the JSON Lines text `s` from position `p` on, `n` being the
/// number of that line. Blank lines are skipped; an error names its line.
pub open spec fn jsonl_events(s: Seq<char>, p: int, n: nat, lenient: bool) -> Result<Seq<EventModel>, Seq<char>>
    decreases s.len() - p,
{
    if p < 0 || p >= s.len() {
        Ok(Seq::empty())
    } else {
        proof {
            lemma_text_line_end(s, p);
        }
        let q = next_line(s, p);
        match jsonl_line(trim(s.subrange(p, text_line_end(s, p))), n as int, lenient) {
            Err(m) => Err(m),
            Ok(None) => jsonl_events(s, q, n + 1, lenient),
            Ok(Some(ev)) => match jsonl_events(s, q, n + 1, lenient) {
                Ok(evs) => Ok(seq![ev] + evs),
                Err(m) => Err(m),
            },
        }
    }
}

/// Reads one trimmed line of JSON Lines.
fn parse_jsonl_line(line: &[char], n: usize, lenient: bool) -> (res: Result<Option<Event>, String>)
    ensures
        match jsonl_line(trim(line@), n as int, lenient) {
            Ok(None) => res matches Ok(None),
            Ok(Some(ev)) => res matches Ok(Some(r)) && r@ == ev,
            Err(m) => res matches Err(x) && x@ == m,
        },
{
    proof {
        reveal(jsonl_line);
    }
    let (a, b) = trim_bounds(line);
    if a == b {
        return Ok(None);
    }
    let trimmed = string_from_range(line, a, b);
    let value = match parse(trimmed.as_str()) {
        Ok(v) => v,
        Err(m) => return Err(line_error_exec(n, m.as_str())),
    };
    match Event::from_json(&value, lenient) {
        Ok(ev) => Ok(Some(ev)),
        Err(m) => Err(line_error_exec(n, m.as_str())),
    }
}

pub open spec fn to_fastexport_spec(input: Seq<u8>, lenient: bool, redact: Option<(Option<Seq<char>>, Seq<char>)>) -> Result<Seq<u8>, Seq<char>> {
    match utf8(input) {
        None => Err("input is not valid UTF-8"@),
        Some(text) => match jsonl_events(text, 0, 1, lenient) {
            Err(m) => Err(m),
            Ok(es) => Ok(write_spec(maybe_redact(es, redact))),
        },
    }
}

/// `line <n>: <message>` as a string.
fn line_error_exec(n: usize, message: &str) -> (s: String)
    ensures
        s@ == line_error(n as int, message@),
{
    let mut s = owned("line ");
    push_decimal(&mut s, n as u64);
    push_str(&mut s, ": ");
    push_str(&mut s, message);
    s
}

/// The events after `acc`, or the first error.
pub open spec fn jsonl_after(r: Result<Seq<EventModel>, Seq<char>>, acc: Seq<EventModel>) -> Result<Seq<EventModel>, Seq<char>> {
    match r {
        Ok(v) => Ok(acc + v),
        Err(m) => Err(m),
    }
}

/// Converts JSON Lines back into a fast-import stream.
pub fn to_fastexport(input: &[u8], lenient: bool, redact_author: Option<&(Option<String>, String)>) -> (res: Result<Vec<u8>, String>)
    ensures
        match to_fastexport_spec(input@, lenient, redact_view(redact_author)) {
            Ok(b) => res matches Ok(r) && r@ == b,
            Err(m) => res matches Err(x) && x@ == m,
        },
{
    let text = match utf8_str(input) {
        Some(t) => t,
        None => return Err(owned("input is not valid UTF-8")),
    };
    let cs = chars_of(text);
    let ghost s = cs@;
    let len = cs.len();
    let mut events: Vec<Event> = Vec::new();
    let mut p: usize = 0;
    let mut k: usize = 0;
    while p < len
        invariant
            utf8(input@) == Some(s),
            s == cs@,
            len == cs.len(),
            p <= len,
            k <= p,
            jsonl_events(s, 0, 1, lenient) == jsonl_after(
                jsonl_events(s, p as int, (k + 1) as nat, lenient),
                events_view(events@),
            ),
        decreases len - p,
    {
        proof {
            lemma_text_line_end(s, p as int);
        }
        let mut e = p;
        while e < len && cs[e] != '\n'
            invariant
                p <= e <= len,
                len == cs.len(),
                s == cs@,
                text_line_end(s, p as int) == text_line_end(s, e as int),
            decreases len - e,
        {
            e = e + 1;
        }
        let ghost before = events_view(events@);
        let ghost n = (k + 1) as nat;
        assert(text_line_end(s, p as int) == e);
        let line = &cs.as_slice()[p..e];
        assert(line@ == s.subrange(p as int, e as int));
        let parsed = parse_jsonl_line(line, k + 1, lenient);
        let got = match parsed {
            Ok(x) => x,
            Err(m) => {
                proof {
                    lemma_text_line_end(s, p as int);
                }
                return Err(m);
            },
        };
        match got {
            Some(event) => {
                let ghost em = event@;
                events.push(event);
                proof {
                    assert(events_view(events@) =~= before.push(em));
                    match jsonl_events(s, next_line(s, p as int), n + 1, lenient) {
                        Ok(rest) => {
                            assert(before + (seq![em] + rest) =~= events_view(events@) + rest);
                        },
                        Err(_) => {},
                    }
                }
            },
            None => {},
        }
        if e < len {
            p = e + 1;
        } else {
            p = len;
        }
        k = k + 1;
    }
    assert(events_view(events@) + Seq::<EventModel>::empty() =~= events_view(events@));
    apply_redaction(&mut events, redact_author);
    Ok(crate::fastexport::write(events.as_slice()))
}


// ---------------------------------------------------------------------------
// Going through JSON Lines loses nothing
// ---------------------------------------------------------------------------

/// The characters of the JSON Lines written for events.
pub open spec fn jsonl_chars(es: Seq<EventModel>) -> Seq<char>
    decreases es.len(),
{
    if es.len() == 0 {
        Seq::empty()
    } else {
        jsonl_chars(es.drop_last()) + event_line(es.last()) + seq!['\n']
    }
}

proof fn lemma_newline_bytes()
    ensures
        encode_utf8(seq!['\n']) == seq![10u8],
{
    let nl = seq!['\n'];
    assert(vstd::utf8::is_ascii_chars(nl));
    vstd::utf8::is_ascii_chars_encode_utf8(nl);
    assert(encode_utf8(nl) =~= seq![10u8]);
}

proof fn lemma_jsonl_bytes_chars(es: Seq<EventModel>)
    ensures
        jsonl_bytes(es) == encode_utf8(jsonl_chars(es)),
    decreases es.len(),
{
    if es.len() > 0 {
        lemma_jsonl_bytes_chars(es.drop_last());
        let a = jsonl_chars(es.drop_last());
        let t = event_line(es.last());
        lemma_encode_concat(a, t);
        lemma_encode_concat(a + t, seq!['\n']);
        lemma_newline_bytes();
    }
}

proof fn lemma_jsonl_chars_front(e: EventModel, rest: Seq<EventModel>)
    ensures
        jsonl_chars(seq![e] + rest) == event_line(e) + seq!['\n'] + jsonl_chars(rest),
    decreases rest.len(),
{
    let es = seq![e] + rest;
    if rest.len() == 0 {
        assert(es.drop_last() =~= Seq::<EventModel>::empty());
        assert(jsonl_chars(es) =~= event_line(e) + seq!['\n'] + jsonl_chars(rest));
    } else {
        lemma_jsonl_chars_front(e, rest.drop_last());
        assert(es.drop_last() =~= seq![e] + rest.drop_last());
        assert(es.last() == rest.last());
        assert(jsonl_chars(es) =~= event_line(e) + seq!['\n'] + jsonl_chars(rest));
    }
}

proof fn lemma_text_line_end_at(s: Seq<char>, p: int, q: int)
    requires
        0 <= p <= q <= s.len(),
        forall|k: int| p <= k < q ==> s[k] != '\n',
        q < s.len() ==> s[q] == '\n',
    ensures
        text_line_end(s, p) == q,
    decreases q - p,
{
    if p < q {
        lemma_text_line_end_at(s, p + 1, q);
    }
}

/// The line written for an event: one line, unpadded, that reads back as it.
proof fn lemma_event_line(e: EventModel, n: int, lenient: bool)
    requires
        stamps_valid(e),
    ensures
        free_of(event_line(e), '\n'),
        trim(event_line(e)) == event_line(e),
        jsonl_line(event_line(e), n, lenient) == Ok::<Option<EventModel>, Seq<char>>(Some(e)),
{
    reveal(event_line);
    reveal(jsonl_line);
    let t = json_text(event_json(e));
    lemma_json_text_no_newline(event_json(e));
    let entries = event_json(e)->Object_0;
    assert(event_json(e) == Json::Object(entries));
    assert(t == seq!['{'] + entries_text(entries) + seq!['}']);
    assert(t[0] == '{');
    assert(t.last() == '}');
    lemma_trim_unpadded(t);
    lemma_json_roundtrip(event_json(e));
    lemma_event_json_roundtrip(e, lenient);
}

/// Reading the JSON Lines written for events, from `p` on, gives the events.
proof fn lemma_jsonl_events_of(s: Seq<char>, p: int, n: nat, es: Seq<EventModel>, lenient: bool)
    requires
        0 <= p <= s.len(),
        s.subrange(p, s.len() as int) == jsonl_chars(es),
        forall|i: int| 0 <= i < es.len() ==> stamps_valid(#[trigger] es[i]),
    ensures
        jsonl_events(s, p, n, lenient) == Ok::<Seq<EventModel>, Seq<char>>(es),
    decreases es.len(),
{
    if es.len() == 0 {
        assert(s.subrange(p, s.len() as int).len() == 0);
    } else {
        let e = es[0];
        let rest = es.drop_first();
        assert(es =~= seq![e] + rest);
        lemma_jsonl_chars_front(e, rest);
        let t = event_line(e);
        let tail = s.subrange(p, s.len() as int);
        assert(tail == t + seq!['\n'] + jsonl_chars(rest));
        lemma_event_line(e, n as int, lenient);
        assert forall|k: int| p <= k < p + t.len() implies s[k] != '\n' by {
            assert(s[k] == tail[k - p]);
            assert(tail[k - p] == t[k - p]);
        }
        assert(s[p + t.len()] == tail[t.len() as int]);
        lemma_text_line_end_at(s, p, p + t.len());
        assert(s.subrange(p, p + t.len()) =~= t);
        assert(s.subrange(p + t.len() + 1, s.len() as int) =~= jsonl_chars(rest));
        lemma_jsonl_events_of(s, p + t.len() + 1, n + 1, rest, lenient);
    }
}

/// Reading back the JSON Lines written for events gives the stream that
/// writing those events gives (with the same redaction, if one is asked for):
/// going through JSON Lines loses nothing. Every person stamp must have a
/// valid time zone offset, as every stamp that reading a stream gives has.
pub proof fn lemma_jsonl_round_trip(
    es: Seq<EventModel>,
    lenient: bool,
    redact: Option<(Option<Seq<char>>, Seq<char>)>,
)
    requires
        forall|i: int| 0 <= i < es.len() ==> stamps_valid(#[trigger] es[i]),
    ensures
        to_fastexport_spec(jsonl_bytes(es), lenient, redact) == Ok::<Seq<u8>, Seq<char>>(
            write_spec(maybe_redact(es, redact)),
        ),
{
    lemma_jsonl_bytes_chars(es);
    let cs = jsonl_chars(es);
    vstd::utf8::encode_utf8_valid_utf8(cs);
    vstd::utf8::encode_utf8_decode_utf8(cs);
    assert(cs.subrange(0, cs.len() as int) =~= cs);
    lemma_jsonl_events_of(cs, 0, 1, es, lenient);
}


/// Turning a stream into JSON Lines (with or without redaction) and the JSON
/// Lines back into a stream gives exactly what writing the events read from
/// the stream gives.
pub proof fn lemma_conversions_compose(
    input: Seq<u8>,
    lenient: bool,
    lenient_back: bool,
    redact: Option<(Option<Seq<char>>, Seq<char>)>,
)
    requires
        parse_spec(input, lenient) is Ok,
    ensures
        to_jsonl_spec(input, lenient, redact) matches Ok(j) && to_fastexport_spec(j, lenient_back, None)
            == Ok::<Seq<u8>, Seq<char>>(
            write_spec(maybe_redact(parse_spec(input, lenient)->Ok_0, redact)),
        ),
{
    let es = parse_spec(input, lenient)->Ok_0;
    lemma_events_stamps(input, 0, 1, Set::empty(), lenient);
    let rs = maybe_redact(es, redact);
    assert forall|i: int| 0 <= i < rs.len() implies stamps_valid(#[trigger] rs[i]) by {
        assert(stamps_valid(es[i]));
    }
    lemma_jsonl_round_trip(rs, lenient_back, None);
}


/// A stream that the writer wrote survives both conversions byte for byte:
/// turning it into JSON Lines and back gives it again.
pub proof fn lemma_written_stream_survives(es: Seq<EventModel>, lenient: bool, lenient_back: bool)
    requires
        events_ok(es, Set::empty(), lenient),
    ensures
        to_jsonl_spec(write_spec(es), lenient, None) matches Ok(j) && to_fastexport_spec(
            j,
            lenient_back,
            None,
        ) == Ok::<Seq<u8>, Seq<char>>(write_spec(es)),
{
    lemma_write_then_parse(es, lenient);
    lemma_conversions_compose(write_spec(es), lenient, lenient_back, None);
}

} // verus!
