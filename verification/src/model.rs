//! The events of a fast-export stream, their JSON form, and identity redaction.
use vstd::prelude::*;
use vstd::utf8::*;
use vstd::string::StringSliceAdditionalSpecFns;
use crate::text::{owned, push_str, str_eq};
use crate::json::{Value, Json, get_spec, keys_distinct, lemma_lookup_distinct, str_field, num_field, entries_model, items_model, string_value, push_entry, object_value, push_item, array_value, lemma_array_model};
pub use crate::base64::{base64_encode, base64_decode};
use crate::base64::{lemma_base64_roundtrip, encode_spec, decode_spec, decode_result_view};

verus! {

broadcast use vstd::seq_lib::group_seq_properties;

/// An author, committer or tagger line: `Name <email> <unix-ts> <tz-offset>`.
pub struct PersonStamp {
    pub name: Option<String>,
    pub email: String,
    pub timestamp: i64,
    pub tz_offset: String,
}

/// Where the content of a file or note comes from.
pub enum DataRef {
    Mark(u64),
    Sha1(String),
    Inline(Vec<u8>),
}

/// `M <mode> <dataref> <path>`.
pub struct FileModify {
    pub mode: String,
    pub dataref: DataRef,
    pub path: String,
}

/// One change of a commit's tree.
pub enum FileChange {
    Modify(FileModify),
    Delete { path: String },
    Copy { src: String, dst: String },
    Rename { src: String, dst: String },
    DeleteAll,
    Note(NoteModify),
    Ls { path: String },
}

/// `N <dataref> <commit-ish>`.
pub struct NoteModify {
    pub dataref: DataRef,
    pub commitish: String,
}

pub struct Commit {
    pub branch: String,
    pub mark: Option<u64>,
    pub author: Option<PersonStamp>,
    pub committer: PersonStamp,
    pub message: Vec<u8>,
    pub from: Option<String>,
    pub merges: Vec<String>,
    pub file_changes: Vec<FileChange>,
}

pub struct Blob {
    pub mark: Option<u64>,
    pub data: Vec<u8>,
}

pub struct Reset {
    pub branch: String,
    pub from: Option<String>,
}

pub struct Tag {
    pub name: String,
    pub mark: Option<u64>,
    pub from: String,
    pub tagger: Option<PersonStamp>,
    pub message: Vec<u8>,
}

/// One command of a fast-export stream.
pub enum Event {
    Blob(Blob),
    Commit(Commit),
    Reset(Reset),
    Tag(Tag),
    Ls { dataref: String, path: String },
    Checkpoint,
    Done,
}

// ---------------------------------------------------------------------------
// Mathematical forms
// ---------------------------------------------------------------------------

pub struct PersonModel {
    pub name: Option<Seq<char>>,
    pub email: Seq<char>,
    pub timestamp: i64,
    pub tz_offset: Seq<char>,
}

pub enum DataRefModel {
    Mark(u64),
    Sha1(Seq<char>),
    Inline(Seq<u8>),
}

pub enum FileChangeModel {
    Modify { mode: Seq<char>, dataref: DataRefModel, path: Seq<char> },
    Delete { path: Seq<char> },
    Copy { src: Seq<char>, dst: Seq<char> },
    Rename { src: Seq<char>, dst: Seq<char> },
    DeleteAll,
    Note { dataref: DataRefModel, commitish: Seq<char> },
    Ls { path: Seq<char> },
}

pub struct CommitModel {
    pub branch: Seq<char>,
    pub mark: Option<u64>,
    pub author: Option<PersonModel>,
    pub committer: PersonModel,
    pub message: Seq<u8>,
    pub from: Option<Seq<char>>,
    pub merges: Seq<Seq<char>>,
    pub file_changes: Seq<FileChangeModel>,
}

pub struct TagModel {
    pub name: Seq<char>,
    pub mark: Option<u64>,
    pub from: Seq<char>,
    pub tagger: Option<PersonModel>,
    pub message: Seq<u8>,
}

pub enum EventModel {
    Blob { mark: Option<u64>, data: Seq<u8> },
    Commit(CommitModel),
    Reset { branch: Seq<char>, from: Option<Seq<char>> },
    Tag(TagModel),
    Ls { dataref: Seq<char>, path: Seq<char> },
    Checkpoint,
    Done,
}

pub open spec fn opt_str_view(s: Option<String>) -> Option<Seq<char>> {
    match s {
        Some(x) => Some(x@),
        None => None,
    }
}

pub open spec fn opt_person_view(p: Option<PersonStamp>) -> Option<PersonModel> {
    match p {
        Some(x) => Some(x@),
        None => None,
    }
}

impl View for PersonStamp {
    type V = PersonModel;

    open spec fn view(&self) -> PersonModel {
        PersonModel {
            name: opt_str_view(self.name),
            email: self.email@,
            timestamp: self.timestamp,
            tz_offset: self.tz_offset@,
        }
    }
}

impl View for DataRef {
    type V = DataRefModel;

    open spec fn view(&self) -> DataRefModel {
        match self {
            DataRef::Mark(m) => DataRefModel::Mark(*m),
            DataRef::Sha1(s) => DataRefModel::Sha1(s@),
            DataRef::Inline(d) => DataRefModel::Inline(d@),
        }
    }
}

impl View for FileChange {
    type V = FileChangeModel;

    open spec fn view(&self) -> FileChangeModel {
        match self {
            FileChange::Modify(m) => FileChangeModel::Modify {
                mode: m.mode@,
                dataref: m.dataref@,
                path: m.path@,
            },
            FileChange::Delete { path } => FileChangeModel::Delete { path: path@ },
            FileChange::Copy { src, dst } => FileChangeModel::Copy { src: src@, dst: dst@ },
            FileChange::Rename { src, dst } => FileChangeModel::Rename { src: src@, dst: dst@ },
            FileChange::DeleteAll => FileChangeModel::DeleteAll,
            FileChange::Note(n) => FileChangeModel::Note {
                dataref: n.dataref@,
                commitish: n.commitish@,
            },
            FileChange::Ls { path } => FileChangeModel::Ls { path: path@ },
        }
    }
}

pub open spec fn strings_view(v: Seq<String>) -> Seq<Seq<char>> {
    v.map_values(|s: String| s@)
}

pub open spec fn changes_view(v: Seq<FileChange>) -> Seq<FileChangeModel> {
    v.map_values(|c: FileChange| c@)
}

impl View for Commit {
    type V = CommitModel;

    open spec fn view(&self) -> CommitModel {
        CommitModel {
            branch: self.branch@,
            mark: self.mark,
            author: opt_person_view(self.author),
            committer: self.committer@,
            message: self.message@,
            from: opt_str_view(self.from),
            merges: strings_view(self.merges@),
            file_changes: changes_view(self.file_changes@),
        }
    }
}

impl View for Tag {
    type V = TagModel;

    open spec fn view(&self) -> TagModel {
        TagModel {
            name: self.name@,
            mark: self.mark,
            from: self.from@,
            tagger: opt_person_view(self.tagger),
            message: self.message@,
        }
    }
}

impl View for Event {
    type V = EventModel;

    open spec fn view(&self) -> EventModel {
        match self {
            Event::Blob(b) => EventModel::Blob { mark: b.mark, data: b.data@ },
            Event::Commit(c) => EventModel::Commit(c@),
            Event::Reset(r) => EventModel::Reset { branch: r.branch@, from: opt_str_view(r.from) },
            Event::Tag(t) => EventModel::Tag(t@),
            Event::Ls { dataref, path } => EventModel::Ls { dataref: dataref@, path: path@ },
            Event::Checkpoint => EventModel::Checkpoint,
            Event::Done => EventModel::Done,
        }
    }
}

pub open spec fn events_view(v: Seq<Event>) -> Seq<EventModel> {
    v.map_values(|e: Event| e@)
}

// ---------------------------------------------------------------------------
// Time zone offsets
// ---------------------------------------------------------------------------

pub open spec fn is_ascii_digit_byte(b: u8) -> bool {
    48 <= b <= 57
}

/// `+HHMM` or `-HHMM`, judged on the bytes of the text.
pub open spec fn valid_tz_bytes(b: Seq<u8>) -> bool {
    &&& b.len() == 5
    &&& (b[0] == 43 || b[0] == 45)
    &&& forall|i: int| 1 <= i < 5 ==> is_ascii_digit_byte(#[trigger] b[i])
}

pub open spec fn valid_tz(s: Seq<char>) -> bool {
    valid_tz_bytes(encode_utf8(s))
}

/// Whether `s` is a `+HHMM`/`-HHMM` time zone offset.
pub fn is_valid_tz_offset(s: &str) -> (res: bool)
    ensures
        res == valid_tz(s@),
{
    let bytes = s.as_bytes();
    if bytes.len() != 5 || !(bytes[0] == 43 || bytes[0] == 45) {
        return false;
    }
    let mut i: usize = 1;
    while i < 5
        invariant
            bytes@ == s.spec_bytes(),
            bytes.len() == 5,
            1 <= i <= 5,
            forall|k: int| 1 <= k < i ==> is_ascii_digit_byte(#[trigger] bytes@[k]),
        decreases 5 - i,
    {
        if !(48 <= bytes[i] && bytes[i] <= 57) {
            return false;
        }
        i = i + 1;
    }
    true
}

// ---------------------------------------------------------------------------
// Redaction
// ---------------------------------------------------------------------------

/// A person with the given identity, keeping the time stamp.
pub open spec fn redact_person(p: PersonModel, name: Option<Seq<char>>, email: Seq<char>) -> PersonModel {
    PersonModel { name: name, email: email, timestamp: p.timestamp, tz_offset: p.tz_offset }
}

pub open spec fn redact_opt_person(p: Option<PersonModel>, name: Option<Seq<char>>, email: Seq<char>) -> Option<PersonModel> {
    match p {
        Some(x) => Some(redact_person(x, name, email)),
        None => None,
    }
}

/// An event with every author, committer and tagger identity replaced.
pub open spec fn redact_spec(e: EventModel, name: Option<Seq<char>>, email: Seq<char>) -> EventModel {
    match e {
        EventModel::Commit(c) => EventModel::Commit(
            CommitModel {
                author: redact_opt_person(c.author, name, email),
                committer: redact_person(c.committer, name, email),
                ..c
            },
        ),
        EventModel::Tag(t) => EventModel::Tag(
            TagModel { tagger: redact_opt_person(t.tagger, name, email), ..t },
        ),
        _ => e,
    }
}

/// The time stamps and offsets of an event's person stamps, in the order
/// author (or tagger), committer.
pub open spec fn event_times(e: EventModel) -> Seq<(i64, Seq<char>)> {
    match e {
        EventModel::Commit(c) => match c.author {
            Some(a) => seq![(a.timestamp, a.tz_offset), (c.committer.timestamp, c.committer.tz_offset)],
            None => seq![(c.committer.timestamp, c.committer.tz_offset)],
        },
        EventModel::Tag(t) => match t.tagger {
            Some(p) => seq![(p.timestamp, p.tz_offset)],
            None => Seq::empty(),
        },
        _ => Seq::empty(),
    }
}

/// Redaction leaves every time stamp and time zone offset as it was.
pub proof fn lemma_redact_keeps_times(e: EventModel, name: Option<Seq<char>>, email: Seq<char>)
    ensures
        event_times(redact_spec(e, name, email)) == event_times(e),
{
}

/// Only identities change: redacting an already redacted event gives what
/// redacting the unredacted event gives, so redacting twice is redacting once.
pub proof fn lemma_redact_last_wins(
    e: EventModel,
    name1: Option<Seq<char>>,
    email1: Seq<char>,
    name2: Option<Seq<char>>,
    email2: Seq<char>,
)
    ensures
        redact_spec(redact_spec(e, name1, email1), name2, email2) == redact_spec(e, name2, email2),
        redact_spec(redact_spec(e, name2, email2), name2, email2) == redact_spec(e, name2, email2),
{
}

/// Redaction adds no author or tagger line and removes none.
pub proof fn lemma_redact_keeps_presence(e: EventModel, name: Option<Seq<char>>, email: Seq<char>)
    ensures
        e matches EventModel::Commit(c) ==> (redact_spec(e, name, email) matches EventModel::Commit(r)
            && (r.author is Some <==> c.author is Some)),
        e matches EventModel::Tag(t) ==> (redact_spec(e, name, email) matches EventModel::Tag(r)
            && (r.tagger is Some <==> t.tagger is Some)),
        !(e is Commit) && !(e is Tag) ==> redact_spec(e, name, email) == e,
{
}

fn clone_opt_string(s: &Option<String>) -> (r: Option<String>)
    ensures
        opt_str_view(r) == opt_str_view(*s),
{
    match s {
        Some(x) => Some(x.clone()),
        None => None,
    }
}

fn redact_person_exec(p: &mut PersonStamp, name: &Option<String>, email: &str)
    ensures
        final(p)@ == redact_person(old(p)@, opt_str_view(*name), email@),
{
    p.name = clone_opt_string(name);
    p.email = owned(email);
}

/// Replaces the author, committer and tagger identity of one event with
/// `name` and `email`; time stamps and every other event stay as they are.
pub fn redact_author_event(event: &mut Event, name: &Option<String>, email: &str)
    ensures
        final(event)@ == redact_spec(old(event)@, opt_str_view(*name), email@),
{
    match event {
        Event::Commit(commit) => {
            match &mut commit.author {
                Some(author) => redact_person_exec(author, name, email),
                None => {},
            }
            redact_person_exec(&mut commit.committer, name, email);
        },
        Event::Tag(tag) => {
            match &mut tag.tagger {
                Some(tagger) => redact_person_exec(tagger, name, email),
                None => {},
            }
        },
        _ => {},
    }
}

/// Replaces every author, committer and tagger identity in `events`.
pub fn redact_authors(events: &mut [Event], name: &Option<String>, email: &str)
    ensures
        final(events)@.len() == old(events)@.len(),
        forall|i: int|
            0 <= i < old(events)@.len() ==> #[trigger] final(events)@[i]@ == redact_spec(
                old(events)@[i]@,
                opt_str_view(*name),
                email@,
            ),
{
    let mut i: usize = 0;
    while i < events.len()
        invariant
            i <= events.len(),
            events@.len() == old(events)@.len(),
            forall|k: int|
                0 <= k < i ==> #[trigger] events@[k]@ == redact_spec(
                    old(events)@[k]@,
                    opt_str_view(*name),
                    email@,
                ),
            forall|k: int| i <= k < events@.len() ==> #[trigger] events@[k] == old(events)@[k],
        decreases events.len() - i,
    {
        redact_author_event(&mut events[i], name, email);
        i = i + 1;
    }
}

// ---------------------------------------------------------------------------
// JSON form
// ---------------------------------------------------------------------------

pub open spec fn mark_json(m: Option<u64>) -> Json {
    match m {
        Some(x) => Json::Number(x as i64),
        None => Json::Null,
    }
}

pub open spec fn opt_str_json(s: Option<Seq<char>>) -> Json {
    match s {
        Some(x) => Json::Str(x),
        None => Json::Null,
    }
}

/// Bytes as a base64 string value.
pub open spec fn b64_json(d: Seq<u8>) -> Json {
    Json::Str(encode_spec(d))
}

pub open spec fn person_json(p: PersonModel) -> Json {
    Json::Object(
        seq![
            ("name"@, opt_str_json(p.name)),
            ("email"@, Json::Str(p.email)),
            ("timestamp"@, Json::Number(p.timestamp)),
            ("tz_offset"@, Json::Str(p.tz_offset)),
        ],
    )
}

pub open spec fn opt_person_json(p: Option<PersonModel>) -> Json {
    match p {
        Some(x) => person_json(x),
        None => Json::Null,
    }
}

pub open spec fn dataref_json(d: DataRefModel) -> Json {
    match d {
        DataRefModel::Mark(id) => Json::Object(
            seq![("kind"@, Json::Str("mark"@)), ("value"@, Json::Number(id as i64))],
        ),
        DataRefModel::Sha1(sha) => Json::Object(
            seq![("kind"@, Json::Str("sha1"@)), ("value"@, Json::Str(sha))],
        ),
        DataRefModel::Inline(data) => Json::Object(
            seq![("kind"@, Json::Str("inline"@)), ("data_base64"@, b64_json(data))],
        ),
    }
}

pub open spec fn change_json(c: FileChangeModel) -> Json {
    match c {
        FileChangeModel::Modify { mode, dataref, path } => Json::Object(
            seq![
                ("op"@, Json::Str("M"@)),
                ("mode"@, Json::Str(mode)),
                ("dataref"@, dataref_json(dataref)),
                ("path"@, Json::Str(path)),
            ],
        ),
        FileChangeModel::Delete { path } => Json::Object(
            seq![("op"@, Json::Str("D"@)), ("path"@, Json::Str(path))],
        ),
        FileChangeModel::Copy { src, dst } => Json::Object(
            seq![("op"@, Json::Str("C"@)), ("src"@, Json::Str(src)), ("dst"@, Json::Str(dst))],
        ),
        FileChangeModel::Rename { src, dst } => Json::Object(
            seq![("op"@, Json::Str("R"@)), ("src"@, Json::Str(src)), ("dst"@, Json::Str(dst))],
        ),
        FileChangeModel::DeleteAll => Json::Object(seq![("op"@, Json::Str("deleteall"@))]),
        FileChangeModel::Note { dataref, commitish } => Json::Object(
            seq![
                ("op"@, Json::Str("N"@)),
                ("dataref"@, dataref_json(dataref)),
                ("commitish"@, Json::Str(commitish)),
            ],
        ),
        FileChangeModel::Ls { path } => Json::Object(
            seq![("op"@, Json::Str("ls"@)), ("path"@, Json::Str(path))],
        ),
    }
}

/// The JSON object for an event.
pub open spec fn event_json(e: EventModel) -> Json {
    match e {
        EventModel::Blob { mark, data } => Json::Object(
            seq![
                ("type"@, Json::Str("blob"@)),
                ("mark"@, mark_json(mark)),
                ("data_base64"@, b64_json(data)),
            ],
        ),
        EventModel::Reset { branch, from } => Json::Object(
            seq![
                ("type"@, Json::Str("reset"@)),
                ("branch"@, Json::Str(branch)),
                ("from"@, opt_str_json(from)),
            ],
        ),
        EventModel::Done => Json::Object(seq![("type"@, Json::Str("done"@))]),
        EventModel::Checkpoint => Json::Object(seq![("type"@, Json::Str("checkpoint"@))]),
        EventModel::Ls { dataref, path } => Json::Object(
            seq![
                ("type"@, Json::Str("ls"@)),
                ("dataref"@, Json::Str(dataref)),
                ("path"@, Json::Str(path)),
            ],
        ),
        EventModel::Tag(t) => Json::Object(
            seq![
                ("type"@, Json::Str("tag"@)),
                ("name"@, Json::Str(t.name)),
                ("mark"@, mark_json(t.mark)),
                ("from"@, Json::Str(t.from)),
                ("tagger"@, opt_person_json(t.tagger)),
                ("message_base64"@, b64_json(t.message)),
            ],
        ),
        EventModel::Commit(c) => Json::Object(
            seq![
                ("type"@, Json::Str("commit"@)),
                ("branch"@, Json::Str(c.branch)),
                ("mark"@, mark_json(c.mark)),
                ("author"@, opt_person_json(c.author)),
                ("committer"@, person_json(c.committer)),
                ("message_base64"@, b64_json(c.message)),
                ("from"@, opt_str_json(c.from)),
                ("merges"@, Json::Array(c.merges.map_values(|m: Seq<char>| Json::Str(m)))),
                ("file_changes"@, Json::Array(c.file_changes.map_values(|fc: FileChangeModel| change_json(fc)))),
            ],
        ),
    }
}

fn optional_mark(mark: Option<u64>) -> (v: Value)
    ensures
        v@ == mark_json(mark),
{
    match mark {
        Some(m) => Value::Number(m as i64),
        None => Value::Null,
    }
}

fn optional_string(value: &Option<String>) -> (v: Value)
    ensures
        v@ == opt_str_json(opt_str_view(*value)),
{
    match value {
        Some(s) => string_value(s.as_str()),
        None => Value::Null,
    }
}

fn base64_value(data: &[u8]) -> (v: Value)
    ensures
        v@ == b64_json(data@),
{
    Value::String(base64_encode(data))
}

impl PersonStamp {
    fn to_json(&self) -> (v: Value)
        ensures
            v@ == person_json(self@),
    {
        let mut es: Vec<(String, Value)> = Vec::new();
        push_entry(&mut es, "name", optional_string(&self.name));
        push_entry(&mut es, "email", string_value(self.email.as_str()));
        push_entry(&mut es, "timestamp", Value::Number(self.timestamp));
        push_entry(&mut es, "tz_offset", string_value(self.tz_offset.as_str()));
        let ghost m = entries_model(es@);
        assert(m =~= seq![
            ("name"@, opt_str_json(opt_str_view(self.name))),
            ("email"@, Json::Str(self.email@)),
            ("timestamp"@, Json::Number(self.timestamp)),
            ("tz_offset"@, Json::Str(self.tz_offset@)),
        ]);
        object_value(es)
    }
}

fn optional_person(p: &Option<PersonStamp>) -> (v: Value)
    ensures
        v@ == opt_person_json(opt_person_view(*p)),
{
    match p {
        Some(person) => person.to_json(),
        None => Value::Null,
    }
}

fn dataref_to_json(dataref: &DataRef) -> (v: Value)
    ensures
        v@ == dataref_json(dataref@),
{
    let mut es: Vec<(String, Value)> = Vec::new();
    match dataref {
        DataRef::Mark(id) => {
            push_entry(&mut es, "kind", string_value("mark"));
            push_entry(&mut es, "value", Value::Number(*id as i64));
        },
        DataRef::Sha1(sha) => {
            push_entry(&mut es, "kind", string_value("sha1"));
            push_entry(&mut es, "value", string_value(sha.as_str()));
        },
        DataRef::Inline(data) => {
            push_entry(&mut es, "kind", string_value("inline"));
            push_entry(&mut es, "data_base64", base64_value(data.as_slice()));
        },
    }
    assert(entries_model(es@) =~= dataref_json(dataref@)->Object_0);
    object_value(es)
}

fn file_change_to_json(change: &FileChange) -> (v: Value)
    ensures
        v@ == change_json(change@),
{
    let mut es: Vec<(String, Value)> = Vec::new();
    match change {
        FileChange::Modify(modify) => {
            push_entry(&mut es, "op", string_value("M"));
            push_entry(&mut es, "mode", string_value(modify.mode.as_str()));
            push_entry(&mut es, "dataref", dataref_to_json(&modify.dataref));
            push_entry(&mut es, "path", string_value(modify.path.as_str()));
        },
        FileChange::Delete { path } => {
            push_entry(&mut es, "op", string_value("D"));
            push_entry(&mut es, "path", string_value(path.as_str()));
        },
        FileChange::Copy { src, dst } => {
            push_entry(&mut es, "op", string_value("C"));
            push_entry(&mut es, "src", string_value(src.as_str()));
            push_entry(&mut es, "dst", string_value(dst.as_str()));
        },
        FileChange::Rename { src, dst } => {
            push_entry(&mut es, "op", string_value("R"));
            push_entry(&mut es, "src", string_value(src.as_str()));
            push_entry(&mut es, "dst", string_value(dst.as_str()));
        },
        FileChange::DeleteAll => {
            push_entry(&mut es, "op", string_value("deleteall"));
        },
        FileChange::Note(note) => {
            push_entry(&mut es, "op", string_value("N"));
            push_entry(&mut es, "dataref", dataref_to_json(&note.dataref));
            push_entry(&mut es, "commitish", string_value(note.commitish.as_str()));
        },
        FileChange::Ls { path } => {
            push_entry(&mut es, "op", string_value("ls"));
            push_entry(&mut es, "path", string_value(path.as_str()));
        },
    }
    assert(entries_model(es@) =~= change_json(change@)->Object_0);
    object_value(es)
}

fn merges_to_json(merges: &Vec<String>) -> (v: Value)
    ensures
        v@ == Json::Array(strings_view(merges@).map_values(|m: Seq<char>| Json::Str(m))),
{
    let mut items: Vec<Value> = Vec::new();
    let mut i: usize = 0;
    while i < merges.len()
        invariant
            i <= merges.len(),
            items_model(items@) =~= strings_view(merges@.take(i as int)).map_values(
                |m: Seq<char>| Json::Str(m),
            ),
        decreases merges.len() - i,
    {
        push_item(&mut items, string_value(merges[i].as_str()));
        assert(merges@.take(i + 1) =~= merges@.take(i as int).push(merges@[i as int]));
        i = i + 1;
    }
    assert(merges@.take(merges.len() as int) =~= merges@);
    array_value(items)
}

fn file_changes_to_json(changes: &Vec<FileChange>) -> (v: Value)
    ensures
        v@ == Json::Array(changes_view(changes@).map_values(|fc: FileChangeModel| change_json(fc))),
{
    let mut items: Vec<Value> = Vec::new();
    let mut i: usize = 0;
    while i < changes.len()
        invariant
            i <= changes.len(),
            items_model(items@) =~= changes_view(changes@.take(i as int)).map_values(
                |fc: FileChangeModel| change_json(fc),
            ),
        decreases changes.len() - i,
    {
        push_item(&mut items, file_change_to_json(&changes[i]));
        assert(changes@.take(i + 1) =~= changes@.take(i as int).push(changes@[i as int]));
        i = i + 1;
    }
    assert(changes@.take(changes.len() as int) =~= changes@);
    array_value(items)
}

impl Event {
    /// The JSON object for this event.
    pub fn to_json(&self) -> (v: Value)
        ensures
            v@ == event_json(self@),
    {
        let mut es: Vec<(String, Value)> = Vec::new();
        match self {
            Event::Blob(blob) => {
                push_entry(&mut es, "type", string_value("blob"));
                push_entry(&mut es, "mark", optional_mark(blob.mark));
                push_entry(&mut es, "data_base64", base64_value(blob.data.as_slice()));
            },
            Event::Reset(reset) => {
                push_entry(&mut es, "type", string_value("reset"));
                push_entry(&mut es, "branch", string_value(reset.branch.as_str()));
                push_entry(&mut es, "from", optional_string(&reset.from));
            },
            Event::Done => {
                push_entry(&mut es, "type", string_value("done"));
            },
            Event::Checkpoint => {
                push_entry(&mut es, "type", string_value("checkpoint"));
            },
            Event::Ls { dataref, path } => {
                push_entry(&mut es, "type", string_value("ls"));
                push_entry(&mut es, "dataref", string_value(dataref.as_str()));
                push_entry(&mut es, "path", string_value(path.as_str()));
            },
            Event::Tag(tag) => {
                let tagger = optional_person(&tag.tagger);
                push_entry(&mut es, "type", string_value("tag"));
                push_entry(&mut es, "name", string_value(tag.name.as_str()));
                push_entry(&mut es, "mark", optional_mark(tag.mark));
                push_entry(&mut es, "from", string_value(tag.from.as_str()));
                push_entry(&mut es, "tagger", tagger);
                push_entry(&mut es, "message_base64", base64_value(tag.message.as_slice()));
            },
            Event::Commit(commit) => {
                let author = optional_person(&commit.author);
                let merges = merges_to_json(&commit.merges);
                let file_changes = file_changes_to_json(&commit.file_changes);
                push_entry(&mut es, "type", string_value("commit"));
                push_entry(&mut es, "branch", string_value(commit.branch.as_str()));
                push_entry(&mut es, "mark", optional_mark(commit.mark));
                push_entry(&mut es, "author", author);
                push_entry(&mut es, "committer", commit.committer.to_json());
                push_entry(&mut es, "message_base64", base64_value(commit.message.as_slice()));
                push_entry(&mut es, "from", optional_string(&commit.from));
                push_entry(&mut es, "merges", merges);
                push_entry(&mut es, "file_changes", file_changes);
            },
        }
        assert(entries_model(es@) =~= event_json(self@)->Object_0);
        object_value(es)
    }
}

// ---------------------------------------------------------------------------
// Reading the JSON form
// ---------------------------------------------------------------------------

/// `Some(Number(n))` as a mark; anything else as no mark.
pub open spec fn mark_field(j: Json) -> Option<u64> {
    match get_spec(j, "mark"@) {
        Some(Json::Number(n)) => Some(n as u64),
        _ => None,
    }
}

/// A string entry that must be present.
pub open spec fn required_str(j: Json, key: Seq<char>, missing: Seq<char>) -> Result<Seq<char>, Seq<char>> {
    match str_field(j, key) {
        Some(s) => Ok(s),
        None => Err(missing),
    }
}

/// A base64 string entry that must be present, decoded.
pub open spec fn decoded_field(j: Json, key: Seq<char>, missing: Seq<char>) -> Result<Seq<u8>, Seq<char>> {
    match str_field(j, key) {
        Some(s) => decode_spec(encode_utf8(s)),
        None => Err(missing),
    }
}

/// Reading a person stamp; `lenient` supplies defaults for what is missing.
pub open spec fn person_from_json(j: Json, lenient: bool) -> Result<PersonModel, Seq<char>> {
    let name = str_field(j, "name"@);
    let email: Result<Seq<char>, Seq<char>> = match str_field(j, "email"@) {
        Some(e) => Ok(e),
        None => if lenient {
            Ok("unknown@invalid"@)
        } else {
            Err("person stamp missing \"email\""@)
        },
    };
    match email {
        Err(m) => Err(m),
        Ok(email) => {
            let ts: Result<i64, Seq<char>> = match num_field(j, "timestamp"@) {
                Some(t) => Ok(t),
                None => if lenient {
                    Ok(0)
                } else {
                    Err("person stamp missing \"timestamp\""@)
                },
            };
            match ts {
                Err(m) => Err(m),
                Ok(timestamp) => {
                    let tz: Result<Seq<char>, Seq<char>> = if str_field(j, "tz_offset"@) is Some
                        && valid_tz(str_field(j, "tz_offset"@)->0) {
                        Ok(str_field(j, "tz_offset"@)->0)
                    } else if lenient {
                        Ok("+0000"@)
                    } else {
                        Err("person stamp has a missing or invalid \"tz_offset\""@)
                    };
                    match tz {
                        Err(m) => Err(m),
                        Ok(tz_offset) => Ok(
                            PersonModel { name, email, timestamp, tz_offset },
                        ),
                    }
                },
            }
        },
    }
}

/// An optional person entry: absent and `null` both mean none.
pub open spec fn opt_person_field(j: Json, key: Seq<char>, lenient: bool) -> Result<Option<PersonModel>, Seq<char>> {
    match get_spec(j, key) {
        None => Ok(None),
        Some(Json::Null) => Ok(None),
        Some(v) => match person_from_json(v, lenient) {
            Ok(p) => Ok(Some(p)),
            Err(m) => Err(m),
        },
    }
}

pub open spec fn dataref_from_json_spec(j: Json) -> Result<DataRefModel, Seq<char>> {
    match required_str(j, "kind"@, "dataref missing \"kind\""@) {
        Err(m) => Err(m),
        Ok(kind) => if kind == "mark"@ {
            match num_field(j, "value"@) {
                Some(id) => Ok(DataRefModel::Mark(id as u64)),
                None => Err("mark dataref missing \"value\""@),
            }
        } else if kind == "sha1"@ {
            match required_str(j, "value"@, "sha1 dataref missing \"value\""@) {
                Ok(sha) => Ok(DataRefModel::Sha1(sha)),
                Err(m) => Err(m),
            }
        } else if kind == "inline"@ {
            match decoded_field(j, "data_base64"@, "inline dataref missing \"data_base64\""@) {
                Ok(data) => Ok(DataRefModel::Inline(data)),
                Err(m) => Err(m),
            }
        } else {
            Err("unknown dataref kind: "@ + kind)
        },
    }
}

/// A dataref entry that must be present.
pub open spec fn dataref_field(j: Json, missing: Seq<char>) -> Result<DataRefModel, Seq<char>> {
    match get_spec(j, "dataref"@) {
        None => Err(missing),
        Some(d) => dataref_from_json_spec(d),
    }
}

pub open spec fn change_from_json(j: Json) -> Result<FileChangeModel, Seq<char>> {
    match required_str(j, "op"@, "file change missing \"op\""@) {
        Err(m) => Err(m),
        Ok(op) => if op == "D"@ {
            match required_str(j, "path"@, "filedelete missing \"path\""@) {
                Ok(path) => Ok(FileChangeModel::Delete { path }),
                Err(m) => Err(m),
            }
        } else if op == "C"@ {
            match required_str(j, "src"@, "filecopy missing \"src\""@) {
                Err(m) => Err(m),
                Ok(src) => match required_str(j, "dst"@, "filecopy missing \"dst\""@) {
                    Ok(dst) => Ok(FileChangeModel::Copy { src, dst }),
                    Err(m) => Err(m),
                },
            }
        } else if op == "R"@ {
            match required_str(j, "src"@, "filerename missing \"src\""@) {
                Err(m) => Err(m),
                Ok(src) => match required_str(j, "dst"@, "filerename missing \"dst\""@) {
                    Ok(dst) => Ok(FileChangeModel::Rename { src, dst }),
                    Err(m) => Err(m),
                },
            }
        } else if op == "deleteall"@ {
            Ok(FileChangeModel::DeleteAll)
        } else if op == "M"@ {
            match required_str(j, "mode"@, "filemodify missing \"mode\""@) {
                Err(m) => Err(m),
                Ok(mode) => match required_str(j, "path"@, "filemodify missing \"path\""@) {
                    Err(m) => Err(m),
                    Ok(path) => match dataref_field(j, "filemodify missing \"dataref\""@) {
                        Ok(dataref) => Ok(FileChangeModel::Modify { mode, dataref, path }),
                        Err(m) => Err(m),
                    },
                },
            }
        } else if op == "N"@ {
            match dataref_field(j, "notemodify missing \"dataref\""@) {
                Err(m) => Err(m),
                Ok(dataref) => match required_str(
                    j,
                    "commitish"@,
                    "notemodify missing \"commitish\""@,
                ) {
                    Ok(commitish) => Ok(FileChangeModel::Note { dataref, commitish }),
                    Err(m) => Err(m),
                },
            }
        } else if op == "ls"@ {
            match required_str(j, "path"@, "ls missing \"path\""@) {
                Ok(path) => Ok(FileChangeModel::Ls { path }),
                Err(m) => Err(m),
            }
        } else {
            Err("unknown file change op: "@ + op)
        },
    }
}

/// The entries of a `merges` array; the first that is not a string is an error.
pub open spec fn merges_from(items: Seq<Json>) -> Result<Seq<Seq<char>>, Seq<char>>
    decreases items.len(),
{
    if items.len() == 0 {
        Ok(Seq::empty())
    } else {
        match merges_from(items.drop_last()) {
            Err(m) => Err(m),
            Ok(ms) => match items.last() {
                Json::Str(s) => Ok(ms.push(s)),
                _ => Err("merge entry must be a string"@),
            },
        }
    }
}

/// The entries of a `file_changes` array; the first that fails is the error.
pub open spec fn changes_from(items: Seq<Json>) -> Result<Seq<FileChangeModel>, Seq<char>>
    decreases items.len(),
{
    if items.len() == 0 {
        Ok(Seq::empty())
    } else {
        match changes_from(items.drop_last()) {
            Err(m) => Err(m),
            Ok(cs) => match change_from_json(items.last()) {
                Ok(c) => Ok(cs.push(c)),
                Err(m) => Err(m),
            },
        }
    }
}

/// An array entry read item by item; anything but an array counts as empty.
pub open spec fn merges_field(j: Json) -> Result<Seq<Seq<char>>, Seq<char>> {
    match get_spec(j, "merges"@) {
        Some(Json::Array(items)) => merges_from(items),
        _ => Ok(Seq::empty()),
    }
}

pub open spec fn changes_field(j: Json) -> Result<Seq<FileChangeModel>, Seq<char>> {
    match get_spec(j, "file_changes"@) {
        Some(Json::Array(items)) => changes_from(items),
        _ => Ok(Seq::empty()),
    }
}

pub open spec fn commit_from_json(j: Json, lenient: bool) -> Result<EventModel, Seq<char>> {
    match required_str(j, "branch"@, "commit missing \"branch\""@) {
        Err(m) => Err(m),
        Ok(branch) => match opt_person_field(j, "author"@, lenient) {
            Err(m) => Err(m),
            Ok(author) => {
                let committer: Result<PersonModel, Seq<char>> = match get_spec(
                    j,
                    "committer"@,
                ) {
                    None => Err("commit missing \"committer\""@),
                    Some(v) => person_from_json(v, lenient),
                };
                match committer {
                    Err(m) => Err(m),
                    Ok(committer) => match decoded_field(
                        j,
                        "message_base64"@,
                        "commit missing \"message_base64\""@,
                    ) {
                        Err(m) => Err(m),
                        Ok(message) => match merges_field(j) {
                            Err(m) => Err(m),
                            Ok(merges) => match changes_field(j) {
                                Err(m) => Err(m),
                                Ok(file_changes) => Ok(
                                    EventModel::Commit(
                                        CommitModel {
                                            branch,
                                            mark: mark_field(j),
                                            author,
                                            committer,
                                            message,
                                            from: str_field(j, "from"@),
                                            merges,
                                            file_changes,
                                        },
                                    ),
                                ),
                            },
                        },
                    },
                }
            },
        },
    }
}

pub open spec fn tag_from_json(j: Json, lenient: bool) -> Result<EventModel, Seq<char>> {
    match required_str(j, "name"@, "tag missing \"name\""@) {
        Err(m) => Err(m),
        Ok(name) => match required_str(j, "from"@, "tag missing \"from\""@) {
            Err(m) => Err(m),
            Ok(from) => match opt_person_field(j, "tagger"@, lenient) {
                Err(m) => Err(m),
                Ok(tagger) => match decoded_field(
                    j,
                    "message_base64"@,
                    "tag missing \"message_base64\""@,
                ) {
                    Err(m) => Err(m),
                    Ok(message) => Ok(
                        EventModel::Tag(TagModel { name, mark: mark_field(j), from, tagger, message }),
                    ),
                },
            },
        },
    }
}

/// Reading an event from its JSON object.
pub open spec fn event_from_json(j: Json, lenient: bool) -> Result<EventModel, Seq<char>> {
    match str_field(j, "type"@) {
        None => Err("missing \"type\" field"@),
        Some(t) => if t == "blob"@ {
            match decoded_field(j, "data_base64"@, "blob missing \"data_base64\""@) {
                Ok(data) => Ok(EventModel::Blob { mark: mark_field(j), data }),
                Err(m) => Err(m),
            }
        } else if t == "reset"@ {
            match required_str(j, "branch"@, "reset missing \"branch\""@) {
                Ok(branch) => Ok(EventModel::Reset { branch, from: str_field(j, "from"@) }),
                Err(m) => Err(m),
            }
        } else if t == "done"@ {
            Ok(EventModel::Done)
        } else if t == "checkpoint"@ {
            Ok(EventModel::Checkpoint)
        } else if t == "ls"@ {
            match required_str(j, "dataref"@, "ls missing \"dataref\""@) {
                Err(m) => Err(m),
                Ok(dataref) => match required_str(j, "path"@, "ls missing \"path\""@) {
                    Ok(path) => Ok(EventModel::Ls { dataref, path }),
                    Err(m) => Err(m),
                },
            }
        } else if t == "tag"@ {
            tag_from_json(j, lenient)
        } else if t == "commit"@ {
            commit_from_json(j, lenient)
        } else {
            Err("unknown event type: "@ + t)
        },
    }
}

/// The mathematical form of a result whose error is a message.
pub open spec fn result_view<T: View>(r: Result<T, String>) -> Result<T::V, Seq<char>> {
    match r {
        Ok(x) => Ok(x@),
        Err(m) => Err(m@),
    }
}

fn required_string(value: &Value, key: &str, missing: &str) -> (res: Result<String, String>)
    ensures
        result_view(res) == required_str(value@, key@, missing@),
{
    match value.get_str(key) {
        Some(s) => Ok(owned(s)),
        None => Err(owned(missing)),
    }
}

fn decoded(value: &Value, key: &str, missing: &str) -> (res: Result<Vec<u8>, String>)
    ensures
        result_view(res) == decoded_field(value@, key@, missing@),
{
    match value.get_str(key) {
        Some(s) => {
            let r = base64_decode(s);
            assert(decode_result_view(r) == result_view(r));
            r
        },
        None => Err(owned(missing)),
    }
}

fn mark_of(value: &Value) -> (res: Option<u64>)
    ensures
        res == mark_field(value@),
{
    match value.get("mark") {
        Some(Value::Number(n)) => Some(*n as u64),
        _ => None,
    }
}

fn optional_string_field(value: &Value, key: &str) -> (res: Option<String>)
    ensures
        opt_str_view(res) == str_field(value@, key@),
{
    match value.get_str(key) {
        Some(s) => Some(owned(s)),
        None => None,
    }
}

impl PersonStamp {
    fn from_json(value: &Value, lenient: bool) -> (res: Result<PersonStamp, String>)
        ensures
            result_view(res) == person_from_json(value@, lenient),
    {
        let name = optional_string_field(value, "name");
        let email = match value.get_str("email") {
            Some(e) => owned(e),
            None => {
                if lenient {
                    owned("unknown@invalid")
                } else {
                    return Err(owned("person stamp missing \"email\""));
                }
            },
        };
        let timestamp = match value.get_i64("timestamp") {
            Some(t) => t,
            None => {
                if lenient {
                    0
                } else {
                    return Err(owned("person stamp missing \"timestamp\""));
                }
            },
        };
        let tz = value.get_str("tz_offset");
        let tz_offset = if tz.is_some() && is_valid_tz_offset(tz.unwrap()) {
            owned(tz.unwrap())
        } else if lenient {
            owned("+0000")
        } else {
            return Err(owned("person stamp has a missing or invalid \"tz_offset\""));
        };
        Ok(PersonStamp { name, email, timestamp, tz_offset })
    }
}

fn optional_person_field(value: &Value, key: &str, lenient: bool) -> (res: Result<
    Option<PersonStamp>,
    String,
>)
    ensures
        match opt_person_field(value@, key@, lenient) {
            Ok(p) => res matches Ok(r) && opt_person_view(r) == p,
            Err(m) => res matches Err(e) && e@ == m,
        },
{
    match value.get(key) {
        None => Ok(None),
        Some(Value::Null) => Ok(None),
        Some(v) => match PersonStamp::from_json(v, lenient) {
            Ok(p) => Ok(Some(p)),
            Err(e) => Err(e),
        },
    }
}

fn dataref_from_json(value: &Value) -> (res: Result<DataRef, String>)
    ensures
        result_view(res) == dataref_from_json_spec(value@),
{
    let kind = match value.get_str("kind") {
        Some(k) => k,
        None => return Err(owned("dataref missing \"kind\"")),
    };
    if str_eq(kind, "mark") {
        match value.get_i64("value") {
            Some(id) => Ok(DataRef::Mark(id as u64)),
            None => Err(owned("mark dataref missing \"value\"")),
        }
    } else if str_eq(kind, "sha1") {
        match required_string(value, "value", "sha1 dataref missing \"value\"") {
            Ok(sha) => Ok(DataRef::Sha1(sha)),
            Err(e) => Err(e),
        }
    } else if str_eq(kind, "inline") {
        match decoded(value, "data_base64", "inline dataref missing \"data_base64\"") {
            Ok(data) => Ok(DataRef::Inline(data)),
            Err(e) => Err(e),
        }
    } else {
        let mut m = owned("unknown dataref kind: ");
        push_str(&mut m, kind);
        Err(m)
    }
}

fn dataref_entry(value: &Value, missing: &str) -> (res: Result<DataRef, String>)
    ensures
        result_view(res) == dataref_field(value@, missing@),
{
    match value.get("dataref") {
        None => Err(owned(missing)),
        Some(d) => dataref_from_json(d),
    }
}

fn file_change_from_json(value: &Value) -> (res: Result<FileChange, String>)
    ensures
        result_view(res) == change_from_json(value@),
{
    let op = match value.get_str("op") {
        Some(o) => o,
        None => return Err(owned("file change missing \"op\"")),
    };
    if str_eq(op, "D") {
        let path = required_string(value, "path", "filedelete missing \"path\"")?;
        Ok(FileChange::Delete { path })
    } else if str_eq(op, "C") {
        let src = required_string(value, "src", "filecopy missing \"src\"")?;
        let dst = required_string(value, "dst", "filecopy missing \"dst\"")?;
        Ok(FileChange::Copy { src, dst })
    } else if str_eq(op, "R") {
        let src = required_string(value, "src", "filerename missing \"src\"")?;
        let dst = required_string(value, "dst", "filerename missing \"dst\"")?;
        Ok(FileChange::Rename { src, dst })
    } else if str_eq(op, "deleteall") {
        Ok(FileChange::DeleteAll)
    } else if str_eq(op, "M") {
        let mode = required_string(value, "mode", "filemodify missing \"mode\"")?;
        let path = required_string(value, "path", "filemodify missing \"path\"")?;
        let dataref = dataref_entry(value, "filemodify missing \"dataref\"")?;
        Ok(FileChange::Modify(FileModify { mode, dataref, path }))
    } else if str_eq(op, "N") {
        let dataref = dataref_entry(value, "notemodify missing \"dataref\"")?;
        let commitish = required_string(value, "commitish", "notemodify missing \"commitish\"")?;
        Ok(FileChange::Note(NoteModify { dataref, commitish }))
    } else if str_eq(op, "ls") {
        let path = required_string(value, "path", "ls missing \"path\"")?;
        Ok(FileChange::Ls { path })
    } else {
        let mut m = owned("unknown file change op: ");
        push_str(&mut m, op);
        Err(m)
    }
}

fn merges_from_json(value: &Value) -> (res: Result<Vec<String>, String>)
    ensures
        match merges_field(value@) {
            Ok(ms) => res matches Ok(r) && strings_view(r@) == ms,
            Err(m) => res matches Err(e) && e@ == m,
        },
{
    let mut out: Vec<String> = Vec::new();
    match value.get("merges") {
        Some(Value::Array(items)) => {
            let ghost js = items_model(items@);
            proof {
                lemma_array_model(*items);
            }
            assert(get_spec(value@, "merges"@) == Some(Json::Array(js)));
            assert(js.take(0) =~= Seq::<Json>::empty());
            let mut i: usize = 0;
            assert(strings_view(out@) =~= Seq::<Seq<char>>::empty());
            while i < items.len()
                invariant
                    i <= items.len(),
                    js == items_model(items@),
                    merges_field(value@) == merges_from(js),
                    merges_from(js.take(i as int)) == Ok::<Seq<Seq<char>>, Seq<char>>(
                        strings_view(out@),
                    ),
                decreases items.len() - i,
            {
                assert(js.take(i + 1).drop_last() =~= js.take(i as int));
                assert(js.take(i + 1).last() == items@[i as int]@);
                match items[i].as_str() {
                    Some(s) => {
                        let ghost before = out@;
                        out.push(owned(s));
                        assert(strings_view(out@) =~= strings_view(before).push(s@));
                    },
                    None => {
                        proof {
                            lemma_merges_from_prefix_err(js, i as int + 1);
                        }
                        return Err(owned("merge entry must be a string"));
                    },
                }
                i = i + 1;
            }
            assert(js.take(items.len() as int) =~= js);
            Ok(out)
        },
        _ => Ok(out),
    }
}

proof fn lemma_merges_from_prefix_err(items: Seq<Json>, k: int)
    requires
        0 <= k <= items.len(),
        merges_from(items.take(k)) is Err,
    ensures
        merges_from(items) == merges_from(items.take(k)),
    decreases items.len() - k,
{
    if k < items.len() {
        assert(items.take(k + 1).drop_last() =~= items.take(k));
        lemma_merges_from_prefix_err(items, k + 1);
    } else {
        assert(items.take(k) =~= items);
    }
}

proof fn lemma_changes_from_prefix_err(items: Seq<Json>, k: int)
    requires
        0 <= k <= items.len(),
        changes_from(items.take(k)) is Err,
    ensures
        changes_from(items) == changes_from(items.take(k)),
    decreases items.len() - k,
{
    if k < items.len() {
        assert(items.take(k + 1).drop_last() =~= items.take(k));
        lemma_changes_from_prefix_err(items, k + 1);
    } else {
        assert(items.take(k) =~= items);
    }
}

fn file_changes_from_json(value: &Value) -> (res: Result<Vec<FileChange>, String>)
    ensures
        match changes_field(value@) {
            Ok(cs) => res matches Ok(r) && changes_view(r@) == cs,
            Err(m) => res matches Err(e) && e@ == m,
        },
{
    let mut out: Vec<FileChange> = Vec::new();
    match value.get("file_changes") {
        Some(Value::Array(items)) => {
            let ghost js = items_model(items@);
            proof {
                lemma_array_model(*items);
            }
            assert(get_spec(value@, "file_changes"@) == Some(Json::Array(js)));
            assert(js.take(0) =~= Seq::<Json>::empty());
            let mut i: usize = 0;
            assert(changes_view(out@) =~= Seq::<FileChangeModel>::empty());
            while i < items.len()
                invariant
                    i <= items.len(),
                    js == items_model(items@),
                    changes_field(value@) == changes_from(js),
                    changes_from(js.take(i as int)) == Ok::<Seq<FileChangeModel>, Seq<char>>(
                        changes_view(out@),
                    ),
                decreases items.len() - i,
            {
                assert(js.take(i + 1).drop_last() =~= js.take(i as int));
                assert(js.take(i + 1).last() == items@[i as int]@);
                match file_change_from_json(&items[i]) {
                    Ok(c) => {
                        let ghost before = out@;
                        let ghost cv = c@;
                        out.push(c);
                        assert(changes_view(out@) =~= changes_view(before).push(cv));
                    },
                    Err(e) => {
                        proof {
                            lemma_changes_from_prefix_err(js, i as int + 1);
                        }
                        return Err(e);
                    },
                }
                i = i + 1;
            }
            assert(js.take(items.len() as int) =~= js);
            Ok(out)
        },
        _ => Ok(out),
    }
}

impl Event {
    /// Reads an event from its JSON object; `lenient` supplies defaults for
    /// missing or invalid person fields.
    pub fn from_json(value: &Value, lenient: bool) -> (res: Result<Event, String>)
        ensures
            result_view(res) == event_from_json(value@, lenient),
    {
        let event_type = match value.get_str("type") {
            Some(t) => t,
            None => return Err(owned("missing \"type\" field")),
        };
        if str_eq(event_type, "blob") {
            let mark = mark_of(value);
            let data = decoded(value, "data_base64", "blob missing \"data_base64\"")?;
            Ok(Event::Blob(Blob { mark, data }))
        } else if str_eq(event_type, "reset") {
            let branch = required_string(value, "branch", "reset missing \"branch\"")?;
            let from = optional_string_field(value, "from");
            Ok(Event::Reset(Reset { branch, from }))
        } else if str_eq(event_type, "done") {
            Ok(Event::Done)
        } else if str_eq(event_type, "checkpoint") {
            Ok(Event::Checkpoint)
        } else if str_eq(event_type, "ls") {
            let dataref = required_string(value, "dataref", "ls missing \"dataref\"")?;
            let path = required_string(value, "path", "ls missing \"path\"")?;
            Ok(Event::Ls { dataref, path })
        } else if str_eq(event_type, "tag") {
            let name = required_string(value, "name", "tag missing \"name\"")?;
            let mark = mark_of(value);
            let from = required_string(value, "from", "tag missing \"from\"")?;
            let tagger = optional_person_field(value, "tagger", lenient)?;
            let message = decoded(value, "message_base64", "tag missing \"message_base64\"")?;
            Ok(Event::Tag(Tag { name, mark, from, tagger, message }))
        } else if str_eq(event_type, "commit") {
            let branch = required_string(value, "branch", "commit missing \"branch\"")?;
            let mark = mark_of(value);
            let author = optional_person_field(value, "author", lenient)?;
            let committer = match value.get("committer") {
                Some(c) => PersonStamp::from_json(c, lenient)?,
                None => return Err(owned("commit missing \"committer\"")),
            };
            let message = decoded(value, "message_base64", "commit missing \"message_base64\"")?;
            let from = optional_string_field(value, "from");
            let merges = merges_from_json(value)?;
            let file_changes = file_changes_from_json(value)?;
            Ok(
                Event::Commit(
                    Commit { branch, mark, author, committer, message, from, merges, file_changes },
                ),
            )
        } else {
            let mut m = owned("unknown event type: ");
            push_str(&mut m, event_type);
            Err(m)
        }
    }
}

// ---------------------------------------------------------------------------
// Round trip through the JSON form
// ---------------------------------------------------------------------------

/// Every person stamp of an event has a valid time zone offset.
pub open spec fn stamps_valid(e: EventModel) -> bool {
    match e {
        EventModel::Commit(c) => valid_tz(c.committer.tz_offset) && match c.author {
            Some(a) => valid_tz(a.tz_offset),
            None => true,
        },
        EventModel::Tag(t) => match t.tagger {
            Some(p) => valid_tz(p.tz_offset),
            None => true,
        },
        _ => true,
    }
}

proof fn lemma_mark_roundtrip(m: u64)
    ensures
        (m as i64) as u64 == m,
{
    assert((m as i64) as u64 == m) by (bit_vector);
}

proof fn lemma_person_keys(p: PersonModel)
    ensures
        keys_distinct(person_json(p)->Object_0),
{
    reveal_strlit("name");
    reveal_strlit("email");
    reveal_strlit("timestamp");
    reveal_strlit("tz_offset");
    assert("name"@.len() == 4);
    assert("email"@.len() == 5);
    assert("timestamp"@.len() == 9);
    assert("tz_offset"@.len() == 9);
    assert("timestamp"@[1] != "tz_offset"@[1]);
    assert("timestamp"@ != "tz_offset"@);
    let es = person_json(p)->Object_0;
    assert(es.len() == 4);
    assert forall|a: int, b: int| 0 <= a < b < es.len() implies #[trigger] es[a].0 != #[trigger] es[b].0 by {
        if a == 0 && b == 1 {}
        if a == 0 && b == 2 {}
        if a == 0 && b == 3 {}
        if a == 1 && b == 2 {}
        if a == 1 && b == 3 {}
        if a == 2 && b == 3 {}
    }
}

proof fn lemma_person_roundtrip(p: PersonModel, lenient: bool)
    requires
        valid_tz(p.tz_offset),
    ensures
        person_from_json(person_json(p), lenient) == Ok::<PersonModel, Seq<char>>(p),
{
    let es = person_json(p)->Object_0;
    lemma_person_keys(p);
    lemma_lookup_distinct(es, 0);
    lemma_lookup_distinct(es, 1);
    lemma_lookup_distinct(es, 2);
    lemma_lookup_distinct(es, 3);
}

proof fn lemma_opt_person_roundtrip(j: Json, key: Seq<char>, p: Option<PersonModel>, lenient: bool)
    requires
        get_spec(j, key) == Some(opt_person_json(p)),
        p matches Some(x) ==> valid_tz(x.tz_offset),
    ensures
        opt_person_field(j, key, lenient) == Ok::<Option<PersonModel>, Seq<char>>(p),
{
    match p {
        Some(x) => {
            lemma_person_roundtrip(x, lenient);
        },
        None => {},
    }
}

proof fn lemma_b64_field(j: Json, key: Seq<char>, missing: Seq<char>, d: Seq<u8>)
    requires
        get_spec(j, key) == Some(b64_json(d)),
    ensures
        decoded_field(j, key, missing) == Ok::<Seq<u8>, Seq<char>>(d),
{
    lemma_base64_roundtrip(d);
}

proof fn lemma_dataref_roundtrip(d: DataRefModel)
    ensures
        dataref_from_json_spec(dataref_json(d)) == Ok::<DataRefModel, Seq<char>>(d),
{
    reveal_strlit("kind");
    reveal_strlit("value");
    reveal_strlit("data_base64");
    reveal_strlit("mark");
    reveal_strlit("sha1");
    reveal_strlit("inline");
    assert("kind"@.len() == 4);
    assert("value"@.len() == 5);
    assert("data_base64"@.len() == 11);
    assert("mark"@.len() == 4);
    assert("sha1"@.len() == 4);
    assert("inline"@.len() == 6);
    assert("kind"@[0] != "mark"@[0]);
    assert("kind"@ != "mark"@);
    assert("kind"@[0] != "sha1"@[0]);
    assert("kind"@ != "sha1"@);
    assert("mark"@[0] != "sha1"@[0]);
    assert("mark"@ != "sha1"@);
    let es = dataref_json(d)->Object_0;
    assert(keys_distinct(es)) by {
        assert(es.len() == 2);
        assert forall|a: int, b: int| 0 <= a < b < es.len() implies #[trigger] es[a].0 != #[trigger] es[b].0 by {}
    }
    lemma_lookup_distinct(es, 0);
    lemma_lookup_distinct(es, 1);
    match d {
        DataRefModel::Mark(id) => {
            lemma_mark_roundtrip(id);
        },
        DataRefModel::Sha1(_) => {},
        DataRefModel::Inline(data) => {
            lemma_base64_roundtrip(data);
        },
    }
}

proof fn lemma_change_roundtrip(c: FileChangeModel)
    ensures
        change_from_json(change_json(c)) == Ok::<FileChangeModel, Seq<char>>(c),
{
    reveal_strlit("op");
    reveal_strlit("path");
    reveal_strlit("src");
    reveal_strlit("dst");
    reveal_strlit("mode");
    reveal_strlit("dataref");
    reveal_strlit("commitish");
    reveal_strlit("D");
    reveal_strlit("C");
    reveal_strlit("R");
    reveal_strlit("deleteall");
    reveal_strlit("M");
    reveal_strlit("N");
    reveal_strlit("ls");
    assert("op"@.len() == 2);
    assert("path"@.len() == 4);
    assert("src"@.len() == 3);
    assert("dst"@.len() == 3);
    assert("mode"@.len() == 4);
    assert("dataref"@.len() == 7);
    assert("commitish"@.len() == 9);
    assert("D"@.len() == 1);
    assert("C"@.len() == 1);
    assert("R"@.len() == 1);
    assert("deleteall"@.len() == 9);
    assert("M"@.len() == 1);
    assert("N"@.len() == 1);
    assert("ls"@.len() == 2);
    assert("op"@[0] != "ls"@[0]);
    assert("op"@ != "ls"@);
    assert("path"@[0] != "mode"@[0]);
    assert("path"@ != "mode"@);
    assert("src"@[0] != "dst"@[0]);
    assert("src"@ != "dst"@);
    assert("commitish"@[0] != "deleteall"@[0]);
    assert("commitish"@ != "deleteall"@);
    assert("D"@[0] != "C"@[0]);
    assert("D"@ != "C"@);
    assert("D"@[0] != "R"@[0]);
    assert("D"@ != "R"@);
    assert("D"@[0] != "M"@[0]);
    assert("D"@ != "M"@);
    assert("D"@[0] != "N"@[0]);
    assert("D"@ != "N"@);
    assert("C"@[0] != "R"@[0]);
    assert("C"@ != "R"@);
    assert("C"@[0] != "M"@[0]);
    assert("C"@ != "M"@);
    assert("C"@[0] != "N"@[0]);
    assert("C"@ != "N"@);
    assert("R"@[0] != "M"@[0]);
    assert("R"@ != "M"@);
    assert("R"@[0] != "N"@[0]);
    assert("R"@ != "N"@);
    assert("M"@[0] != "N"@[0]);
    assert("M"@ != "N"@);
    let es = change_json(c)->Object_0;
    assert(keys_distinct(es)) by {
        assert forall|a: int, b: int| 0 <= a < b < es.len() implies #[trigger] es[a].0 != #[trigger] es[b].0 by {
            if a == 0 && b == 1 {} else if a == 0 && b == 2 {} else if a == 0 && b == 3 {}
            else if a == 1 && b == 2 {} else if a == 1 && b == 3 {} else if a == 2 && b == 3 {}
        }
    }
    lemma_lookup_distinct(es, 0);
    if es.len() > 1 {
        lemma_lookup_distinct(es, 1);
    }
    if es.len() > 2 {
        lemma_lookup_distinct(es, 2);
    }
    if es.len() > 3 {
        lemma_lookup_distinct(es, 3);
    }
    match c {
        FileChangeModel::Modify { mode, dataref, path } => {
            lemma_dataref_roundtrip(dataref);
        },
        FileChangeModel::Note { dataref, commitish } => {
            lemma_dataref_roundtrip(dataref);
        },
        _ => {},
    }
}

proof fn lemma_merges_roundtrip(ms: Seq<Seq<char>>)
    ensures
        merges_from(ms.map_values(|m: Seq<char>| Json::Str(m))) == Ok::<
            Seq<Seq<char>>,
            Seq<char>,
        >(ms),
    decreases ms.len(),
{
    let js = ms.map_values(|m: Seq<char>| Json::Str(m));
    if ms.len() > 0 {
        lemma_merges_roundtrip(ms.drop_last());
        assert(js.drop_last() =~= ms.drop_last().map_values(|m: Seq<char>| Json::Str(m)));
        assert(ms.drop_last().push(ms.last()) =~= ms);
    } else {
        assert(ms =~= Seq::<Seq<char>>::empty());
    }
}

proof fn lemma_changes_roundtrip(cs: Seq<FileChangeModel>)
    ensures
        changes_from(cs.map_values(|fc: FileChangeModel| change_json(fc))) == Ok::<
            Seq<FileChangeModel>,
            Seq<char>,
        >(cs),
    decreases cs.len(),
{
    let js = cs.map_values(|fc: FileChangeModel| change_json(fc));
    if cs.len() > 0 {
        lemma_changes_roundtrip(cs.drop_last());
        lemma_change_roundtrip(cs.last());
        assert(js.drop_last() =~= cs.drop_last().map_values(|fc: FileChangeModel| change_json(fc)));
        assert(cs.drop_last().push(cs.last()) =~= cs);
    } else {
        assert(cs =~= Seq::<FileChangeModel>::empty());
    }
}

proof fn lemma_commit_keys(c: CommitModel)
    ensures
        keys_distinct(event_json(EventModel::Commit(c))->Object_0),
{
    reveal_strlit("type");
    reveal_strlit("branch");
    reveal_strlit("mark");
    reveal_strlit("author");
    reveal_strlit("committer");
    reveal_strlit("message_base64");
    reveal_strlit("from");
    reveal_strlit("merges");
    reveal_strlit("file_changes");
    assert("type"@.len() == 4);
    assert("branch"@.len() == 6);
    assert("mark"@.len() == 4);
    assert("author"@.len() == 6);
    assert("committer"@.len() == 9);
    assert("message_base64"@.len() == 14);
    assert("from"@.len() == 4);
    assert("merges"@.len() == 6);
    assert("file_changes"@.len() == 12);
    assert("type"@[0] != "mark"@[0]);
    assert("type"@ != "mark"@);
    assert("type"@[0] != "from"@[0]);
    assert("type"@ != "from"@);
    assert("branch"@[0] != "author"@[0]);
    assert("branch"@ != "author"@);
    assert("branch"@[0] != "merges"@[0]);
    assert("branch"@ != "merges"@);
    assert("mark"@[0] != "from"@[0]);
    assert("mark"@ != "from"@);
    assert("author"@[0] != "merges"@[0]);
    assert("author"@ != "merges"@);
    let es = event_json(EventModel::Commit(c))->Object_0;
    assert(es.len() == 9);
    assert forall|a: int, b: int| 0 <= a < b < es.len() implies #[trigger] es[a].0 != #[trigger] es[b].0 by {
        if a == 0 && b == 1 {}
        if a == 0 && b == 2 {}
        if a == 0 && b == 3 {}
        if a == 0 && b == 4 {}
        if a == 0 && b == 5 {}
        if a == 0 && b == 6 {}
        if a == 0 && b == 7 {}
        if a == 0 && b == 8 {}
        if a == 1 && b == 2 {}
        if a == 1 && b == 3 {}
        if a == 1 && b == 4 {}
        if a == 1 && b == 5 {}
        if a == 1 && b == 6 {}
        if a == 1 && b == 7 {}
        if a == 1 && b == 8 {}
        if a == 2 && b == 3 {}
        if a == 2 && b == 4 {}
        if a == 2 && b == 5 {}
        if a == 2 && b == 6 {}
        if a == 2 && b == 7 {}
        if a == 2 && b == 8 {}
        if a == 3 && b == 4 {}
        if a == 3 && b == 5 {}
        if a == 3 && b == 6 {}
        if a == 3 && b == 7 {}
        if a == 3 && b == 8 {}
        if a == 4 && b == 5 {}
        if a == 4 && b == 6 {}
        if a == 4 && b == 7 {}
        if a == 4 && b == 8 {}
        if a == 5 && b == 6 {}
        if a == 5 && b == 7 {}
        if a == 5 && b == 8 {}
        if a == 6 && b == 7 {}
        if a == 6 && b == 8 {}
        if a == 7 && b == 8 {}
    }
}

proof fn lemma_commit_roundtrip(c: CommitModel, lenient: bool)
    requires
        stamps_valid(EventModel::Commit(c)),
    ensures
        commit_from_json(event_json(EventModel::Commit(c)), lenient) == Ok::<EventModel, Seq<char>>(
            EventModel::Commit(c),
        ),
{
    let j = event_json(EventModel::Commit(c));
    let es = j->Object_0;
    lemma_commit_keys(c);
    lemma_lookup_distinct(es, 1);
    lemma_lookup_distinct(es, 2);
    lemma_lookup_distinct(es, 3);
    lemma_lookup_distinct(es, 4);
    lemma_lookup_distinct(es, 5);
    lemma_lookup_distinct(es, 6);
    lemma_lookup_distinct(es, 7);
    lemma_lookup_distinct(es, 8);
    lemma_opt_person_roundtrip(j, "author"@, c.author, lenient);
    lemma_person_roundtrip(c.committer, lenient);
    lemma_b64_field(j, "message_base64"@, "commit missing \"message_base64\""@, c.message);
    lemma_merges_roundtrip(c.merges);
    lemma_changes_roundtrip(c.file_changes);
    if let Some(m) = c.mark {
        lemma_mark_roundtrip(m);
    }
}

proof fn lemma_tag_keys(t: TagModel)
    ensures
        keys_distinct(event_json(EventModel::Tag(t))->Object_0),
{
    reveal_strlit("type");
    reveal_strlit("name");
    reveal_strlit("mark");
    reveal_strlit("from");
    reveal_strlit("tagger");
    reveal_strlit("message_base64");
    assert("type"@.len() == 4);
    assert("name"@.len() == 4);
    assert("mark"@.len() == 4);
    assert("from"@.len() == 4);
    assert("tagger"@.len() == 6);
    assert("message_base64"@.len() == 14);
    assert("type"@[0] != "name"@[0]);
    assert("type"@ != "name"@);
    assert("type"@[0] != "mark"@[0]);
    assert("type"@ != "mark"@);
    assert("type"@[0] != "from"@[0]);
    assert("type"@ != "from"@);
    assert("name"@[0] != "mark"@[0]);
    assert("name"@ != "mark"@);
    assert("name"@[0] != "from"@[0]);
    assert("name"@ != "from"@);
    assert("mark"@[0] != "from"@[0]);
    assert("mark"@ != "from"@);
    let es = event_json(EventModel::Tag(t))->Object_0;
    assert(es.len() == 6);
    assert forall|a: int, b: int| 0 <= a < b < es.len() implies #[trigger] es[a].0 != #[trigger] es[b].0 by {
        if a == 0 && b == 1 {}
        if a == 0 && b == 2 {}
        if a == 0 && b == 3 {}
        if a == 0 && b == 4 {}
        if a == 0 && b == 5 {}
        if a == 1 && b == 2 {}
        if a == 1 && b == 3 {}
        if a == 1 && b == 4 {}
        if a == 1 && b == 5 {}
        if a == 2 && b == 3 {}
        if a == 2 && b == 4 {}
        if a == 2 && b == 5 {}
        if a == 3 && b == 4 {}
        if a == 3 && b == 5 {}
        if a == 4 && b == 5 {}
    }
}

proof fn lemma_tag_roundtrip(t: TagModel, lenient: bool)
    requires
        stamps_valid(EventModel::Tag(t)),
    ensures
        tag_from_json(event_json(EventModel::Tag(t)), lenient) == Ok::<EventModel, Seq<char>>(
            EventModel::Tag(t),
        ),
{
    let j = event_json(EventModel::Tag(t));
    let es = j->Object_0;
    lemma_tag_keys(t);
    lemma_lookup_distinct(es, 1);
    lemma_lookup_distinct(es, 2);
    lemma_lookup_distinct(es, 3);
    lemma_lookup_distinct(es, 4);
    lemma_lookup_distinct(es, 5);
    lemma_opt_person_roundtrip(j, "tagger"@, t.tagger, lenient);
    lemma_b64_field(j, "message_base64"@, "tag missing \"message_base64\""@, t.message);
    if let Some(m) = t.mark {
        lemma_mark_roundtrip(m);
    }
}

/// Reading back the JSON object of any event gives the same event, as long
/// as its time zone offsets are valid (strict mode refuses invalid ones,
/// lenient mode replaces them).
pub proof fn lemma_event_json_roundtrip(e: EventModel, lenient: bool)
    requires
        stamps_valid(e),
    ensures
        event_from_json(event_json(e), lenient) == Ok::<EventModel, Seq<char>>(e),
{
    reveal_strlit("type");
    reveal_strlit("blob");
    reveal_strlit("reset");
    reveal_strlit("done");
    reveal_strlit("checkpoint");
    reveal_strlit("ls");
    reveal_strlit("tag");
    reveal_strlit("commit");
    reveal_strlit("mark");
    reveal_strlit("data_base64");
    reveal_strlit("branch");
    reveal_strlit("from");
    reveal_strlit("dataref");
    reveal_strlit("path");
    assert("type"@.len() == 4);
    assert("blob"@.len() == 4);
    assert("reset"@.len() == 5);
    assert("done"@.len() == 4);
    assert("checkpoint"@.len() == 10);
    assert("ls"@.len() == 2);
    assert("tag"@.len() == 3);
    assert("commit"@.len() == 6);
    assert("mark"@.len() == 4);
    assert("data_base64"@.len() == 11);
    assert("branch"@.len() == 6);
    assert("from"@.len() == 4);
    assert("dataref"@.len() == 7);
    assert("path"@.len() == 4);
    assert("type"@[0] != "blob"@[0]);
    assert("type"@ != "blob"@);
    assert("type"@[0] != "done"@[0]);
    assert("type"@ != "done"@);
    assert("type"@[0] != "mark"@[0]);
    assert("type"@ != "mark"@);
    assert("type"@[0] != "from"@[0]);
    assert("type"@ != "from"@);
    assert("type"@[0] != "path"@[0]);
    assert("type"@ != "path"@);
    assert("blob"@[0] != "done"@[0]);
    assert("blob"@ != "done"@);
    assert("blob"@[0] != "mark"@[0]);
    assert("blob"@ != "mark"@);
    assert("blob"@[0] != "from"@[0]);
    assert("blob"@ != "from"@);
    assert("blob"@[0] != "path"@[0]);
    assert("blob"@ != "path"@);
    assert("done"@[0] != "mark"@[0]);
    assert("done"@ != "mark"@);
    assert("done"@[0] != "from"@[0]);
    assert("done"@ != "from"@);
    assert("done"@[0] != "path"@[0]);
    assert("done"@ != "path"@);
    assert("commit"@[0] != "branch"@[0]);
    assert("commit"@ != "branch"@);
    assert("mark"@[0] != "from"@[0]);
    assert("mark"@ != "from"@);
    assert("mark"@[0] != "path"@[0]);
    assert("mark"@ != "path"@);
    assert("from"@[0] != "path"@[0]);
    assert("from"@ != "path"@);
    let j = event_json(e);
    let es = j->Object_0;
    assert(keys_distinct(es)) by {
        assert forall|a: int, b: int| 0 <= a < b < es.len() && es.len() <= 3 implies #[trigger] es[a].0 != #[trigger] es[b].0 by {
            if a == 0 && b == 1 {} else if a == 0 && b == 2 {} else if a == 1 && b == 2 {}
        }
        match e {
            EventModel::Commit(c) => lemma_commit_keys(c),
            EventModel::Tag(t) => lemma_tag_keys(t),
            _ => {},
        }
    }
    lemma_lookup_distinct(es, 0);
    match e {
        EventModel::Blob { mark, data } => {
            lemma_lookup_distinct(es, 1);
            lemma_lookup_distinct(es, 2);
            lemma_base64_roundtrip(data);
            if let Some(m) = mark {
                lemma_mark_roundtrip(m);
            }
        },
        EventModel::Reset { .. } => {
            lemma_lookup_distinct(es, 1);
            lemma_lookup_distinct(es, 2);
        },
        EventModel::Ls { .. } => {
            lemma_lookup_distinct(es, 1);
            lemma_lookup_distinct(es, 2);
        },
        EventModel::Commit(c) => {
            lemma_commit_roundtrip(c, lenient);
        },
        EventModel::Tag(t) => {
            lemma_tag_roundtrip(t, lenient);
        },
        _ => {},
    }
}

} // verus!
