//! A small JSON implementation: enough to round-trip the shapes that
//! `model::Event::to_json` produces. Numbers are `i64` only, and output is
//! always compact.
use vstd::prelude::*;
use crate::text::{push_char, push_decimal_i64, decimal_int, str_eq, char_from_u32, ws_run, is_digit, parse_i64_spec, lemma_ws_run_bounds, owned, skip_ws_index, parse_i64_chars, string_from_chars, push_str, chars_of, chars_eq, is_ws, all_digits, lemma_parse_decimal_int, lemma_decimal, decimal};

verus! {

broadcast use vstd::seq_lib::group_seq_properties;

/// A JSON value. Objects keep their entries in order, duplicates included.
#[derive(Debug)]
pub enum Value {
    Null,
    Bool(bool),
    Number(i64),
    String(String),
    Array(Vec<Value>),
    Object(Vec<(String, Value)>),
}

/// The mathematical form of a JSON value.
pub enum Json {
    Null,
    Bool(bool),
    Number(i64),
    Str(Seq<char>),
    Array(Seq<Json>),
    Object(Seq<(Seq<char>, Json)>),
}

/// The mathematical form of a value.
pub open spec fn value_view(v: Value) -> Json
    decreases v,
{
    match v {
        Value::Null => Json::Null,
        Value::Bool(b) => Json::Bool(b),
        Value::Number(n) => Json::Number(n),
        Value::String(s) => Json::Str(s@),
        Value::Array(items) => Json::Array(
            Seq::new(
                items.len() as nat,
                |i: int|
                    if 0 <= i < items.len() {
                        value_view(items@[i])
                    } else {
                        Json::Null
                    },
            ),
        ),
        Value::Object(entries) => Json::Object(
            Seq::new(
                entries.len() as nat,
                |i: int|
                    if 0 <= i < entries.len() {
                        (entries@[i].0@, value_view(entries@[i].1))
                    } else {
                        (Seq::empty(), Json::Null)
                    },
            ),
        ),
    }
}

impl View for Value {
    type V = Json;

    open spec fn view(&self) -> Json {
        value_view(*self)
    }
}

/// The value of the first entry of an object with the given key.
pub open spec fn lookup(entries: Seq<(Seq<char>, Json)>, key: Seq<char>) -> Option<Json>
    decreases entries.len(),
{
    if entries.len() == 0 {
        None
    } else if entries[0].0 == key {
        Some(entries[0].1)
    } else {
        lookup(entries.drop_first(), key)
    }
}

/// The lookup finds the first entry with the key.
pub proof fn lemma_lookup_at(entries: Seq<(Seq<char>, Json)>, i: int, key: Seq<char>)
    requires
        0 <= i < entries.len(),
        entries[i].0 == key,
        forall|k: int| 0 <= k < i ==> entries[k].0 != key,
    ensures
        lookup(entries, key) == Some(entries[i].1),
    decreases i,
{
    if i > 0 {
        lemma_lookup_at(entries.drop_first(), i - 1, key);
    }
}

/// No two entries share a key.
pub open spec fn keys_distinct(entries: Seq<(Seq<char>, Json)>) -> bool {
    forall|a: int, b: int|
        0 <= a < b < entries.len() ==> #[trigger] entries[a].0 != #[trigger] entries[b].0
}

pub proof fn lemma_lookup_distinct(entries: Seq<(Seq<char>, Json)>, i: int)
    requires
        keys_distinct(entries),
        0 <= i < entries.len(),
    ensures
        lookup(entries, entries[i].0) == Some(entries[i].1),
{
    lemma_lookup_at(entries, i, entries[i].0);
}

/// What `Value::get` gives: the first entry with the key, for an object.
pub open spec fn get_spec(v: Json, key: Seq<char>) -> Option<Json> {
    match v {
        Json::Object(entries) => lookup(entries, key),
        _ => None,
    }
}

impl Value {
    /// The text of a string value.
    pub fn as_str(&self) -> (res: Option<&str>)
        ensures
            res matches Some(s) ==> self@ == Json::Str(s@),
            res is None ==> !(self@ is Str),
    {
        match self {
            Value::String(s) => Some(s.as_str()),
            _ => None,
        }
    }

    /// The number of a number value.
    pub fn as_i64(&self) -> (res: Option<i64>)
        ensures
            res matches Some(n) ==> self@ == Json::Number(n),
            res is None ==> !(self@ is Number),
    {
        match self {
            Value::Number(n) => Some(*n),
            _ => None,
        }
    }

    /// The value of the first entry with the given key, for an object.
    pub fn get(&self, key: &str) -> (res: Option<&Value>)
        ensures
            res matches Some(v) ==> get_spec(self@, key@) == Some(v@),
            res is None ==> get_spec(self@, key@) is None,
    {
        match self {
            Value::Object(entries) => {
                let ghost es = self@->Object_0;
                let mut i: usize = 0;
                while i < entries.len()
                    invariant
                        i <= entries.len(),
                        es.len() == entries.len(),
                        forall|k: int|
                            0 <= k < entries.len() ==> #[trigger] es[k] == (
                                entries@[k].0@,
                                entries@[k].1@,
                            ),
                        lookup(es, key@) == lookup(es.skip(i as int), key@),
                        get_spec(self@, key@) == lookup(es, key@),
                    decreases entries.len() - i,
                {
                    assert(es.skip(i as int).drop_first() =~= es.skip(i + 1));
                    assert(es.skip(i as int)[0] == es[i as int]);
                    if str_eq(entries[i].0.as_str(), key) {
                        assert(lookup(es.skip(i as int), key@) == Some(es[i as int].1));
                        assert(es[i as int].1 == entries@[i as int].1@);
                        assert(get_spec(self@, key@) == lookup(es, key@));
                        return Some(&entries[i].1);
                    }
                    i = i + 1;
                }
                None
            },
            _ => None,
        }
    }
}

// ---------------------------------------------------------------------------
// Building values
// ---------------------------------------------------------------------------

/// The mathematical form of a list of object entries.
pub open spec fn entries_model(es: Seq<(String, Value)>) -> Seq<(Seq<char>, Json)> {
    es.map_values(|e: (String, Value)| (e.0@, e.1@))
}

/// The mathematical form of a list of values.
pub open spec fn items_model(vs: Seq<Value>) -> Seq<Json> {
    vs.map_values(|v: Value| v@)
}

pub proof fn lemma_array_model(items: Vec<Value>)
    ensures
        value_view(Value::Array(items)) == Json::Array(items_model(items@)),
{
    assert(value_view(Value::Array(items))->Array_0 =~= items_model(items@));
}

/// A string value with the characters of `s`.
pub fn string_value(s: &str) -> (v: Value)
    ensures
        v@ == Json::Str(s@),
{
    Value::String(owned(s))
}

/// Appends the entry `key: v` to a list of object entries.
pub fn push_entry(es: &mut Vec<(String, Value)>, key: &str, v: Value)
    ensures
        entries_model(final(es)@) == entries_model(old(es)@).push((key@, v@)),
{
    let ghost kv = (key@, v@);
    es.push((owned(key), v));
    assert(entries_model(es@) =~= entries_model(old(es)@).push(kv));
}

/// An object value with the given entries.
pub fn object_value(es: Vec<(String, Value)>) -> (v: Value)
    ensures
        v@ == Json::Object(entries_model(es@)),
{
    let ghost m = entries_model(es@);
    let v = Value::Object(es);
    proof {
        assert(value_view(v)->Object_0 =~= m);
    }
    v
}

/// Appends a value to a list of values.
pub fn push_item(vs: &mut Vec<Value>, v: Value)
    ensures
        items_model(final(vs)@) == items_model(old(vs)@).push(v@),
{
    let ghost x = v@;
    vs.push(v);
    assert(items_model(vs@) =~= items_model(old(vs)@).push(x));
}

/// An array value with the given items.
pub fn array_value(vs: Vec<Value>) -> (v: Value)
    ensures
        v@ == Json::Array(items_model(vs@)),
{
    let ghost m = items_model(vs@);
    let v = Value::Array(vs);
    proof {
        assert(value_view(v)->Array_0 =~= m);
    }
    v
}

/// The text of the entry `key` of an object, where that entry is a string.
pub open spec fn str_field(j: Json, key: Seq<char>) -> Option<Seq<char>> {
    match get_spec(j, key) {
        Some(Json::Str(s)) => Some(s),
        _ => None,
    }
}

/// The number of the entry `key` of an object, where that entry is a number.
pub open spec fn num_field(j: Json, key: Seq<char>) -> Option<i64> {
    match get_spec(j, key) {
        Some(Json::Number(n)) => Some(n),
        _ => None,
    }
}

impl Value {
    /// `self.get(key).and_then(Value::as_str)`.
    pub fn get_str(&self, key: &str) -> (res: Option<&str>)
        ensures
            res matches Some(s) ==> str_field(self@, key@) == Some(s@),
            res is None ==> str_field(self@, key@) is None,
    {
        match self.get(key) {
            Some(v) => v.as_str(),
            None => None,
        }
    }

    /// `self.get(key).and_then(Value::as_i64)`.
    pub fn get_i64(&self, key: &str) -> (res: Option<i64>)
        ensures
            res == num_field(self@, key@),
    {
        match self.get(key) {
            Some(v) => v.as_i64(),
            None => None,
        }
    }
}

// ---------------------------------------------------------------------------
// Writing
// ---------------------------------------------------------------------------

/// The lowercase hexadecimal digit for `d < 16`.
pub open spec fn hex_char(d: nat) -> char {
    if d < 10 {
        (48 + d) as char
    } else {
        (87 + d) as char
    }
}

/// How one character of a string is written inside the quotes.
pub open spec fn escape_char(c: char) -> Seq<char> {
    if c == '"' {
        seq!['\\', '"']
    } else if c == '\\' {
        seq!['\\', '\\']
    } else if c == '\n' {
        seq!['\\', 'n']
    } else if c == '\r' {
        seq!['\\', 'r']
    } else if c == '\t' {
        seq!['\\', 't']
    } else if (c as u32) < 0x20 {
        seq!['\\', 'u', '0', '0', hex_char((c as u32 / 16) as nat), hex_char((c as u32 % 16) as nat)]
    } else {
        seq![c]
    }
}

/// The escaped form of a string's characters.
pub open spec fn escaped(s: Seq<char>) -> Seq<char>
    decreases s.len(),
{
    if s.len() == 0 {
        Seq::empty()
    } else {
        escaped(s.drop_last()) + escape_char(s.last())
    }
}

/// A string written as a JSON string literal.
pub open spec fn quoted(s: Seq<char>) -> Seq<char> {
    seq!['"'] + escaped(s) + seq!['"']
}

/// The compact JSON text of a value.
pub open spec fn json_text(v: Json) -> Seq<char>
    decreases v,
{
    match v {
        Json::Null => seq!['n', 'u', 'l', 'l'],
        Json::Bool(b) => if b {
            seq!['t', 'r', 'u', 'e']
        } else {
            seq!['f', 'a', 'l', 's', 'e']
        },
        Json::Number(n) => decimal_int(n as int),
        Json::Str(s) => quoted(s),
        Json::Array(items) => seq!['['] + items_text(items) + seq![']'],
        Json::Object(entries) => seq!['{'] + entries_text(entries) + seq!['}'],
    }
}

/// The items of an array, separated by commas.
pub open spec fn items_text(items: Seq<Json>) -> Seq<char>
    decreases items,
{
    if items.len() == 0 {
        Seq::empty()
    } else if items.len() == 1 {
        json_text(items[0])
    } else {
        items_text(items.drop_last()) + seq![','] + json_text(items.last())
    }
}

/// One `"key":value` entry of an object.
pub open spec fn entry_text(e: (Seq<char>, Json)) -> Seq<char>
    decreases e,
{
    quoted(e.0) + seq![':'] + json_text(e.1)
}

/// The entries of an object, separated by commas.
pub open spec fn entries_text(entries: Seq<(Seq<char>, Json)>) -> Seq<char>
    decreases entries,
{
    if entries.len() == 0 {
        Seq::empty()
    } else if entries.len() == 1 {
        entry_text(entries[0])
    } else {
        entries_text(entries.drop_last()) + seq![','] + entry_text(entries.last())
    }
}

/// The lowercase hex digit for `d < 16`.
fn hex_digit_exec(d: u32) -> (c: char)
    requires
        d < 16,
    ensures
        c == hex_char(d as nat),
{
    let code: u32 = if d < 10 {
        48 + d
    } else {
        87 + d
    };
    match char_from_u32(code) {
        Some(c) => {
            proof {
                vstd::utf8::char_u32_cast(c, code);
            }
            c
        },
        None => {
            proof {
                assert(false);
            }
            ' '
        },
    }
}

/// Appends the escaped form of one character.
fn write_escaped_char(c: char, out: &mut String)
    ensures
        final(out)@ == old(out)@ + escape_char(c),
{
    let ghost before = out@;
    if c == '"' {
        push_char(out, '\\');
        push_char(out, '"');
    } else if c == '\\' {
        push_char(out, '\\');
        push_char(out, '\\');
    } else if c == '\n' {
        push_char(out, '\\');
        push_char(out, 'n');
    } else if c == '\r' {
        push_char(out, '\\');
        push_char(out, 'r');
    } else if c == '\t' {
        push_char(out, '\\');
        push_char(out, 't');
    } else if (c as u32) < 0x20 {
        let u = c as u32;
        push_char(out, '\\');
        push_char(out, 'u');
        push_char(out, '0');
        push_char(out, '0');
        push_char(out, hex_digit_exec(u / 16));
        push_char(out, hex_digit_exec(u % 16));
    } else {
        push_char(out, c);
    }
    assert(out@ =~= before + escape_char(c));
}

/// Appends a string as a JSON string literal.
fn write_json_string(s: &str, out: &mut String)
    ensures
        final(out)@ == old(out)@ + quoted(s@),
{
    let ghost start = out@;
    push_char(out, '"');
    for c in it: s.chars()
        invariant
            it.seq() == s@,
            out@ == start + seq!['"'] + escaped(s@.take(it.index() as int)),
    {
        let ghost i = it.index();
        proof {
            assert(s@.take(i + 1).drop_last() =~= s@.take(i as int));
        }
        write_escaped_char(c, out);
    }
    proof {
        assert(s@.take(s@.len() as int) =~= s@);
    }
    push_char(out, '"');
}

impl Value {
    /// The compact JSON text of this value.
    pub fn to_compact_string(&self) -> (out: String)
        ensures
            out@ == json_text(self@),
    {
        let mut out = String::new();
        self.write(&mut out);
        assert(out@ =~= json_text(self@));
        out
    }

    fn write(&self, out: &mut String)
        ensures
            final(out)@ == old(out)@ + json_text(self@),
        decreases self,
    {
        let ghost before = out@;
        match self {
            Value::Null => {
                push_char(out, 'n');
                push_char(out, 'u');
                push_char(out, 'l');
                push_char(out, 'l');
            },
            Value::Bool(b) => {
                if *b {
                    push_char(out, 't');
                    push_char(out, 'r');
                    push_char(out, 'u');
                    push_char(out, 'e');
                } else {
                    push_char(out, 'f');
                    push_char(out, 'a');
                    push_char(out, 'l');
                    push_char(out, 's');
                    push_char(out, 'e');
                }
            },
            Value::Number(n) => push_decimal_i64(out, *n),
            Value::String(s) => write_json_string(s.as_str(), out),
            Value::Array(items) => {
                let ghost vs = self@->Array_0;
                push_char(out, '[');
                let mut i: usize = 0;
                while i < items.len()
                    invariant
                        i <= items.len(),
                        vs.len() == items.len(),
                        forall|k: int| 0 <= k < items.len() ==> #[trigger] vs[k] == items@[k]@,
                        out@ == before + seq!['['] + items_text(vs.take(i as int)),
                        *self == Value::Array(*items),
                    decreases items.len() - i,
                {
                    proof {
                        assert(vs.take(i + 1).drop_last() =~= vs.take(i as int));
                        assert(vs.take(i + 1).last() == vs[i as int]);
                    }
                    if i > 0 {
                        push_char(out, ',');
                    }
                    proof {
                        assert(decreases_to!(items@ => items@[i as int]));
                        assert(decreases_to!(*items => items@));
                        assert(decreases_to!(*self => (*self)->Array_0));
                    }
                    items[i].write(out);
                    proof {
                        if i == 0 {
                            assert(vs.take(1)[0] == vs[0]);
                        }
                    }
                    i = i + 1;
                }
                assert(vs.take(items.len() as int) =~= vs);
                push_char(out, ']');
            },
            Value::Object(entries) => {
                let ghost es = self@->Object_0;
                push_char(out, '{');
                let mut i: usize = 0;
                while i < entries.len()
                    invariant
                        i <= entries.len(),
                        es.len() == entries.len(),
                        forall|k: int|
                            0 <= k < entries.len() ==> #[trigger] es[k] == (
                                entries@[k].0@,
                                entries@[k].1@,
                            ),
                        out@ == before + seq!['{'] + entries_text(es.take(i as int)),
                        *self == Value::Object(*entries),
                    decreases entries.len() - i,
                {
                    proof {
                        assert(es.take(i + 1).drop_last() =~= es.take(i as int));
                        assert(es.take(i + 1).last() == es[i as int]);
                    }
                    if i > 0 {
                        push_char(out, ',');
                    }
                    let ghost mid = out@;
                    write_json_string(entries[i].0.as_str(), out);
                    push_char(out, ':');
                    proof {
                        assert(decreases_to!(entries@ => entries@[i as int]));
                        assert(decreases_to!(*entries => entries@));
                        assert(decreases_to!(*self => (*self)->Object_0));
                        assert(decreases_to!(entries@[i as int] => entries@[i as int].1));
                    }
                    entries[i].1.write(out);
                    proof {
                        assert(out@ =~= mid + entry_text(es[i as int]));
                        if i == 0 {
                            assert(es.take(1)[0] == es[0]);
                        }
                    }
                    i = i + 1;
                }
                assert(es.take(entries.len() as int) =~= es);
                push_char(out, '}');
            },
        }
        assert(out@ =~= before + json_text(self@));
    }
}

// ---------------------------------------------------------------------------
// Reading
// ---------------------------------------------------------------------------
//
// Each step of the reader is specified on the whole input `cs` and a start
// index `p`; on success it gives the value read and the number of characters
// it took (leading whitespace included), on failure the error message.

/// The number of ASCII digits in `cs` from `p` on.
pub open spec fn digit_run(cs: Seq<char>, p: int) -> nat
    decreases cs.len() - p,
{
    if 0 <= p < cs.len() && is_digit(cs[p]) {
        1 + digit_run(cs, p + 1)
    } else {
        0
    }
}

/// A number at `p` (where `cs[p]` is `-` or a digit): an optional `-` and the
/// digits after it, read as an `i64`.
pub open spec fn p_number(cs: Seq<char>, p: int) -> Result<(Json, nat), Seq<char>> {
    let sign: nat = if cs[p] == '-' {
        1
    } else {
        0
    };
    let n = sign + digit_run(cs, p + sign);
    let text = cs.subrange(p, p + n);
    match parse_i64_spec(text) {
        Some(v) => Ok((Json::Number(v), n)),
        None => Err("invalid number: "@ + text),
    }
}

/// The literal `lit` at `p`, standing for `v`.
pub open spec fn p_literal(cs: Seq<char>, p: int, lit: Seq<char>, v: Json) -> Result<
    (Json, nat),
    Seq<char>,
> {
    if p + lit.len() > cs.len() || cs.subrange(p, p + lit.len()) != lit {
        Err("expected literal '"@ + lit + "'"@)
    } else {
        Ok((v, lit.len()))
    }
}

/// The value of a hexadecimal digit.
pub open spec fn hex_value(c: char) -> Option<nat> {
    if '0' <= c <= '9' {
        Some((c as nat - 48) as nat)
    } else if 'a' <= c <= 'f' {
        Some((c as nat - 87) as nat)
    } else if 'A' <= c <= 'F' {
        Some((c as nat - 55) as nat)
    } else {
        None
    }
}

/// The number that a sequence of hexadecimal digits spells.
pub open spec fn hex_digits_value(s: Seq<char>) -> nat
    decreases s.len(),
{
    if s.len() == 0 {
        0
    } else {
        hex_digits_value(s.drop_last()) * 16 + hex_value(s.last())->0
    }
}

pub open spec fn all_hex(s: Seq<char>) -> bool {
    forall|i: int| 0 <= i < s.len() ==> (#[trigger] hex_value(s[i])) is Some
}

/// The four characters at `p` read as `u32::from_str_radix(_, 16)` reads them:
/// an optional `+`, then hexadecimal digits only.
pub open spec fn hex4(cs: Seq<char>, p: int) -> Option<u32> {
    let d = if cs[p] == '+' {
        cs.subrange(p + 1, p + 4)
    } else {
        cs.subrange(p, p + 4)
    };
    if all_hex(d) {
        Some(hex_digits_value(d) as u32)
    } else {
        None
    }
}

/// The character that a one-letter escape (after `\`) stands for.
pub open spec fn simple_escape(e: char) -> Option<char> {
    if e == '"' {
        Some('"')
    } else if e == '\\' {
        Some('\\')
    } else if e == '/' {
        Some('/')
    } else if e == 'b' {
        Some('\u{8}')
    } else if e == 'f' {
        Some('\u{c}')
    } else if e == 'n' {
        Some('\n')
    } else if e == 'r' {
        Some('\r')
    } else if e == 't' {
        Some('\t')
    } else {
        None
    }
}

pub open spec fn is_scalar_value(u: u32) -> bool {
    u < 0xD800 || (0xE000 <= u <= 0x10FFFF)
}

/// The character that a `\u` escape stands for, with `q` just after the `u`:
/// the character and how many characters after `q` the escape takes.
pub open spec fn u_escape(cs: Seq<char>, q: int) -> Result<(char, nat), Seq<char>> {
    if q + 4 > cs.len() {
        Err("truncated \\u escape"@)
    } else {
        match hex4(cs, q) {
            None => Err("invalid hex digits in \\u escape"@),
            Some(cp) => if 0xD800 <= cp <= 0xDBFF {
                if q + 4 < cs.len() && cs[q + 4] == '\\' && q + 5 < cs.len() && cs[q + 5] == 'u' {
                    if q + 10 > cs.len() {
                        Err("truncated \\u escape"@)
                    } else {
                        match hex4(cs, q + 6) {
                            None => Err("invalid hex digits in \\u escape"@),
                            Some(low) => if !(0xDC00 <= low <= 0xDFFF) {
                                Err("invalid low surrogate in \\u escape"@)
                            } else {
                                Ok(
                                    (
                                        (0x10000 + (cp - 0xD800) * 1024 + (low - 0xDC00)) as char,
                                        10,
                                    ),
                                )
                            },
                        }
                    }
                } else {
                    Err("unpaired high surrogate in \\u escape"@)
                }
            } else if is_scalar_value(cp) {
                Ok((cp as char, 4))
            } else {
                Err("invalid unicode escape"@)
            },
        }
    }
}

/// One element of a string body at `p` (which is not the closing quote): the
/// character it stands for and how many characters beyond the first it takes.
pub open spec fn string_unit(cs: Seq<char>, p: int) -> Result<(char, nat), Seq<char>> {
    if cs[p] != '\\' {
        Ok((cs[p], 0))
    } else if p + 1 >= cs.len() {
        Err("invalid escape sequence"@)
    } else if simple_escape(cs[p + 1]) is Some {
        Ok((simple_escape(cs[p + 1])->0, 1))
    } else if cs[p + 1] == 'u' {
        match u_escape(cs, p + 2) {
            Ok((c, k)) => Ok((c, k + 1)),
            Err(e) => Err(e),
        }
    } else {
        Err("invalid escape sequence"@)
    }
}

/// The rest of a string from `p` (just after the opening quote or after an
/// earlier element) up to and including the closing quote.
pub open spec fn string_body(cs: Seq<char>, p: int) -> Result<(Seq<char>, nat), Seq<char>>
    decreases cs.len() - p,
{
    if p < 0 || p >= cs.len() {
        Err("unterminated string"@)
    } else if cs[p] == '"' {
        Ok((Seq::empty(), 1))
    } else {
        match string_unit(cs, p) {
            Err(e) => Err(e),
            Ok((c, k)) => match string_body(cs, p + 1 + k) {
                Err(e) => Err(e),
                Ok((s, n)) => Ok((seq![c] + s, 1 + k + n)),
            },
        }
    }
}

/// A string at `p` (where `cs[p]` is the opening quote).
pub open spec fn p_string(cs: Seq<char>, p: int) -> Result<(Seq<char>, nat), Seq<char>> {
    match string_body(cs, p + 1) {
        Ok((s, n)) => Ok((s, 1 + n)),
        Err(e) => Err(e),
    }
}

/// Adds the `w` characters of leading whitespace to a step's length.
pub open spec fn shifted<T>(r: Result<(T, nat), Seq<char>>, w: nat) -> Result<(T, nat), Seq<char>> {
    match r {
        Ok((v, n)) => Ok((v, w + n)),
        Err(e) => Err(e),
    }
}

/// A step for the rest of a sequence, with `acc` already read before it in
/// `w` characters.
pub open spec fn prepended<T>(r: Result<(Seq<T>, nat), Seq<char>>, acc: Seq<T>, w: nat) -> Result<
    (Seq<T>, nat),
    Seq<char>,
> {
    match r {
        Ok((rest, m)) => Ok((acc + rest, w + m)),
        Err(e) => Err(e),
    }
}

/// A value at `p`, after any whitespace.
pub open spec fn p_value(cs: Seq<char>, p: int) -> Result<(Json, nat), Seq<char>>
    decreases cs.len() - p, 1nat,
{
    let w = ws_run(cs, p);
    let q = p + w;
    if q < 0 || q >= cs.len() {
        Err("unexpected end of input"@)
    } else {
        let c = cs[q];
        if c == '{' {
            shifted(p_object(cs, q), w)
        } else if c == '[' {
            shifted(p_array(cs, q), w)
        } else if c == '"' {
            match p_string(cs, q) {
                Ok((s, n)) => Ok((Json::Str(s), w + n)),
                Err(e) => Err(e),
            }
        } else if c == 't' {
            shifted(p_literal(cs, q, "true"@, Json::Bool(true)), w)
        } else if c == 'f' {
            shifted(p_literal(cs, q, "false"@, Json::Bool(false)), w)
        } else if c == 'n' {
            shifted(p_literal(cs, q, "null"@, Json::Null), w)
        } else if c == '-' || is_digit(c) {
            shifted(p_number(cs, q), w)
        } else {
            Err("unexpected character: "@.push(c))
        }
    }
}

/// An array at `q` (where `cs[q]` is `[`).
pub open spec fn p_array(cs: Seq<char>, q: int) -> Result<(Json, nat), Seq<char>>
    decreases cs.len() - q, 0nat,
{
    let r = q + 1;
    let w = ws_run(cs, r);
    if q < 0 || q >= cs.len() {
        Err("unexpected end of input"@)
    } else if 0 <= r + w < cs.len() && cs[r + w] == ']' {
        Ok((Json::Array(Seq::empty()), 1 + w + 1))
    } else {
        proof {
            lemma_ws_run_bounds(cs, r);
        }
        match p_items(cs, r + w) {
            Ok((items, n)) => Ok((Json::Array(items), 1 + w + n)),
            Err(e) => Err(e),
        }
    }
}

/// One item of an array at `r` and the separator after it: the value, the
/// number of characters taken beyond the first, and whether more items follow.
pub open spec fn item_step(cs: Seq<char>, r: int) -> Result<(Json, nat, bool), Seq<char>>
    decreases cs.len() - r, 2nat,
{
    match p_value(cs, r) {
        Err(e) => Err(e),
        Ok((v, n)) => {
            let a = r + n;
            let w = ws_run(cs, a);
            let b = a + w;
            if 0 <= b < cs.len() && cs[b] == ',' {
                Ok((v, (n + w) as nat, true))
            } else if 0 <= b < cs.len() && cs[b] == ']' {
                Ok((v, (n + w) as nat, false))
            } else {
                Err("expected ',' or ']' in array"@)
            }
        },
    }
}

/// The items of a non-empty array from `r` on, up to and including the `]`.
pub open spec fn p_items(cs: Seq<char>, r: int) -> Result<(Seq<Json>, nat), Seq<char>>
    decreases cs.len() - r, 3nat,
{
    match item_step(cs, r) {
        Err(e) => Err(e),
        Ok((v, k, more)) => if more {
            if r + 1 + k <= cs.len() {
                prepended(p_items(cs, r + 1 + k), seq![v], 1 + k)
            } else {
                Err("expected ',' or ']' in array"@)
            }
        } else {
            Ok((seq![v], 1 + k))
        },
    }
}

/// An object at `q` (where `cs[q]` is `{`).
pub open spec fn p_object(cs: Seq<char>, q: int) -> Result<(Json, nat), Seq<char>>
    decreases cs.len() - q, 0nat,
{
    let r = q + 1;
    let w = ws_run(cs, r);
    if q < 0 || q >= cs.len() {
        Err("unexpected end of input"@)
    } else if 0 <= r + w < cs.len() && cs[r + w] == '}' {
        Ok((Json::Object(Seq::empty()), 1 + w + 1))
    } else {
        proof {
            lemma_ws_run_bounds(cs, r);
        }
        match p_members(cs, r + w) {
            Ok((entries, n)) => Ok((Json::Object(entries), 1 + w + n)),
            Err(e) => Err(e),
        }
    }
}

/// One entry of an object at `r` and the separator after it: the entry, the
/// number of characters taken beyond the first, and whether more entries follow.
pub open spec fn member_step(cs: Seq<char>, r: int) -> Result<((Seq<char>, Json), nat, bool), Seq<char>>
    decreases cs.len() - r, 2nat,
{
    let s = r + ws_run(cs, r);
    if s < 0 || s >= cs.len() || cs[s] != '"' {
        Err("expected string key in object"@)
    } else {
        match p_string(cs, s) {
            Err(e) => Err(e),
            Ok((key, k)) => {
                let a = s + k;
                let b = a + ws_run(cs, a);
                if b < 0 || b >= cs.len() || cs[b] != ':' {
                    Err("expected ':' after object key"@)
                } else {
                    match p_value(cs, b + 1) {
                        Err(e) => Err(e),
                        Ok((v, n)) => {
                            let c = b + 1 + n;
                            let d = c + ws_run(cs, c);
                            if r <= d < cs.len() && cs[d] == ',' {
                                Ok(((key, v), (d - r) as nat, true))
                            } else if r <= d < cs.len() && cs[d] == '}' {
                                Ok(((key, v), (d - r) as nat, false))
                            } else {
                                Err("expected ',' or '}' in object"@)
                            }
                        },
                    }
                }
            },
        }
    }
}

/// The entries of a non-empty object from `r` on, up to and including the `}`.
pub open spec fn p_members(cs: Seq<char>, r: int) -> Result<(Seq<(Seq<char>, Json)>, nat), Seq<char>>
    decreases cs.len() - r, 3nat,
{
    match member_step(cs, r) {
        Err(e) => Err(e),
        Ok((e, k, more)) => if more {
            if r + 1 + k <= cs.len() {
                prepended(p_members(cs, r + 1 + k), seq![e], 1 + k)
            } else {
                Err("expected ',' or '}' in object"@)
            }
        } else {
            Ok((seq![e], 1 + k))
        },
    }
}

/// What `parse` gives for a whole text: one value, with only whitespace
/// around it.
pub open spec fn parse_spec(cs: Seq<char>) -> Result<Json, Seq<char>> {
    match p_value(cs, 0) {
        Err(e) => Err(e),
        Ok((v, n)) => if n + ws_run(cs, n as int) == cs.len() {
            Ok(v)
        } else {
            Err("trailing characters after JSON value"@)
        },
    }
}

proof fn lemma_array_view(items: Vec<Value>, acc: Seq<Json>)
    requires
        acc.len() == items.len(),
        forall|k: int| 0 <= k < acc.len() ==> #[trigger] acc[k] == items@[k]@,
    ensures
        value_view(Value::Array(items)) == Json::Array(acc),
{
    assert(value_view(Value::Array(items))->Array_0 =~= acc);
}

proof fn lemma_object_view(entries: Vec<(String, Value)>, acc: Seq<(Seq<char>, Json)>)
    requires
        acc.len() == entries.len(),
        forall|k: int|
            0 <= k < acc.len() ==> #[trigger] acc[k] == (entries@[k].0@, entries@[k].1@),
    ensures
        value_view(Value::Object(entries)) == Json::Object(acc),
{
    assert(value_view(Value::Object(entries))->Object_0 =~= acc);
}

/// An error message as a new string.
fn message(m: &str) -> (out: String)
    ensures
        out@ == m@,
{
    owned(m)
}

/// Advances `pos` past whitespace.
fn skip_ws(chars: &[char], pos: &mut usize)
    requires
        *old(pos) <= chars.len(),
    ensures
        *final(pos) == *old(pos) + ws_run(chars@, *old(pos) as int),
        *final(pos) <= chars.len(),
{
    *pos = skip_ws_index(chars, *pos);
}

/// Reads a number at `pos` (where `chars[pos]` is `-` or a digit).
fn parse_number(chars: &[char], pos: &mut usize) -> (res: Result<Value, String>)
    requires
        *old(pos) < chars.len(),
        chars@[*old(pos) as int] == '-' || is_digit(chars@[*old(pos) as int]),
    ensures
        match p_number(chars@, *old(pos) as int) {
            Ok((v, n)) => res matches Ok(r) && r@ == v && *final(pos) == *old(pos) + n,
            Err(e) => res matches Err(m) && m@ == e,
        },
        *final(pos) <= chars.len(),
{
    let start = *pos;
    let ghost sign: nat = if chars@[start as int] == '-' {
        1
    } else {
        0
    };
    if chars[*pos] == '-' {
        *pos = *pos + 1;
    }
    assert(*pos == start + sign);
    while *pos < chars.len() && '0' <= chars[*pos] && chars[*pos] <= '9'
        invariant
            start + sign <= *pos <= chars.len(),
            digit_run(chars@, start + sign) == (*pos - start - sign) + digit_run(
                chars@,
                *pos as int,
            ),
        decreases chars.len() - *pos,
    {
        *pos = *pos + 1;
    }
    let text = &chars[start..*pos];
    match parse_i64_chars(text) {
        Some(n) => Ok(Value::Number(n)),
        None => {
            let mut m = message("invalid number: ");
            let t = string_from_chars(text);
            push_str(&mut m, t.as_str());
            Err(m)
        },
    }
}

/// Reads the literal `lit` at `pos`, giving `value`.
fn parse_literal(chars: &[char], pos: &mut usize, lit: &str, value: Value) -> (res: Result<
    Value,
    String,
>)
    requires
        *old(pos) <= chars.len(),
    ensures
        match p_literal(chars@, *old(pos) as int, lit@, value@) {
            Ok((v, n)) => res matches Ok(r) && r@ == v && *final(pos) == *old(pos) + n,
            Err(e) => res matches Err(m) && m@ == e,
        },
        *final(pos) <= chars.len(),
{
    let lit_chars = chars_of(lit);
    if lit_chars.len() > chars.len() - *pos || !chars_eq(
        &chars[*pos..*pos + lit_chars.len()],
        lit_chars.as_slice(),
    ) {
        let mut m = message("expected literal '");
        push_str(&mut m, lit);
        push_str(&mut m, "'");
        return Err(m);
    }
    *pos = *pos + lit_chars.len();
    Ok(value)
}

/// The value of a hexadecimal digit.
fn hex_value_exec(c: char) -> (res: Option<u32>)
    ensures
        res matches Some(v) ==> hex_value(c) == Some(v as nat) && v < 16,
        res is None ==> hex_value(c) is None,
{
    if '0' <= c && c <= '9' {
        Some(c as u32 - 48)
    } else if 'a' <= c && c <= 'f' {
        Some(c as u32 - 87)
    } else if 'A' <= c && c <= 'F' {
        Some(c as u32 - 55)
    } else {
        None
    }
}

/// Reads four characters at `pos` as `u32::from_str_radix(_, 16)` does.
fn hex4_exec(chars: &[char], p: usize) -> (res: Option<u32>)
    requires
        p + 4 <= chars.len(),
    ensures
        res == hex4(chars@, p as int),
{
    let start: usize = if chars[p] == '+' {
        p + 1
    } else {
        p
    };
    let ghost d = chars@.subrange(start as int, p + 4);
    let mut acc: u32 = 0;
    let mut i = start;
    assert(d.take(0) =~= Seq::<char>::empty());
    while i < p + 4
        invariant
            start <= i <= p + 4 <= chars.len(),
            p <= start <= p + 1,
            start == (if chars@[p as int] == '+' { p + 1 } else { p as int }),
            d == chars@.subrange(start as int, p + 4),
            all_hex(d.take(i - start)),
            acc == hex_digits_value(d.take(i - start)),
            acc < pow16(i - start),
        decreases p + 4 - i,
    {
        assert(d.take(i - start + 1).drop_last() =~= d.take(i - start));
        assert(d[i - start] == chars@[i as int]);
        match hex_value_exec(chars[i]) {
            Some(v) => {
                proof {
                    lemma_pow16_step(acc as nat, v as nat, (i - start) as nat);
                }
                acc = acc * 16 + v;
            },
            None => {
                assert(hex_value(d[i - start]) is None);
                assert(!all_hex(d));
                return None;
            },
        }
        i = i + 1;
        assert(all_hex(d.take(i - start))) by {
            assert forall|k: int| 0 <= k < i - start implies (#[trigger] hex_value(
                d.take(i - start)[k],
            )) is Some by {
                if k < i - 1 - start {
                    assert(d.take(i - start)[k] == d.take(i - 1 - start)[k]);
                }
            }
        }
    }
    assert(d.take(p + 4 - start) =~= d);
    Some(acc)
}

pub open spec fn pow16(k: int) -> nat
    decreases k,
{
    if k <= 0 {
        1
    } else {
        16 * pow16(k - 1)
    }
}

proof fn lemma_pow16_step(acc: nat, v: nat, k: nat)
    requires
        acc < pow16(k as int),
        v < 16,
        k < 4,
    ensures
        acc * 16 + v < pow16(k + 1int),
        pow16(k + 1int) <= 65536,
{
    reveal_with_fuel(pow16, 5);
    assert(acc * 16 + v < pow16(k as int) * 16) by (nonlinear_arith)
        requires
            acc < pow16(k as int),
            v < 16,
    ;
}

/// Reads a `\u` escape's four hex digits at `pos`, advancing past them.
fn parse_hex4(chars: &[char], pos: &mut usize) -> (res: Result<u32, String>)
    requires
        *old(pos) <= chars.len(),
    ensures
        *old(pos) + 4 > chars.len() ==> (res matches Err(m) && m@ == "truncated \\u escape"@),
        *old(pos) + 4 <= chars.len() ==> *final(pos) == *old(pos) + 4 && (match hex4(
            chars@,
            *old(pos) as int,
        ) {
            Some(v) => res == Ok::<u32, String>(v),
            None => (res matches Err(m) && m@ == "invalid hex digits in \\u escape"@),
        }),
        *final(pos) <= chars.len(),
{
    if chars.len() - *pos < 4 {
        return Err(message("truncated \\u escape"));
    }
    let p = *pos;
    *pos = *pos + 4;
    match hex4_exec(chars, p) {
        Some(v) => Ok(v),
        None => Err(message("invalid hex digits in \\u escape")),
    }
}

/// Reads the rest of a `\u` escape, with `pos` just after the `u`.
fn parse_u_escape(chars: &[char], pos: &mut usize) -> (res: Result<char, String>)
    requires
        *old(pos) <= chars.len(),
    ensures
        match u_escape(chars@, *old(pos) as int) {
            Ok((c, k)) => res == Ok::<char, String>(c) && *final(pos) == *old(pos) + k,
            Err(e) => res matches Err(m) && m@ == e,
        },
        *final(pos) <= chars.len(),
{
    let cp = parse_hex4(chars, pos)?;
    if 0xD800 <= cp && cp <= 0xDBFF {
        if *pos < chars.len() && chars[*pos] == '\\' && *pos + 1 < chars.len() && chars[*pos + 1]
            == 'u' {
            *pos = *pos + 2;
            let low = parse_hex4(chars, pos)?;
            if !(0xDC00 <= low && low <= 0xDFFF) {
                return Err(message("invalid low surrogate in \\u escape"));
            }
            let combined = 0x10000 + (cp - 0xD800) * 1024 + (low - 0xDC00);
            match char_from_u32(combined) {
                Some(ch) => {
                    proof {
                        vstd::utf8::char_u32_cast(ch, combined);
                    }
                    Ok(ch)
                },
                None => Err(message("invalid unicode escape")),
            }
        } else {
            Err(message("unpaired high surrogate in \\u escape"))
        }
    } else {
        match char_from_u32(cp) {
            Some(ch) => {
                proof {
                    vstd::utf8::char_u32_cast(ch, cp);
                }
                Ok(ch)
            },
            None => Err(message("invalid unicode escape")),
        }
    }
}

/// Reads one element of a string body at `pos` (not the closing quote).
fn parse_string_unit(chars: &[char], pos: &mut usize) -> (res: Result<char, String>)
    requires
        *old(pos) < chars.len(),
        chars@[*old(pos) as int] != '"',
    ensures
        match string_unit(chars@, *old(pos) as int) {
            Ok((c, k)) => res == Ok::<char, String>(c) && *final(pos) == *old(pos) + 1 + k,
            Err(e) => res matches Err(m) && m@ == e,
        },
        *final(pos) <= chars.len(),
{
    let c = chars[*pos];
    if c != '\\' {
        *pos = *pos + 1;
        return Ok(c);
    }
    *pos = *pos + 1;
    if *pos >= chars.len() {
        return Err(message("invalid escape sequence"));
    }
    let e = chars[*pos];
    let simple: Option<char> = if e == '"' {
        Some('"')
    } else if e == '\\' {
        Some('\\')
    } else if e == '/' {
        Some('/')
    } else if e == 'b' {
        Some('\u{8}')
    } else if e == 'f' {
        Some('\u{c}')
    } else if e == 'n' {
        Some('\n')
    } else if e == 'r' {
        Some('\r')
    } else if e == 't' {
        Some('\t')
    } else {
        None
    };
    match simple {
        Some(ch) => {
            *pos = *pos + 1;
            Ok(ch)
        },
        None => {
            if e == 'u' {
                *pos = *pos + 1;
                parse_u_escape(chars, pos)
            } else {
                Err(message("invalid escape sequence"))
            }
        },
    }
}

/// Reads a string at `pos` (where `chars[pos]` is the opening quote).
fn parse_string(chars: &[char], pos: &mut usize) -> (res: Result<String, String>)
    requires
        *old(pos) < chars.len(),
        chars@[*old(pos) as int] == '"',
    ensures
        match p_string(chars@, *old(pos) as int) {
            Ok((s, n)) => res matches Ok(r) && r@ == s && *final(pos) == *old(pos) + n,
            Err(e) => res matches Err(m) && m@ == e,
        },
        *final(pos) <= chars.len(),
{
    *pos = *pos + 1;
    let ghost p0 = *pos;
    let mut out = String::new();
    loop
        invariant_except_break
            p0 == *old(pos) + 1,
            p0 <= *pos <= chars.len(),
            string_body(chars@, p0 as int) == prepended(
                string_body(chars@, *pos as int),
                out@,
                (*pos - p0) as nat,
            ),
        ensures
            p0 == *old(pos) + 1,
            p0 <= *pos <= chars.len(),
            string_body(chars@, p0 as int) == Ok::<(Seq<char>, nat), Seq<char>>(
                (out@, (*pos - p0) as nat),
            ),
        decreases chars.len() - *pos,
    {
        if *pos >= chars.len() {
            return Err(message("unterminated string"));
        }
        if chars[*pos] == '"' {
            *pos = *pos + 1;
            assert(out@ + Seq::<char>::empty() =~= out@);
            break;
        }
        let ghost before = out@;
        let ghost p = *pos;
        let c = parse_string_unit(chars, pos)?;
        push_char(&mut out, c);
        proof {
            match string_body(chars@, *pos as int) {
                Ok((s, n)) => {
                    assert(before + (seq![c] + s) =~= out@ + s);
                },
                Err(_) => {},
            }
        }
    }
    Ok(out)
}

/// Reads a value at `pos`, after any whitespace.
fn parse_value(chars: &[char], pos: &mut usize) -> (res: Result<Value, String>)
    requires
        *old(pos) <= chars.len(),
    ensures
        match p_value(chars@, *old(pos) as int) {
            Ok((v, n)) => res matches Ok(r) && r@ == v && *final(pos) == *old(pos) + n,
            Err(e) => res matches Err(m) && m@ == e,
        },
        *final(pos) <= chars.len(),
    decreases chars.len() - *old(pos), 1nat,
{
    skip_ws(chars, pos);
    if *pos >= chars.len() {
        return Err(message("unexpected end of input"));
    }
    let c = chars[*pos];
    if c == '{' {
        parse_object(chars, pos)
    } else if c == '[' {
        parse_array(chars, pos)
    } else if c == '"' {
        match parse_string(chars, pos) {
            Ok(s) => Ok(Value::String(s)),
            Err(e) => Err(e),
        }
    } else if c == 't' {
        parse_literal(chars, pos, "true", Value::Bool(true))
    } else if c == 'f' {
        parse_literal(chars, pos, "false", Value::Bool(false))
    } else if c == 'n' {
        parse_literal(chars, pos, "null", Value::Null)
    } else if c == '-' || ('0' <= c && c <= '9') {
        parse_number(chars, pos)
    } else {
        let mut m = message("unexpected character: ");
        push_char(&mut m, c);
        Err(m)
    }
}

/// Reads one array item at `pos` and the separator after it; says whether
/// more items follow.
fn parse_array_item(chars: &[char], pos: &mut usize) -> (res: Result<(Value, bool), String>)
    requires
        *old(pos) <= chars.len(),
    ensures
        match item_step(chars@, *old(pos) as int) {
            Ok((v, k, more)) => res matches Ok((r, m)) && r@ == v && m == more && *final(pos)
                == *old(pos) + 1 + k,
            Err(e) => res matches Err(m) && m@ == e,
        },
        *final(pos) <= chars.len(),
    decreases chars.len() - *old(pos), 2nat,
{
    let value = parse_value(chars, pos)?;
    skip_ws(chars, pos);
    if *pos < chars.len() && chars[*pos] == ',' {
        *pos = *pos + 1;
        Ok((value, true))
    } else if *pos < chars.len() && chars[*pos] == ']' {
        *pos = *pos + 1;
        Ok((value, false))
    } else {
        Err(message("expected ',' or ']' in array"))
    }
}

/// Reads an array at `pos` (where `chars[pos]` is `[`).
fn parse_array(chars: &[char], pos: &mut usize) -> (res: Result<Value, String>)
    requires
        *old(pos) < chars.len(),
        chars@[*old(pos) as int] == '[',
    ensures
        match p_array(chars@, *old(pos) as int) {
            Ok((v, n)) => res matches Ok(r) && r@ == v && *final(pos) == *old(pos) + n,
            Err(e) => res matches Err(m) && m@ == e,
        },
        *final(pos) <= chars.len(),
    decreases chars.len() - *old(pos), 0nat,
{
    let ghost q = *pos;
    *pos = *pos + 1;
    let mut items: Vec<Value> = Vec::new();
    skip_ws(chars, pos);
    if *pos < chars.len() && chars[*pos] == ']' {
        *pos = *pos + 1;
        proof {
            lemma_array_view(items, Seq::empty());
        }
        return Ok(Value::Array(items));
    }
    let ghost r0 = *pos;
    let ghost mut acc: Seq<Json> = Seq::empty();
    loop
        invariant_except_break
            q == *old(pos),
            q < r0 <= *pos <= chars.len(),
            r0 == q + 1 + ws_run(chars@, q + 1),
            !(r0 < chars.len() && chars@[r0 as int] == ']'),
            acc.len() == items.len(),
            forall|k: int| 0 <= k < acc.len() ==> #[trigger] acc[k] == items@[k]@,
            p_items(chars@, r0 as int) == prepended(
                p_items(chars@, *pos as int),
                acc,
                (*pos - r0) as nat,
            ),
        ensures
            q == *old(pos),
            q < r0 <= *pos <= chars.len(),
            r0 == q + 1 + ws_run(chars@, q + 1),
            !(r0 < chars.len() && chars@[r0 as int] == ']'),
            acc.len() == items.len(),
            forall|k: int| 0 <= k < acc.len() ==> #[trigger] acc[k] == items@[k]@,
            p_items(chars@, r0 as int) == Ok::<(Seq<Json>, nat), Seq<char>>(
                (acc, (*pos - r0) as nat),
            ),
        decreases chars.len() - *pos,
    {
        let (value, more) = parse_array_item(chars, pos)?;
        let ghost v = value@;
        items.push(value);
        proof {
            let old_acc = acc;
            acc = acc.push(v);
            if more {
                match p_items(chars@, *pos as int) {
                    Ok((rest, m)) => {
                        assert(old_acc + (seq![v] + rest) =~= acc + rest);
                    },
                    Err(_) => {},
                }
            } else {
                assert(old_acc + seq![v] =~= acc);
            }
        }
        if !more {
            break;
        }
    }
    proof {
        lemma_array_view(items, acc);
    }
    Ok(Value::Array(items))
}

/// Reads one object entry at `pos` and the separator after it; says whether
/// more entries follow.
fn parse_object_member(chars: &[char], pos: &mut usize) -> (res: Result<(String, Value, bool), String>)
    requires
        *old(pos) <= chars.len(),
    ensures
        match member_step(chars@, *old(pos) as int) {
            Ok((e, k, more)) => res matches Ok((key, r, m)) && key@ == e.0 && r@ == e.1 && m
                == more && *final(pos) == *old(pos) + 1 + k,
            Err(e) => res matches Err(m) && m@ == e,
        },
        *final(pos) <= chars.len(),
    decreases chars.len() - *old(pos), 2nat,
{
    skip_ws(chars, pos);
    if *pos >= chars.len() || chars[*pos] != '"' {
        return Err(message("expected string key in object"));
    }
    let key = parse_string(chars, pos)?;
    skip_ws(chars, pos);
    if *pos >= chars.len() || chars[*pos] != ':' {
        return Err(message("expected ':' after object key"));
    }
    *pos = *pos + 1;
    let value = parse_value(chars, pos)?;
    skip_ws(chars, pos);
    if *pos < chars.len() && chars[*pos] == ',' {
        *pos = *pos + 1;
        Ok((key, value, true))
    } else if *pos < chars.len() && chars[*pos] == '}' {
        *pos = *pos + 1;
        Ok((key, value, false))
    } else {
        Err(message("expected ',' or '}' in object"))
    }
}

/// Reads an object at `pos` (where `chars[pos]` is `{`).
fn parse_object(chars: &[char], pos: &mut usize) -> (res: Result<Value, String>)
    requires
        *old(pos) < chars.len(),
        chars@[*old(pos) as int] == '{',
    ensures
        match p_object(chars@, *old(pos) as int) {
            Ok((v, n)) => res matches Ok(r) && r@ == v && *final(pos) == *old(pos) + n,
            Err(e) => res matches Err(m) && m@ == e,
        },
        *final(pos) <= chars.len(),
    decreases chars.len() - *old(pos), 0nat,
{
    let ghost q = *pos;
    *pos = *pos + 1;
    let mut entries: Vec<(String, Value)> = Vec::new();
    skip_ws(chars, pos);
    if *pos < chars.len() && chars[*pos] == '}' {
        *pos = *pos + 1;
        proof {
            lemma_object_view(entries, Seq::empty());
        }
        return Ok(Value::Object(entries));
    }
    let ghost r0 = *pos;
    let ghost mut acc: Seq<(Seq<char>, Json)> = Seq::empty();
    loop
        invariant_except_break
            q == *old(pos),
            q < r0 <= *pos <= chars.len(),
            r0 == q + 1 + ws_run(chars@, q + 1),
            !(r0 < chars.len() && chars@[r0 as int] == '}'),
            acc.len() == entries.len(),
            forall|k: int|
                0 <= k < acc.len() ==> #[trigger] acc[k] == (entries@[k].0@, entries@[k].1@),
            p_members(chars@, r0 as int) == prepended(
                p_members(chars@, *pos as int),
                acc,
                (*pos - r0) as nat,
            ),
        ensures
            q == *old(pos),
            q < r0 <= *pos <= chars.len(),
            r0 == q + 1 + ws_run(chars@, q + 1),
            !(r0 < chars.len() && chars@[r0 as int] == '}'),
            acc.len() == entries.len(),
            forall|k: int|
                0 <= k < acc.len() ==> #[trigger] acc[k] == (entries@[k].0@, entries@[k].1@),
            p_members(chars@, r0 as int) == Ok::<(Seq<(Seq<char>, Json)>, nat), Seq<char>>(
                (acc, (*pos - r0) as nat),
            ),
        decreases chars.len() - *pos,
    {
        let (key, value, more) = parse_object_member(chars, pos)?;
        let ghost e = (key@, value@);
        entries.push((key, value));
        proof {
            let old_acc = acc;
            acc = acc.push(e);
            if more {
                match p_members(chars@, *pos as int) {
                    Ok((rest, m)) => {
                        assert(old_acc + (seq![e] + rest) =~= acc + rest);
                    },
                    Err(_) => {},
                }
            } else {
                assert(old_acc + seq![e] =~= acc);
            }
        }
        if !more {
            break;
        }
    }
    proof {
        lemma_object_view(entries, acc);
    }
    Ok(Value::Object(entries))
}

/// Parses a whole JSON text: one value, with only whitespace around it.
pub fn parse(input: &str) -> (res: Result<Value, String>)
    ensures
        match parse_spec(input@) {
            Ok(v) => res matches Ok(r) && r@ == v,
            Err(e) => res matches Err(m) && m@ == e,
        },
{
    let chars = chars_of(input);
    let mut pos: usize = 0;
    skip_ws(chars.as_slice(), &mut pos);
    proof {
        lemma_p_value_skip(chars@, 0);
    }
    let value = parse_value(chars.as_slice(), &mut pos)?;
    skip_ws(chars.as_slice(), &mut pos);
    if pos != chars.len() {
        return Err(message("trailing characters after JSON value"));
    }
    Ok(value)
}

/// Reading a value after skipping the whitespace before it changes nothing
/// but the count.
proof fn lemma_p_value_skip(cs: Seq<char>, p: int)
    requires
        0 <= p <= cs.len(),
    ensures
        p_value(cs, p) == shifted(p_value(cs, p + ws_run(cs, p)), ws_run(cs, p)),
{
    lemma_ws_run_bounds(cs, p);
    let q = p + ws_run(cs, p);
    assert(ws_run(cs, q) == 0);
    reveal_with_fuel(p_value, 2);
}

// ---------------------------------------------------------------------------
// Round trip
// ---------------------------------------------------------------------------

/// `x` stands in `cs` at index `p`.
pub open spec fn at(cs: Seq<char>, p: int, x: Seq<char>) -> bool {
    0 <= p && p + x.len() <= cs.len() && cs.subrange(p, p + x.len()) == x
}

proof fn lemma_at_split(cs: Seq<char>, p: int, x: Seq<char>, y: Seq<char>)
    requires
        at(cs, p, x + y),
    ensures
        at(cs, p, x),
        at(cs, p + x.len(), y),
{
    assert(cs.subrange(p, p + x.len()) =~= (x + y).subrange(0, x.len() as int));
    assert(cs.subrange(p + x.len(), p + x.len() + y.len()) =~= (x + y).subrange(
        x.len() as int,
        (x + y).len() as int,
    ));
}

proof fn lemma_at_index(cs: Seq<char>, p: int, x: Seq<char>, i: int)
    requires
        at(cs, p, x),
        0 <= i < x.len(),
    ensures
        cs[p + i] == x[i],
{
    assert(cs.subrange(p, p + x.len())[i] == cs[p + i]);
}

proof fn lemma_escaped_front(s: Seq<char>)
    requires
        s.len() > 0,
    ensures
        escaped(s) == escape_char(s[0]) + escaped(s.drop_first()),
    decreases s.len(),
{
    if s.len() == 1 {
        assert(s.drop_last() =~= Seq::<char>::empty());
        assert(s.drop_first() =~= Seq::<char>::empty());
        assert(escaped(s.drop_first()) == Seq::<char>::empty());
        assert(escaped(s.drop_last()) == Seq::<char>::empty());
        assert(escaped(s) =~= escape_char(s[0]));
    } else {
        lemma_escaped_front(s.drop_last());
        assert(s.drop_last().drop_first() =~= s.drop_first().drop_last());
        assert(s.drop_first().last() == s.last());
        assert(s.drop_last()[0] == s[0]);
        assert(escaped(s) =~= escape_char(s[0]) + escaped(s.drop_first()));
    }
}

proof fn lemma_items_front(items: Seq<Json>)
    requires
        items.len() > 1,
    ensures
        items_text(items) == json_text(items[0]) + seq![','] + items_text(items.drop_first()),
    decreases items.len(),
{
    if items.len() == 2 {
        assert(items.drop_last().len() == 1);
        assert(items.drop_first().len() == 1);
        assert(items.drop_last()[0] == items[0]);
        assert(items.drop_first()[0] == items.last());
        assert(items_text(items.drop_last()) == json_text(items[0]));
        assert(items_text(items.drop_first()) == json_text(items.last()));
        assert(items_text(items) =~= json_text(items[0]) + seq![','] + items_text(
            items.drop_first(),
        ));
    } else {
        lemma_items_front(items.drop_last());
        assert(items.drop_last().drop_first() =~= items.drop_first().drop_last());
        assert(items.drop_first().last() == items.last());
        assert(items.drop_last()[0] == items[0]);
        assert(items_text(items) =~= json_text(items[0]) + seq![','] + items_text(
            items.drop_first(),
        ));
    }
}

proof fn lemma_entries_front(entries: Seq<(Seq<char>, Json)>)
    requires
        entries.len() > 1,
    ensures
        entries_text(entries) == entry_text(entries[0]) + seq![','] + entries_text(
            entries.drop_first(),
        ),
    decreases entries.len(),
{
    if entries.len() == 2 {
        assert(entries.drop_last().len() == 1);
        assert(entries.drop_first().len() == 1);
        assert(entries.drop_last()[0] == entries[0]);
        assert(entries.drop_first()[0] == entries.last());
        assert(entries_text(entries.drop_last()) == entry_text(entries[0]));
        assert(entries_text(entries.drop_first()) == entry_text(entries.last()));
        assert(entries_text(entries) =~= entry_text(entries[0]) + seq![','] + entries_text(
            entries.drop_first(),
        ));
    } else {
        lemma_entries_front(entries.drop_last());
        assert(entries.drop_last().drop_first() =~= entries.drop_first().drop_last());
        assert(entries.drop_first().last() == entries.last());
        assert(entries.drop_last()[0] == entries[0]);
        assert(entries_text(entries) =~= entry_text(entries[0]) + seq![','] + entries_text(
            entries.drop_first(),
        ));
    }
}

proof fn lemma_hex_char(d: nat)
    requires
        d < 16,
    ensures
        hex_value(hex_char(d)) == Some(d),
        hex_char(d) != '+',
{
}

/// Reading an escaped character back gives the character.
proof fn lemma_escape_char_read(cs: Seq<char>, p: int, c: char)
    requires
        at(cs, p, escape_char(c)),
    ensures
        cs[p] != '"',
        string_unit(cs, p) == Ok::<(char, nat), Seq<char>>((c, (escape_char(c).len() - 1) as nat)),
{
    let e = escape_char(c);
    lemma_at_index(cs, p, e, 0);
    if e.len() > 1 {
        lemma_at_index(cs, p, e, 1);
    }
    if c != '"' && c != '\\' && c != '\n' && c != '\r' && c != '\t' && (c as u32) < 0x20 {
        let u = c as u32;
        let hi = (u / 16) as nat;
        let lo = (u % 16) as nat;
        lemma_at_index(cs, p, e, 2);
        lemma_at_index(cs, p, e, 3);
        lemma_at_index(cs, p, e, 4);
        lemma_at_index(cs, p, e, 5);
        lemma_hex_char(hi);
        lemma_hex_char(lo);
        let d = cs.subrange(p + 2, p + 6);
        assert(d =~= seq!['0', '0', hex_char(hi), hex_char(lo)]);
        assert(all_hex(d));
        assert(d.drop_last().drop_last().drop_last().drop_last() =~= Seq::<char>::empty());
        assert(d.drop_last().drop_last().drop_last() =~= seq!['0']);
        assert(d.drop_last().drop_last() =~= seq!['0', '0']);
        assert(d.drop_last() =~= seq!['0', '0', hex_char(hi)]);
        assert(seq!['0'].drop_last() =~= Seq::<char>::empty());
        assert(hex_digits_value(Seq::<char>::empty()) == 0);
        assert(hex_value('0') == Some(0nat));
        assert(hex_digits_value(seq!['0']) == 0);
        assert(seq!['0', '0'].drop_last() =~= seq!['0']);
        assert(seq!['0', '0', hex_char(hi)].drop_last() =~= seq!['0', '0']);
        assert(hex_digits_value(seq!['0', '0']) == 0);
        assert(hex_digits_value(seq!['0', '0', hex_char(hi)]) == hi);
        assert(hex_digits_value(d) == hi * 16 + lo);
        assert(hex4(cs, p + 2) == Some(u));
        vstd::utf8::char_u32_cast(c, u);
    }
}

/// Reading the escaped characters of `s` and the closing quote gives `s`.
proof fn lemma_string_body_read(cs: Seq<char>, p: int, s: Seq<char>)
    requires
        at(cs, p, escaped(s) + seq!['"']),
    ensures
        string_body(cs, p) == Ok::<(Seq<char>, nat), Seq<char>>((s, escaped(s).len() + 1)),
    decreases s.len(),
{
    if s.len() == 0 {
        assert(escaped(s) + seq!['"'] =~= seq!['"']);
        lemma_at_index(cs, p, seq!['"'], 0);
    } else {
        lemma_escaped_front(s);
        let e = escape_char(s[0]);
        let rest = escaped(s.drop_first());
        assert(escaped(s) + seq!['"'] =~= e + (rest + seq!['"']));
        lemma_at_split(cs, p, e, rest + seq!['"']);
        lemma_escape_char_read(cs, p, s[0]);
        lemma_string_body_read(cs, p + e.len(), s.drop_first());
        assert(seq![s[0]] + s.drop_first() =~= s);
    }
}

proof fn lemma_string_read(cs: Seq<char>, p: int, s: Seq<char>)
    requires
        at(cs, p, quoted(s)),
    ensures
        p_string(cs, p) == Ok::<(Seq<char>, nat), Seq<char>>((s, quoted(s).len())),
        cs[p] == '"',
{
    assert(quoted(s) =~= seq!['"'] + (escaped(s) + seq!['"']));
    lemma_at_split(cs, p, seq!['"'], escaped(s) + seq!['"']);
    lemma_at_index(cs, p, quoted(s), 0);
    lemma_string_body_read(cs, p + 1, s);
}

/// The text of a value starts with a character that is not whitespace, and
/// that is a digit or `-` only for numbers.
proof fn lemma_json_text_first(v: Json)
    ensures
        json_text(v).len() > 0,
        !is_ws(json_text(v)[0]),
        (json_text(v)[0] == '-' || is_digit(json_text(v)[0])) ==> v is Number,
{
    match v {
        Json::Number(n) => {
            lemma_parse_decimal_int(n);
        },
        _ => {},
    }
}

pub open spec fn ends_value(cs: Seq<char>, e: int) -> bool {
    e == cs.len() || (0 <= e < cs.len() && !is_digit(cs[e]))
}

proof fn lemma_digit_run(cs: Seq<char>, p: int, n: nat)
    requires
        0 <= p,
        p + n <= cs.len(),
        all_digits(cs.subrange(p, p + n)),
        ends_value(cs, p + n),
    ensures
        digit_run(cs, p) == n,
    decreases n,
{
    if n > 0 {
        assert(cs.subrange(p, p + n)[0] == cs[p]);
        assert(cs.subrange(p + 1, p + n) =~= cs.subrange(p, p + n).drop_first());
        lemma_digit_run(cs, p + 1, (n - 1) as nat);
    }
}

proof fn lemma_number_read(cs: Seq<char>, p: int, n: i64)
    requires
        at(cs, p, decimal_int(n as int)),
        ends_value(cs, p + decimal_int(n as int).len()),
    ensures
        p_number(cs, p) == Ok::<(Json, nat), Seq<char>>(
            (Json::Number(n), decimal_int(n as int).len()),
        ),
{
    let t = decimal_int(n as int);
    lemma_parse_decimal_int(n);
    lemma_at_index(cs, p, t, 0);
    let sign: nat = if cs[p] == '-' {
        1
    } else {
        0
    };
    assert(sign == (if n < 0 { 1nat } else { 0nat }));
    assert(cs.subrange(p + sign, p + t.len()) =~= t.subrange(sign as int, t.len() as int));
    lemma_digit_run(cs, p + sign, (t.len() - sign) as nat);
}

proof fn lemma_literal_case(cs: Seq<char>, p: int, v: Json)
    requires
        v is Null || v is Bool,
        at(cs, p, json_text(v)),
    ensures
        p_value(cs, p) == Ok::<(Json, nat), Seq<char>>((v, json_text(v).len())),
{
    let t = json_text(v);
    lemma_json_text_first(v);
    lemma_at_index(cs, p, t, 0);
    assert(ws_run(cs, p) == 0);
    reveal_strlit("null");
    reveal_strlit("true");
    reveal_strlit("false");
    assert("null"@ =~= seq!['n', 'u', 'l', 'l']);
    assert("true"@ =~= seq!['t', 'r', 'u', 'e']);
    assert("false"@ =~= seq!['f', 'a', 'l', 's', 'e']);
}

proof fn lemma_number_case(cs: Seq<char>, p: int, n: i64)
    requires
        at(cs, p, json_text(Json::Number(n))),
        ends_value(cs, p + json_text(Json::Number(n)).len()),
    ensures
        p_value(cs, p) == Ok::<(Json, nat), Seq<char>>(
            (Json::Number(n), json_text(Json::Number(n)).len()),
        ),
{
    let t = json_text(Json::Number(n));
    lemma_json_text_first(Json::Number(n));
    lemma_at_index(cs, p, t, 0);
    assert(ws_run(cs, p) == 0);
    lemma_number_read(cs, p, n);
}

proof fn lemma_string_case(cs: Seq<char>, p: int, s: Seq<char>)
    requires
        at(cs, p, json_text(Json::Str(s))),
    ensures
        p_value(cs, p) == Ok::<(Json, nat), Seq<char>>(
            (Json::Str(s), json_text(Json::Str(s)).len()),
        ),
{
    lemma_json_text_first(Json::Str(s));
    lemma_string_read(cs, p, s);
    assert(ws_run(cs, p) == 0);
}

proof fn lemma_array_case(cs: Seq<char>, p: int, v: Json)
    requires
        v is Array,
        at(cs, p, json_text(v)),
    ensures
        p_value(cs, p) == Ok::<(Json, nat), Seq<char>>((v, json_text(v).len())),
    decreases v, 1nat,
{
    let items = v->Array_0;
    lemma_json_text_first(v);
    lemma_at_index(cs, p, json_text(v), 0);
    assert(ws_run(cs, p) == 0);
    assert(decreases_to!(v => items));
    lemma_array_read(cs, p, items);
}

proof fn lemma_object_case(cs: Seq<char>, p: int, v: Json)
    requires
        v is Object,
        at(cs, p, json_text(v)),
    ensures
        p_value(cs, p) == Ok::<(Json, nat), Seq<char>>((v, json_text(v).len())),
    decreases v, 1nat,
{
    let entries = v->Object_0;
    lemma_json_text_first(v);
    lemma_at_index(cs, p, json_text(v), 0);
    assert(ws_run(cs, p) == 0);
    assert(decreases_to!(v => entries));
    lemma_object_read(cs, p, entries);
}

/// Reading the text of any value (followed by anything but a digit) gives
/// the value back and takes exactly its text.
proof fn lemma_value_read(cs: Seq<char>, p: int, v: Json)
    requires
        at(cs, p, json_text(v)),
        ends_value(cs, p + json_text(v).len()),
    ensures
        p_value(cs, p) == Ok::<(Json, nat), Seq<char>>((v, json_text(v).len())),
    decreases v, 2nat,
{
    match v {
        Json::Null => lemma_literal_case(cs, p, v),
        Json::Bool(_) => lemma_literal_case(cs, p, v),
        Json::Number(n) => lemma_number_case(cs, p, n),
        Json::Str(s) => lemma_string_case(cs, p, s),
        Json::Array(_) => lemma_array_case(cs, p, v),
        Json::Object(_) => lemma_object_case(cs, p, v),
    }
}

proof fn lemma_array_read(cs: Seq<char>, p: int, items: Seq<Json>)
    requires
        at(cs, p, seq!['['] + items_text(items) + seq![']']),
    ensures
        p_array(cs, p) == Ok::<(Json, nat), Seq<char>>(
            (Json::Array(items), items_text(items).len() + 2),
        ),
    decreases items, 3nat,
{
    let it = items_text(items);
    assert(seq!['['] + it + seq![']'] =~= seq!['['] + (it + seq![']']));
    lemma_at_split(cs, p, seq!['['], it + seq![']']);
    lemma_at_index(cs, p, seq!['['], 0);
    if items.len() == 0 {
        assert(it + seq![']'] =~= seq![']']);
        lemma_at_index(cs, p + 1, seq![']'], 0);
        assert(ws_run(cs, p + 1) == 0);
    } else {
        lemma_json_text_first(items[0]);
        if items.len() == 1 {
            lemma_at_index(cs, p + 1, it + seq![']'], 0);
        } else {
            lemma_items_front(items);
            lemma_at_index(cs, p + 1, it + seq![']'], 0);
        }
        assert(ws_run(cs, p + 1) == 0);
        lemma_items_read(cs, p + 1, items);
    }
}

proof fn lemma_items_read(cs: Seq<char>, r: int, items: Seq<Json>)
    requires
        items.len() > 0,
        at(cs, r, items_text(items) + seq![']']),
    ensures
        p_items(cs, r) == Ok::<(Seq<Json>, nat), Seq<char>>(
            (items, items_text(items).len() + 1),
        ),
    decreases items, 0nat,
{
    let v = items[0];
    let t = json_text(v);
    assert(decreases_to!(items => items[0]));
    if items.len() == 1 {
        assert(items_text(items) == t);
        lemma_at_split(cs, r, t, seq![']']);
        lemma_at_index(cs, r + t.len(), seq![']'], 0);
        lemma_value_read(cs, r, v);
        assert(ws_run(cs, r + t.len()) == 0);
        assert(item_step(cs, r) == Ok::<(Json, nat, bool), Seq<char>>((v, t.len(), false)));
        assert(seq![v] =~= items);
    } else {
        lemma_items_front(items);
        let rest = items.drop_first();
        let rt = items_text(rest);
        assert(items_text(items) + seq![']'] =~= t + (seq![','] + (rt + seq![']'])));
        lemma_at_split(cs, r, t, seq![','] + (rt + seq![']']));
        lemma_at_split(cs, r + t.len(), seq![','], rt + seq![']']);
        lemma_at_index(cs, r + t.len(), seq![','], 0);
        lemma_value_read(cs, r, v);
        assert(ws_run(cs, r + t.len()) == 0);
        assert(item_step(cs, r) == Ok::<(Json, nat, bool), Seq<char>>((v, t.len(), true)));
        assert(decreases_to!(items => rest));
        lemma_items_read(cs, r + t.len() + 1, rest);
        assert(seq![v] + rest =~= items);
    }
}

proof fn lemma_object_read(cs: Seq<char>, p: int, entries: Seq<(Seq<char>, Json)>)
    requires
        at(cs, p, seq!['{'] + entries_text(entries) + seq!['}']),
    ensures
        p_object(cs, p) == Ok::<(Json, nat), Seq<char>>(
            (Json::Object(entries), entries_text(entries).len() + 2),
        ),
    decreases entries, 3nat,
{
    let et = entries_text(entries);
    assert(seq!['{'] + et + seq!['}'] =~= seq!['{'] + (et + seq!['}']));
    lemma_at_split(cs, p, seq!['{'], et + seq!['}']);
    lemma_at_index(cs, p, seq!['{'], 0);
    if entries.len() == 0 {
        assert(et + seq!['}'] =~= seq!['}']);
        lemma_at_index(cs, p + 1, seq!['}'], 0);
        assert(ws_run(cs, p + 1) == 0);
    } else {
        if entries.len() > 1 {
            lemma_entries_front(entries);
        }
        let e0 = entry_text(entries[0]);
        assert(quoted(entries[0].0)[0] == '"');
        assert(e0[0] == '"');
        if entries.len() == 1 {
            assert(et == e0);
        } else {
            assert(et == e0 + seq![','] + entries_text(entries.drop_first()));
        }
        assert(et[0] == '"');
        lemma_at_index(cs, p + 1, et + seq!['}'], 0);
        assert(ws_run(cs, p + 1) == 0);
        lemma_members_read(cs, p + 1, entries);
    }
}

proof fn lemma_members_read(cs: Seq<char>, r: int, entries: Seq<(Seq<char>, Json)>)
    requires
        entries.len() > 0,
        at(cs, r, entries_text(entries) + seq!['}']),
    ensures
        p_members(cs, r) == Ok::<(Seq<(Seq<char>, Json)>, nat), Seq<char>>(
            (entries, entries_text(entries).len() + 1),
        ),
    decreases entries, 0nat,
{
    let e = entries[0];
    let q = quoted(e.0);
    let vt = json_text(e.1);
    let et = entry_text(e);
    assert(decreases_to!(entries => entries[0]));
    assert(decreases_to!(entries[0] => entries[0].1));
    let tail: Seq<char> = if entries.len() == 1 {
        seq!['}']
    } else {
        seq![','] + (entries_text(entries.drop_first()) + seq!['}'])
    };
    if entries.len() > 1 {
        lemma_entries_front(entries);
    }
    assert(entries_text(entries) + seq!['}'] =~= q + (seq![':'] + (vt + tail)));
    lemma_at_split(cs, r, q, seq![':'] + (vt + tail));
    lemma_at_split(cs, r + q.len(), seq![':'], vt + tail);
    lemma_at_split(cs, r + q.len() + 1, vt, tail);
    lemma_at_index(cs, r + q.len(), seq![':'], 0);
    lemma_at_index(cs, r + q.len() + 1 + vt.len(), tail, 0);
    lemma_string_read(cs, r, e.0);
    assert(ws_run(cs, r) == 0);
    assert(ws_run(cs, r + q.len()) == 0);
    lemma_value_read(cs, r + q.len() + 1, e.1);
    assert(ws_run(cs, r + q.len() + 1 + vt.len()) == 0);
    let k = (q.len() + 1 + vt.len()) as nat;
    if entries.len() == 1 {
        assert(member_step(cs, r) == Ok::<((Seq<char>, Json), nat, bool), Seq<char>>((e, k, false)));
        assert(seq![e] =~= entries);
    } else {
        let rest = entries.drop_first();
        assert(member_step(cs, r) == Ok::<((Seq<char>, Json), nat, bool), Seq<char>>((e, k, true)));
        lemma_at_split(cs, r + k, seq![','], entries_text(rest) + seq!['}']);
        assert(decreases_to!(entries => rest));
        lemma_members_read(cs, r + k + 1, rest);
        assert(seq![e] + rest =~= entries);
    }
}

/// Parsing the compact text of any JSON value gives that value back.
pub proof fn lemma_json_roundtrip(v: Json)
    ensures
        parse_spec(json_text(v)) == Ok::<Json, Seq<char>>(v),
{
    let t = json_text(v);
    assert(t.subrange(0, t.len() as int) =~= t);
    lemma_value_read(t, 0, v);
    assert(ws_run(t, t.len() as int) == 0);
}


// ---------------------------------------------------------------------------
// What compact text holds
// ---------------------------------------------------------------------------

/// `s` holds no character `c`.
pub open spec fn free_of(s: Seq<char>, c: char) -> bool {
    forall|i: int| 0 <= i < s.len() ==> s[i] != c
}

pub proof fn lemma_free_of_concat(a: Seq<char>, b: Seq<char>, c: char)
    requires
        free_of(a, c),
        free_of(b, c),
    ensures
        free_of(a + b, c),
{
    assert forall|i: int| 0 <= i < (a + b).len() implies (a + b)[i] != c by {
        if i < a.len() {
            assert((a + b)[i] == a[i]);
        } else {
            assert((a + b)[i] == b[i - a.len()]);
        }
    }
}

proof fn lemma_escape_char_no_newline(c: char)
    ensures
        free_of(escape_char(c), '\n'),
{
    if c != '"' && c != '\\' && c != '\n' && c != '\r' && c != '\t' && (c as u32) < 0x20 {
        let u = c as u32;
        assert(hex_char((u / 16) as nat) != '\n');
        assert(hex_char((u % 16) as nat) != '\n');
    }
}

proof fn lemma_escaped_no_newline(s: Seq<char>)
    ensures
        free_of(escaped(s), '\n'),
    decreases s.len(),
{
    if s.len() > 0 {
        lemma_escaped_no_newline(s.drop_last());
        lemma_escape_char_no_newline(s.last());
        lemma_free_of_concat(escaped(s.drop_last()), escape_char(s.last()), '\n');
    }
}

proof fn lemma_quoted_no_newline(s: Seq<char>)
    ensures
        free_of(quoted(s), '\n'),
{
    lemma_escaped_no_newline(s);
    lemma_free_of_concat(seq!['"'], escaped(s), '\n');
    lemma_free_of_concat(seq!['"'] + escaped(s), seq!['"'], '\n');
}

/// The compact text of a value is one line: it holds no newline.
pub proof fn lemma_json_text_no_newline(v: Json)
    ensures
        free_of(json_text(v), '\n'),
    decreases v, 1nat,
{
    match v {
        Json::Number(n) => {
            lemma_decimal(if n < 0 { (-n) as nat } else { n as nat });
            let d = decimal(if n < 0 { (-n) as nat } else { n as nat });
            assert(free_of(d, '\n')) by {
                assert forall|i: int| 0 <= i < d.len() implies d[i] != '\n' by {
                    assert(is_digit(d[i]));
                }
            }
            if n < 0 {
                lemma_free_of_concat(seq!['-'], d, '\n');
            }
        },
        Json::Str(s) => lemma_quoted_no_newline(s),
        Json::Array(items) => {
            lemma_items_no_newline(items);
            lemma_free_of_concat(seq!['['], items_text(items), '\n');
            lemma_free_of_concat(seq!['['] + items_text(items), seq![']'], '\n');
        },
        Json::Object(entries) => {
            lemma_entries_no_newline(entries);
            lemma_free_of_concat(seq!['{'], entries_text(entries), '\n');
            lemma_free_of_concat(seq!['{'] + entries_text(entries), seq!['}'], '\n');
        },
        _ => {},
    }
}

proof fn lemma_items_no_newline(items: Seq<Json>)
    ensures
        free_of(items_text(items), '\n'),
    decreases items, 0nat,
{
    if items.len() == 1 {
        assert(decreases_to!(items => items[0]));
        lemma_json_text_no_newline(items[0]);
    } else if items.len() > 1 {
        assert(decreases_to!(items => items.drop_last()));
        assert(decreases_to!(items => items.last()));
        lemma_items_no_newline(items.drop_last());
        lemma_json_text_no_newline(items.last());
        lemma_free_of_concat(items_text(items.drop_last()), seq![','], '\n');
        lemma_free_of_concat(items_text(items.drop_last()) + seq![','], json_text(items.last()), '\n');
    }
}

proof fn lemma_entry_no_newline(e: (Seq<char>, Json))
    ensures
        free_of(entry_text(e), '\n'),
    decreases e, 1nat,
{
    assert(decreases_to!(e => e.1));
    lemma_quoted_no_newline(e.0);
    lemma_json_text_no_newline(e.1);
    lemma_free_of_concat(quoted(e.0), seq![':'], '\n');
    lemma_free_of_concat(quoted(e.0) + seq![':'], json_text(e.1), '\n');
}

proof fn lemma_entries_no_newline(entries: Seq<(Seq<char>, Json)>)
    ensures
        free_of(entries_text(entries), '\n'),
    decreases entries, 0nat,
{
    if entries.len() == 1 {
        assert(decreases_to!(entries => entries[0]));
        lemma_entry_no_newline(entries[0]);
    } else if entries.len() > 1 {
        assert(decreases_to!(entries => entries.drop_last()));
        assert(decreases_to!(entries => entries.last()));
        lemma_entries_no_newline(entries.drop_last());
        lemma_entry_no_newline(entries.last());
        lemma_free_of_concat(entries_text(entries.drop_last()), seq![','], '\n');
        lemma_free_of_concat(entries_text(entries.drop_last()) + seq![','], entry_text(entries.last()), '\n');
    }
}

} // verus!
