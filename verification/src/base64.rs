//! Standard base64 (RFC 4648 alphabet, `=` padding), used for blob contents
//! and messages in the JSON form.
use vstd::prelude::*;
use vstd::utf8::*;
use crate::text::{push_char, owned};
use vstd::string::StringSliceAdditionalSpecFns;

verus! {

broadcast use vstd::seq_lib::group_seq_properties;

/// The base64 symbol for a 6-bit value.
pub open spec fn symbol(i: nat) -> char {
    if i < 26 {
        (65 + i) as char
    } else if i < 52 {
        (97 + i - 26) as char
    } else if i < 62 {
        (48 + i - 52) as char
    } else if i == 62 {
        '+'
    } else {
        '/'
    }
}

/// The four symbols that encode one chunk of one to three bytes.
pub open spec fn encode_chunk(c: Seq<u8>) -> Seq<char> {
    let b0 = c[0] as nat;
    let b1 = if c.len() > 1 { c[1] as nat } else { 0 };
    let b2 = if c.len() > 2 { c[2] as nat } else { 0 };
    seq![
        symbol(b0 / 4),
        symbol((b0 % 4) * 16 + b1 / 16),
        if c.len() > 1 { symbol((b1 % 16) * 4 + b2 / 64) } else { '=' },
        if c.len() > 2 { symbol(b2 % 64) } else { '=' },
    ]
}

/// The base64 text of `d`.
pub open spec fn encode_spec(d: Seq<u8>) -> Seq<char>
    decreases d.len(),
{
    if d.len() == 0 {
        Seq::empty()
    } else if d.len() <= 3 {
        encode_chunk(d)
    } else {
        encode_chunk(d.take(3)) + encode_spec(d.skip(3))
    }
}

/// The 6-bit value of a base64 symbol byte.
pub open spec fn symbol_value(b: u8) -> Option<nat> {
    if 65 <= b <= 90 {
        Some((b - 65) as nat)
    } else if 97 <= b <= 122 {
        Some((b - 97 + 26) as nat)
    } else if 48 <= b <= 57 {
        Some((b - 48 + 52) as nat)
    } else if b == 43 {
        Some(62)
    } else if b == 47 {
        Some(63)
    } else {
        None
    }
}

pub open spec fn is_pad(b: u8) -> bool {
    b == 61
}

/// A byte that may stand in a quad: a symbol or `=`.
pub open spec fn quad_byte_ok(b: u8) -> bool {
    is_pad(b) || symbol_value(b) is Some
}

/// The value a quad byte contributes: `=` counts as zero.
pub open spec fn quad_value(b: u8) -> nat {
    if is_pad(b) {
        0
    } else {
        symbol_value(b)->0
    }
}

pub open spec fn bad_symbol_message(b: u8) -> Seq<char> {
    "invalid base64 character: "@.push(b as char)
}

pub open spec fn pad_count(q: Seq<u8>) -> nat {
    (if is_pad(q[0]) { 1nat } else { 0nat }) + (if is_pad(q[1]) { 1nat } else { 0nat }) + (if is_pad(
        q[2],
    ) { 1nat } else { 0nat }) + (if is_pad(q[3]) { 1nat } else { 0nat })
}

/// The bytes that a quad of four values decodes to, given how many `=` it has.
pub open spec fn quad_bytes(v0: nat, v1: nat, v2: nat, v3: nat, pad: nat) -> Seq<u8> {
    let x0 = (v0 * 4 + v1 / 16) as u8;
    let x1 = ((v1 % 16) * 16 + v2 / 4) as u8;
    let x2 = ((v2 % 4) * 64 + v3) as u8;
    if pad >= 2 {
        seq![x0]
    } else if pad == 1 {
        seq![x0, x1]
    } else {
        seq![x0, x1, x2]
    }
}

/// Decoding one quad: the first byte (in order) that is neither a symbol nor
/// `=` is an error; `=` may stand anywhere and counts as a zero value.
pub open spec fn decode_quad(q: Seq<u8>) -> Result<Seq<u8>, Seq<char>> {
    if !quad_byte_ok(q[0]) {
        Err(bad_symbol_message(q[0]))
    } else if !quad_byte_ok(q[1]) {
        Err(bad_symbol_message(q[1]))
    } else if !quad_byte_ok(q[2]) {
        Err(bad_symbol_message(q[2]))
    } else if !quad_byte_ok(q[3]) {
        Err(bad_symbol_message(q[3]))
    } else {
        Ok(
            quad_bytes(
                quad_value(q[0]),
                quad_value(q[1]),
                quad_value(q[2]),
                quad_value(q[3]),
                pad_count(q),
            ),
        )
    }
}

/// Decoding a sequence of whole quads.
pub open spec fn decode_quads(s: Seq<u8>) -> Result<Seq<u8>, Seq<char>>
    decreases s.len(),
{
    if s.len() < 4 {
        Ok(Seq::empty())
    } else {
        match decode_quad(s.take(4)) {
            Err(m) => Err(m),
            Ok(b) => match decode_quads(s.skip(4)) {
                Err(m) => Err(m),
                Ok(rest) => Ok(b + rest),
            },
        }
    }
}

pub open spec fn length_message() -> Seq<char> {
    "base64 input length must be a multiple of 4"@
}

/// What decoding the bytes of a base64 text gives.
pub open spec fn decode_spec(s: Seq<u8>) -> Result<Seq<u8>, Seq<char>> {
    if s.len() % 4 != 0 {
        Err(length_message())
    } else {
        decode_quads(s)
    }
}

pub open spec fn decode_result_view(r: Result<Vec<u8>, String>) -> Result<Seq<u8>, Seq<char>> {
    match r {
        Ok(v) => Ok(v@),
        Err(m) => Err(m@),
    }
}

/// The symbol for a 6-bit value.
fn symbol_exec(i: u32) -> (c: char)
    requires
        i < 64,
    ensures
        c == symbol(i as nat),
{
    if i < 26 {
        ((65 + i) as u8) as char
    } else if i < 52 {
        ((97 + i - 26) as u8) as char
    } else if i < 62 {
        ((48 + i - 52) as u8) as char
    } else if i == 62 {
        '+'
    } else {
        '/'
    }
}

proof fn lemma_chunk_bits(b0: u32, b1: u32, b2: u32)
    requires
        b0 < 256,
        b1 < 256,
        b2 < 256,
    ensures
        ({
            let n = (b0 << 16) | (b1 << 8) | b2;
            &&& (n >> 18) & 0x3f == b0 / 4
            &&& (n >> 12) & 0x3f == (b0 % 4) * 16 + b1 / 16
            &&& (n >> 6) & 0x3f == (b1 % 16) * 4 + b2 / 64
            &&& n & 0x3f == b2 % 64
        }),
{
    assert({
        let n = (b0 << 16) | (b1 << 8) | b2;
        &&& (n >> 18) & 0x3f == b0 / 4
        &&& (n >> 12) & 0x3f == (b0 % 4) * 16 + b1 / 16
        &&& (n >> 6) & 0x3f == (b1 % 16) * 4 + b2 / 64
        &&& n & 0x3f == b2 % 64
    }) by (bit_vector)
        requires
            b0 < 256,
            b1 < 256,
            b2 < 256,
    ;
}

/// The chunk of at most three bytes that starts at `i`.
pub open spec fn chunk_at(d: Seq<u8>, i: int) -> Seq<u8> {
    let rest = d.skip(i);
    if rest.len() <= 3 {
        rest
    } else {
        rest.take(3)
    }
}

/// Appends the four symbols for the chunk at `i`.
fn encode_one_chunk(data: &[u8], i: usize, out: &mut String)
    requires
        i < data.len(),
    ensures
        final(out)@ == old(out)@ + encode_chunk(chunk_at(data@, i as int)),
{
    let len = data.len() - i;
    let b0 = data[i] as u32;
    let b1: u32 = if len > 1 {
        data[i + 1] as u32
    } else {
        0
    };
    let b2: u32 = if len > 2 {
        data[i + 2] as u32
    } else {
        0
    };
    proof {
        lemma_chunk_bits(b0, b1, b2);
    }
    let n = (b0 << 16) | (b1 << 8) | b2;
    let ghost chunk = chunk_at(data@, i as int);
    assert(chunk[0] == data@[i as int]);
    assert(len > 1 ==> chunk[1] == data@[i + 1]);
    assert(len > 2 ==> chunk[2] == data@[i + 2]);
    let ghost before = out@;
    push_char(out, symbol_exec((n >> 18) & 0x3f));
    push_char(out, symbol_exec((n >> 12) & 0x3f));
    if len > 1 {
        push_char(out, symbol_exec((n >> 6) & 0x3f));
    } else {
        push_char(out, '=');
    }
    if len > 2 {
        push_char(out, symbol_exec(n & 0x3f));
    } else {
        push_char(out, '=');
    }
    assert(out@ =~= before + encode_chunk(chunk));
}

/// Encodes bytes as base64 text with `=` padding.
pub fn base64_encode(data: &[u8]) -> (out: String)
    ensures
        out@ == encode_spec(data@),
{
    let mut out = String::new();
    let mut i: usize = 0;
    while i < data.len()
        invariant
            i <= data.len(),
            out@ + encode_spec(data@.skip(i as int)) == encode_spec(data@),
        decreases data.len() - i,
    {
        let ghost before = out@;
        let ghost rest = data@.skip(i as int);
        encode_one_chunk(data, i, &mut out);
        if data.len() - i > 3 {
            assert(rest.skip(3) =~= data@.skip(i + 3));
            assert(out@ + encode_spec(data@.skip(i + 3)) == before + encode_spec(rest));
            i = i + 3;
        } else {
            assert(data@.skip(data.len() as int) =~= Seq::<u8>::empty());
            i = data.len();
        }
    }
    assert(data@.skip(i as int) =~= Seq::<u8>::empty());
    out
}

/// The value of one base64 symbol byte, or the error for a byte that is not one.
fn base64_decode_char(b: u8) -> (res: Result<u32, String>)
    ensures
        res matches Ok(v) ==> symbol_value(b) == Some(v as nat),
        res matches Err(m) ==> symbol_value(b) is None && m@ == bad_symbol_message(b),
{
    if 65 <= b && b <= 90 {
        Ok((b - 65) as u32)
    } else if 97 <= b && b <= 122 {
        Ok((b - 97 + 26) as u32)
    } else if 48 <= b && b <= 57 {
        Ok((b - 48 + 52) as u32)
    } else if b == 43 {
        Ok(62)
    } else if b == 47 {
        Ok(63)
    } else {
        let mut m = owned("invalid base64 character: ");
        push_char(&mut m, b as char);
        Err(m)
    }
}

proof fn lemma_quad_bits(v0: u32, v1: u32, v2: u32, v3: u32)
    requires
        v0 < 64,
        v1 < 64,
        v2 < 64,
        v3 < 64,
    ensures
        ({
            let n = (v0 << 18) | (v1 << 12) | (v2 << 6) | v3;
            &&& ((n >> 16) & 0xff) as u8 == (v0 * 4 + v1 / 16) as u8
            &&& ((n >> 8) & 0xff) as u8 == ((v1 % 16) * 16 + v2 / 4) as u8
            &&& (n & 0xff) as u8 == ((v2 % 4) * 64 + v3) as u8
        }),
{
    assert({
        let n = (v0 << 18) | (v1 << 12) | (v2 << 6) | v3;
        &&& ((n >> 16) & 0xff) as u8 == (v0 * 4 + v1 / 16) as u8
        &&& ((n >> 8) & 0xff) as u8 == ((v1 % 16) * 16 + v2 / 4) as u8
        &&& (n & 0xff) as u8 == ((v2 % 4) * 64 + v3) as u8
    }) by (bit_vector)
        requires
            v0 < 64,
            v1 < 64,
            v2 < 64,
            v3 < 64,
    ;
}

/// The value a quad byte contributes (`=` counts as zero), or the error for
/// a byte that is neither a symbol nor `=`.
fn quad_entry(b: u8) -> (res: Result<u32, String>)
    ensures
        res matches Ok(v) ==> quad_byte_ok(b) && v == quad_value(b) && v < 64,
        res matches Err(m) ==> !quad_byte_ok(b) && m@ == bad_symbol_message(b),
{
    if b == 61 {
        Ok(0)
    } else {
        base64_decode_char(b)
    }
}

/// Decodes one quad onto the end of `out`.
fn decode_one_quad(q0: u8, q1: u8, q2: u8, q3: u8, out: &mut Vec<u8>) -> (res: Result<(), String>)
    ensures
        match decode_quad(seq![q0, q1, q2, q3]) {
            Ok(b) => res is Ok && final(out)@ == old(out)@ + b,
            Err(m) => res matches Err(e) && e@ == m,
        },
{
    let ghost q = seq![q0, q1, q2, q3];
    let v0 = quad_entry(q0)?;
    let v1 = quad_entry(q1)?;
    let v2 = quad_entry(q2)?;
    let v3 = quad_entry(q3)?;
    let pad: u32 = (if q0 == 61 { 1u32 } else { 0 }) + (if q1 == 61 { 1u32 } else { 0 }) + (if q2
        == 61 { 1u32 } else { 0 }) + (if q3 == 61 { 1u32 } else { 0 });
    assert(pad == pad_count(q));
    proof {
        lemma_quad_bits(v0, v1, v2, v3);
    }
    let n = (v0 << 18) | (v1 << 12) | (v2 << 6) | v3;
    let ghost before = out@;
    out.push(((n >> 16) & 0xff) as u8);
    if pad < 2 {
        out.push(((n >> 8) & 0xff) as u8);
    }
    if pad < 1 {
        out.push((n & 0xff) as u8);
    }
    assert(out@ =~= before + quad_bytes(v0 as nat, v1 as nat, v2 as nat, v3 as nat, pad as nat));
    Ok(())
}

/// Decodes base64 text (with `=` padding) back into bytes.
pub fn base64_decode(s: &str) -> (res: Result<Vec<u8>, String>)
    ensures
        decode_result_view(res) == decode_spec(s.spec_bytes()),
{
    let bytes = s.as_bytes();
    if bytes.len() % 4 != 0 {
        return Err(owned("base64 input length must be a multiple of 4"));
    }
    let mut out: Vec<u8> = Vec::new();
    let mut i: usize = 0;
    while i < bytes.len()
        invariant
            bytes@ == s.spec_bytes(),
            bytes.len() % 4 == 0,
            i <= bytes.len(),
            i % 4 == 0,
            decode_spec(bytes@) == (match decode_quads(bytes@.skip(i as int)) {
                Err(m) => Err(m),
                Ok(rest) => Ok(out@ + rest),
            }),
        decreases bytes.len() - i,
    {
        let ghost rest = bytes@.skip(i as int);
        assert(rest.take(4) =~= seq![bytes@[i as int], bytes@[i + 1], bytes@[i + 2], bytes@[i + 3]]);
        assert(rest.skip(4) =~= bytes@.skip(i + 4));
        let ghost before = out@;
        match decode_one_quad(bytes[i], bytes[i + 1], bytes[i + 2], bytes[i + 3], &mut out) {
            Ok(()) => {},
            Err(m) => {
                return Err(m);
            },
        }
        proof {
            let b = out@.subrange(before.len() as int, out@.len() as int);
            assert(out@ =~= before + b);
            match decode_quads(rest.skip(4)) {
                Ok(r) => {
                    assert(before + (b + r) =~= out@ + r);
                },
                Err(_) => {},
            }
        }
        i = i + 4;
    }
    assert(bytes@.skip(i as int) =~= Seq::<u8>::empty());
    Ok(out)
}

// ---------------------------------------------------------------------------
// Round trip
// ---------------------------------------------------------------------------

/// The bytes of an ASCII character sequence.
pub open spec fn ascii_bytes(cs: Seq<char>) -> Seq<u8> {
    Seq::new(cs.len(), |i: int| cs[i] as u8)
}

proof fn lemma_symbol_roundtrip(i: nat)
    requires
        i < 64,
    ensures
        symbol_value(symbol(i) as u8) == Some(i),
        !is_pad(symbol(i) as u8),
        (symbol(i) as u32) < 128,
{
}

proof fn lemma_chunk_ascii(c: Seq<u8>)
    requires
        1 <= c.len() <= 3,
    ensures
        is_ascii_chars(encode_chunk(c)),
{
    let b0 = c[0] as nat;
    let b1 = if c.len() > 1 { c[1] as nat } else { 0 };
    let b2 = if c.len() > 2 { c[2] as nat } else { 0 };
    assert((b0 % 4) * 16 + b1 / 16 < 64) by (nonlinear_arith)
        requires
            b0 < 256,
            b1 < 256,
    ;
    assert((b1 % 16) * 4 + b2 / 64 < 64) by (nonlinear_arith)
        requires
            b1 < 256,
            b2 < 256,
    ;
    lemma_symbol_roundtrip(b0 / 4);
    lemma_symbol_roundtrip((b0 % 4) * 16 + b1 / 16);
    lemma_symbol_roundtrip((b1 % 16) * 4 + b2 / 64);
    lemma_symbol_roundtrip(b2 % 64);
}

proof fn lemma_chunk_roundtrip(c: Seq<u8>)
    requires
        1 <= c.len() <= 3,
    ensures
        decode_quad(ascii_bytes(encode_chunk(c))) == Ok::<Seq<u8>, Seq<char>>(c),
{
    let b0 = c[0] as nat;
    let b1 = if c.len() > 1 { c[1] as nat } else { 0 };
    let b2 = if c.len() > 2 { c[2] as nat } else { 0 };
    let v0 = b0 / 4;
    let v1 = (b0 % 4) * 16 + b1 / 16;
    let v2 = (b1 % 16) * 4 + b2 / 64;
    let v3 = b2 % 64;
    assert(v1 < 64 && v2 < 64 && v3 < 64 && v0 < 64) by (nonlinear_arith)
        requires
            b0 < 256,
            b1 < 256,
            b2 < 256,
            v0 == b0 / 4,
            v1 == (b0 % 4) * 16 + b1 / 16,
            v2 == (b1 % 16) * 4 + b2 / 64,
            v3 == b2 % 64,
    ;
    assert(v0 * 4 + v1 / 16 == b0 && (v1 % 16) * 16 + v2 / 4 == b1 && (v2 % 4) * 64 + v3 == b2)
        by (nonlinear_arith)
        requires
            b0 < 256,
            b1 < 256,
            b2 < 256,
            v0 == b0 / 4,
            v1 == (b0 % 4) * 16 + b1 / 16,
            v2 == (b1 % 16) * 4 + b2 / 64,
            v3 == b2 % 64,
    ;
    lemma_symbol_roundtrip(v0);
    lemma_symbol_roundtrip(v1);
    lemma_symbol_roundtrip(v2);
    lemma_symbol_roundtrip(v3);
    let q = ascii_bytes(encode_chunk(c));
    assert(('=' as u8) == 61u8);
    if c.len() == 1 {
        assert(b1 == 0 && b2 == 0);
        assert(pad_count(q) == 2);
        assert(quad_bytes(v0, v1, 0, 0, 2) =~= c);
    } else if c.len() == 2 {
        assert(b2 == 0);
        assert(pad_count(q) == 1);
        assert(quad_bytes(v0, v1, v2, 0, 1) =~= c);
    } else {
        assert(pad_count(q) == 0);
        assert(quad_bytes(v0, v1, v2, v3, 0) =~= c);
    }
}

proof fn lemma_encode_ascii(d: Seq<u8>)
    ensures
        is_ascii_chars(encode_spec(d)),
        encode_spec(d).len() % 4 == 0,
        decode_quads(ascii_bytes(encode_spec(d))) == Ok::<Seq<u8>, Seq<char>>(d),
    decreases d.len(),
{
    if d.len() == 0 {
    } else if d.len() <= 3 {
        lemma_chunk_ascii(d);
        lemma_chunk_roundtrip(d);
        let b = ascii_bytes(encode_chunk(d));
        assert(b.take(4) =~= b);
        assert(b.skip(4) =~= Seq::<u8>::empty());
        assert(decode_quads(b.skip(4)) == Ok::<Seq<u8>, Seq<char>>(Seq::empty()));
        assert(d + Seq::<u8>::empty() =~= d);
    } else {
        let c = d.take(3);
        lemma_chunk_ascii(c);
        lemma_chunk_roundtrip(c);
        lemma_encode_ascii(d.skip(3));
        let e = encode_spec(d);
        let b = ascii_bytes(e);
        assert(e == encode_chunk(c) + encode_spec(d.skip(3)));
        assert(b.take(4) =~= ascii_bytes(encode_chunk(c)));
        assert(b.skip(4) =~= ascii_bytes(encode_spec(d.skip(3))));
        assert(c + d.skip(3) =~= d);
    }
}

/// Decoding the base64 text of any byte sequence gives that byte sequence back.
pub proof fn lemma_base64_roundtrip(d: Seq<u8>)
    ensures
        decode_spec(encode_utf8(encode_spec(d))) == Ok::<Seq<u8>, Seq<char>>(d),
{
    lemma_encode_ascii(d);
    let e = encode_spec(d);
    is_ascii_chars_encode_utf8(e);
    assert(encode_utf8(e) =~= ascii_bytes(e));
}

} // verus!
