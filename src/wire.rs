//! The wire format: tags, big-endian fields, and what the encoder writes
//! for each term, stated as spec functions.
use vstd::prelude::*;
use vstd::utf8::*;
use crate::term::{PidV, TermV};

verus! {

pub const VERSION: u8 = 131;

pub const NEW_FLOAT_EXT: u8 = 70;
pub const BIT_BINARY_EXT: u8 = 77;
pub const COMPRESSED_TERM: u8 = 80;
pub const NEW_PID_EXT: u8 = 88;
pub const NEW_PORT_EXT: u8 = 89;
pub const NEWER_REFERENCE_EXT: u8 = 90;
pub const SMALL_INTEGER_EXT: u8 = 97;
pub const INTEGER_EXT: u8 = 98;
pub const FLOAT_EXT: u8 = 99;
pub const ATOM_EXT: u8 = 100;
pub const REFERENCE_EXT: u8 = 101;
pub const PORT_EXT: u8 = 102;
pub const PID_EXT: u8 = 103;
pub const SMALL_TUPLE_EXT: u8 = 104;
pub const LARGE_TUPLE_EXT: u8 = 105;
pub const NIL_EXT: u8 = 106;
pub const STRING_EXT: u8 = 107;
pub const LIST_EXT: u8 = 108;
pub const BINARY_EXT: u8 = 109;
pub const SMALL_BIG_EXT: u8 = 110;
pub const LARGE_BIG_EXT: u8 = 111;
pub const NEW_FUN_EXT: u8 = 112;
pub const EXPORT_EXT: u8 = 113;
pub const NEW_REFERENCE_EXT: u8 = 114;
pub const SMALL_ATOM_EXT: u8 = 115;
pub const MAP_EXT: u8 = 116;
pub const FUN_EXT: u8 = 117;
pub const ATOM_UTF8_EXT: u8 = 118;
pub const SMALL_ATOM_UTF8_EXT: u8 = 119;
pub const V4_PORT_EXT: u8 = 120;

/// Two bytes, most significant first.
pub open spec fn u16_be(v: u16) -> Seq<u8> {
    seq![(v >> 8u16) as u8, v as u8]
}

/// Four bytes, most significant first.
pub open spec fn u32_be(v: u32) -> Seq<u8> {
    seq![(v >> 24u32) as u8, (v >> 16u32) as u8, (v >> 8u32) as u8, v as u8]
}

/// Eight bytes, most significant first.
pub open spec fn u64_be(v: u64) -> Seq<u8> {
    u32_be((v >> 32u64) as u32) + u32_be(v as u32)
}

/// The value of the two bytes at `p`, most significant first.
pub open spec fn get_u16(s: Seq<u8>, p: int) -> u16 {
    ((s[p] as u16) << 8u16) | (s[p + 1] as u16)
}

/// The value of the four bytes at `p`, most significant first.
pub open spec fn get_u32(s: Seq<u8>, p: int) -> u32 {
    ((s[p] as u32) << 24u32) | ((s[p + 1] as u32) << 16u32) | ((s[p + 2] as u32) << 8u32) | (s[p
        + 3] as u32)
}

/// The value of the eight bytes at `p`, most significant first.
pub open spec fn get_u64(s: Seq<u8>, p: int) -> u64 {
    ((get_u32(s, p) as u64) << 32u64) | (get_u32(s, p + 4) as u64)
}

/// Why an encoding fails.
#[derive(Clone, Copy, PartialEq, Eq, Debug)]
pub enum EncodeFault {
    /// An atom name is longer than 65535 bytes.
    TooLongAtomName,
    /// A magnitude is longer than `u32::MAX` bytes.
    TooLargeInteger,
    /// A reference has more than 65535 id words.
    TooLargeReferenceId,
    /// A length does not fit its field, a bit string's tail size is outside 1..=8, or a map
    /// holds two equal keys.
    Unrepresentable,
}

pub type Encoded = Result<Seq<u8>, EncodeFault>;

/// Both encodings one after the other; the first failure wins.
pub open spec fn cat(a: Encoded, b: Encoded) -> Encoded {
    match a {
        Err(e) => Err(e),
        Ok(x) => match b {
            Err(e) => Err(e),
            Ok(y) => Ok(x + y),
        },
    }
}

pub open spec fn is_ascii_bytes(b: Seq<u8>) -> bool {
    forall|i: int| 0 <= i < b.len() ==> b[i] < 0x80
}

/// An atom: the ASCII tag when every byte is below 0x80, else the UTF-8 tag.
pub open spec fn enc_atom(name: Seq<char>) -> Encoded {
    let b = encode_utf8(name);
    if b.len() > 0xFFFF {
        Err(EncodeFault::TooLongAtomName)
    } else {
        Ok(
            seq![if is_ascii_bytes(b) { ATOM_EXT } else { ATOM_UTF8_EXT }] + u16_be(b.len() as u16)
                + b,
        )
    }
}

/// A fixed integer: one unsigned byte when it fits, else four signed bytes.
pub open spec fn enc_fix(v: i32) -> Seq<u8> {
    if 0 <= v <= 255 {
        seq![SMALL_INTEGER_EXT, v as u8]
    } else {
        seq![INTEGER_EXT] + u32_be(v as u32)
    }
}

pub open spec fn sign_byte(negative: bool) -> u8 {
    if negative { 1 } else { 0 }
}

/// The magnitude without its high zero bytes.
pub open spec fn strip_zeros(m: Seq<u8>) -> Seq<u8>
    decreases m.len(),
{
    if m.len() > 0 && m.last() == 0 {
        strip_zeros(m.drop_last())
    } else {
        m
    }
}

/// The canonical magnitude: without high zero bytes, and zero as the one byte 0.
pub open spec fn canonical_magnitude(m: Seq<u8>) -> Seq<u8> {
    let t = strip_zeros(m);
    if t.len() == 0 {
        seq![0u8]
    } else {
        t
    }
}

/// The canonical sign: zero is never negative.
pub open spec fn canonical_negative(negative: bool, m: Seq<u8>) -> bool {
    negative && strip_zeros(m).len() > 0
}

/// A big integer, in canonical form: its length on one byte when it fits, else on four,
/// the sign byte, then the magnitude without high zero bytes.
pub open spec fn enc_big(negative: bool, magnitude: Seq<u8>) -> Encoded {
    let m = canonical_magnitude(magnitude);
    let s = sign_byte(canonical_negative(negative, magnitude));
    let n = m.len();
    if n <= 255 {
        Ok(seq![SMALL_BIG_EXT, n as u8, s] + m)
    } else if n <= u32::MAX {
        Ok(seq![LARGE_BIG_EXT] + u32_be(n as u32) + seq![s] + m)
    } else {
        Err(EncodeFault::TooLargeInteger)
    }
}

pub open spec fn enc_pid(p: PidV) -> Encoded {
    cat(
        cat(Ok(seq![NEW_PID_EXT]), enc_atom(p.node)),
        Ok(u32_be(p.id) + u32_be(p.serial) + u32_be(p.creation)),
    )
}

/// The wire form of the last byte of a bit string: its significant bits moved high.
pub open spec fn tail_byte(b: u8, tail_bits_size: u8) -> u8 {
    (b << (8 - tail_bits_size) as u8) as u8
}

/// The bytes of a bit string as written.
pub open spec fn bit_bytes(bytes: Seq<u8>, tail_bits_size: u8) -> Seq<u8> {
    if bytes.len() == 0 {
        bytes
    } else {
        bytes.drop_last().push(tail_byte(bytes.last(), tail_bits_size))
    }
}

pub open spec fn u32_words(ws: Seq<u32>) -> Seq<u8>
    decreases ws.len(),
{
    if ws.len() == 0 {
        Seq::empty()
    } else {
        u32_words(ws.drop_last()) + u32_be(ws.last())
    }
}

/// Whether all elements are small non-negative integers, so that a list of them
/// takes the compact string form.
pub open spec fn all_bytes(ts: Seq<TermV>) -> bool {
    forall|i: int| 0 <= i < ts.len() ==> (#[trigger] ts[i] matches TermV::FixInteger(v) && 0 <= v < 256)
}

pub open spec fn byte_values(ts: Seq<TermV>) -> Seq<u8> {
    Seq::new(ts.len(), |i: int| ts[i]->FixInteger_0 as u8)
}

/// The terms `ts[i..]`, one after the other.
pub open spec fn enc_terms(ts: Seq<TermV>, i: int) -> Encoded
    decreases ts, ts.len() - i,
{
    if i < 0 || i >= ts.len() {
        Ok(Seq::empty())
    } else {
        cat(enc_term(ts[i]), enc_terms(ts, i + 1))
    }
}

/// The entries `es[i..]`, key then value.
pub open spec fn enc_entries(es: Seq<(TermV, TermV)>, i: int) -> Encoded
    decreases es, es.len() - i,
{
    if i < 0 || i >= es.len() {
        Ok(Seq::empty())
    } else {
        cat(cat(enc_term(es[i].0), enc_term(es[i].1)), enc_entries(es, i + 1))
    }
}

pub open spec fn enc_list(ts: Seq<TermV>) -> Encoded
    decreases ts, ts.len() + 1,
{
    if 0 < ts.len() <= 0xFFFF && all_bytes(ts) {
        Ok(seq![STRING_EXT] + u16_be(ts.len() as u16) + byte_values(ts))
    } else if ts.len() == 0 {
        Ok(seq![NIL_EXT])
    } else if ts.len() > u32::MAX {
        Err(EncodeFault::Unrepresentable)
    } else {
        cat(cat(Ok(seq![LIST_EXT] + u32_be(ts.len() as u32)), enc_terms(ts, 0)), Ok(seq![NIL_EXT]))
    }
}

/// The body of a new fun, which its size field counts.
pub open spec fn new_fun_body(
    module: Seq<char>,
    arity: u8,
    pid: PidV,
    free_vars: Seq<TermV>,
    index: u32,
    uniq: Seq<u8>,
    old_index: i32,
    old_uniq: i32,
) -> Encoded
    decreases free_vars, free_vars.len() + 1,
{
    cat(
        cat(
            cat(
                cat(
                    Ok(seq![arity] + uniq + u32_be(index) + u32_be(free_vars.len() as u32)),
                    enc_atom(module),
                ),
                Ok(enc_fix(old_index) + enc_fix(old_uniq)),
            ),
            enc_pid(pid),
        ),
        enc_terms(free_vars, 0),
    )
}

pub open spec fn enc_port(node: Seq<char>, id: u64, creation: u32) -> Encoded {
    if id <= u32::MAX {
        cat(cat(Ok(seq![NEW_PORT_EXT]), enc_atom(node)), Ok(u32_be(id as u32) + u32_be(creation)))
    } else {
        cat(cat(Ok(seq![V4_PORT_EXT]), enc_atom(node)), Ok(u64_be(id) + u32_be(creation)))
    }
}

pub open spec fn enc_reference(node: Seq<char>, id: Seq<u32>, creation: u32) -> Encoded {
    if id.len() > 0xFFFF {
        Err(EncodeFault::TooLargeReferenceId)
    } else {
        cat(
            cat(Ok(seq![NEWER_REFERENCE_EXT] + u16_be(id.len() as u16)), enc_atom(node)),
            Ok(u32_be(creation) + u32_words(id)),
        )
    }
}

pub open spec fn enc_export(module: Seq<char>, function: Seq<char>, arity: u8) -> Encoded {
    cat(
        cat(cat(Ok(seq![EXPORT_EXT]), enc_atom(module)), enc_atom(function)),
        Ok(enc_fix(arity as i32)),
    )
}

pub open spec fn enc_binary(bytes: Seq<u8>) -> Encoded {
    if bytes.len() > u32::MAX {
        Err(EncodeFault::Unrepresentable)
    } else {
        Ok(seq![BINARY_EXT] + u32_be(bytes.len() as u32) + bytes)
    }
}

pub open spec fn enc_bit_binary(bytes: Seq<u8>, tail_bits_size: u8) -> Encoded {
    if bytes.len() > u32::MAX || tail_bits_size < 1 || tail_bits_size > 8 {
        Err(EncodeFault::Unrepresentable)
    } else {
        Ok(
            seq![BIT_BINARY_EXT] + u32_be(bytes.len() as u32) + seq![tail_bits_size] + bit_bytes(
                bytes,
                tail_bits_size,
            ),
        )
    }
}

pub open spec fn enc_tuple(ts: Seq<TermV>) -> Encoded
    decreases ts, ts.len() + 1,
{
    if ts.len() < 0x100 {
        cat(Ok(seq![SMALL_TUPLE_EXT, ts.len() as u8]), enc_terms(ts, 0))
    } else if ts.len() > u32::MAX {
        Err(EncodeFault::Unrepresentable)
    } else {
        cat(Ok(seq![LARGE_TUPLE_EXT] + u32_be(ts.len() as u32)), enc_terms(ts, 0))
    }
}

/// No two entries have equal keys.
pub open spec fn keys_distinct(es: Seq<(TermV, TermV)>) -> bool {
    forall|i: int, j: int| 0 <= i < j < es.len() ==> #[trigger] es[i].0 != #[trigger] es[j].0
}

/// A map: its entries, whose keys must all differ, since a map holds one value per key.
pub open spec fn enc_map(es: Seq<(TermV, TermV)>) -> Encoded
    decreases es, es.len() + 1,
{
    if es.len() > u32::MAX || !keys_distinct(es) {
        Err(EncodeFault::Unrepresentable)
    } else {
        cat(Ok(seq![MAP_EXT] + u32_be(es.len() as u32)), enc_entries(es, 0))
    }
}

pub open spec fn enc_old_fun(
    module: Seq<char>,
    pid: PidV,
    free_vars: Seq<TermV>,
    index: i32,
    uniq: i32,
) -> Encoded
    decreases free_vars, free_vars.len() + 1,
{
    if free_vars.len() > u32::MAX {
        Err(EncodeFault::Unrepresentable)
    } else {
        cat(
            cat(
                cat(cat(Ok(seq![FUN_EXT] + u32_be(free_vars.len() as u32)), enc_pid(pid)), enc_atom(module)),
                Ok(enc_fix(index) + enc_fix(uniq)),
            ),
            enc_terms(free_vars, 0),
        )
    }
}

pub open spec fn enc_new_fun(
    module: Seq<char>,
    arity: u8,
    pid: PidV,
    free_vars: Seq<TermV>,
    index: u32,
    uniq: Seq<u8>,
    old_index: i32,
    old_uniq: i32,
) -> Encoded
    decreases free_vars, free_vars.len() + 2,
{
    if free_vars.len() > u32::MAX {
        Err(EncodeFault::Unrepresentable)
    } else {
        match new_fun_body(module, arity, pid, free_vars, index, uniq, old_index, old_uniq) {
            Err(e) => Err(e),
            Ok(body) => if body.len() + 4 > u32::MAX {
                Err(EncodeFault::Unrepresentable)
            } else {
                Ok(seq![NEW_FUN_EXT] + u32_be((body.len() + 4) as u32) + body)
            },
        }
    }
}

/// An improper list: the elements, then the tail in place of nil.
pub open spec fn enc_improper(t: TermV) -> Encoded
    decreases t, 0int,
{
    if let TermV::ImproperList(ts, last) = t {
        if ts.len() > u32::MAX {
            Err(EncodeFault::Unrepresentable)
        } else {
            cat(cat(Ok(seq![LIST_EXT] + u32_be(ts.len() as u32)), enc_terms(ts, 0)), enc_term(*last))
        }
    } else {
        Err(EncodeFault::Unrepresentable)
    }
}

/// What the encoder writes for a term, after the version byte.
pub open spec fn enc_term(t: TermV) -> Encoded
    decreases t, 1int,
{
    match t {
        TermV::Atom(name) => enc_atom(name),
        TermV::FixInteger(v) => Ok(enc_fix(v)),
        TermV::BigInteger { negative, magnitude } => enc_big(negative, magnitude),
        TermV::Float(bits) => Ok(seq![NEW_FLOAT_EXT] + u64_be(bits)),
        TermV::Pid(p) => enc_pid(p),
        TermV::Port { node, id, creation } => enc_port(node, id, creation),
        TermV::Reference { node, id, creation } => enc_reference(node, id, creation),
        TermV::ExternalFun { module, function, arity } => enc_export(module, function, arity),
        TermV::OldFun { module, pid, free_vars, index, uniq } => enc_old_fun(
            module,
            pid,
            free_vars,
            index,
            uniq,
        ),
        TermV::NewFun { module, arity, pid, free_vars, index, uniq, old_index, old_uniq } =>
            enc_new_fun(module, arity, pid, free_vars, index, uniq, old_index, old_uniq),
        TermV::Binary(bytes) => enc_binary(bytes),
        TermV::BitBinary { bytes, tail_bits_size } => enc_bit_binary(bytes, tail_bits_size),
        TermV::List(ts) => enc_list(ts),
        TermV::ImproperList(_, _) => enc_improper(t),
        TermV::Tuple(ts) => enc_tuple(ts),
        TermV::TermMap(es) => enc_map(es),
    }
}

/// A whole encoded message: the version byte, then the term.
pub open spec fn enc_message(t: TermV) -> Encoded {
    cat(Ok(seq![VERSION]), enc_term(t))
}

pub proof fn lemma_enc_terms_step(ts: Seq<TermV>, i: int)
    requires
        0 <= i,
    ensures
        i < ts.len() ==> enc_terms(ts, i) == cat(enc_term(ts[i]), enc_terms(ts, i + 1)),
        i >= ts.len() ==> enc_terms(ts, i) == Ok::<Seq<u8>, EncodeFault>(Seq::empty()),
{
}

pub proof fn lemma_enc_entries_step(es: Seq<(TermV, TermV)>, i: int)
    requires
        0 <= i,
    ensures
        i < es.len() ==> enc_entries(es, i) == cat(
            cat(enc_term(es[i].0), enc_term(es[i].1)),
            enc_entries(es, i + 1),
        ),
        i >= es.len() ==> enc_entries(es, i) == Ok::<Seq<u8>, EncodeFault>(Seq::empty()),
{
}

} // verus!
