//! Laws that relate the encoder and the decoder.
use vstd::prelude::*;
use vstd::utf8::*;
use crate::decode::{parse_body, parse_message};
use crate::error::{DecodeErrorV, IoErrorKind};
use crate::inflate::zlib_inflated;
use crate::wire::{keys_distinct, canonical_magnitude, canonical_negative, enc_message, strip_zeros, EncodeFault};
use crate::parse::{
    find_key, fits, map_insert, parse_leaf, parse_old_reference, rem, normalize, parse_atom, parse_big, parse_bit_binary,
    parse_container, parse_entries, parse_export, parse_new_fun, parse_old_fun, parse_pid,
    parse_port, parse_reference, parse_seq, parse_term, unshift, words,
    is_finite_bits,
};
use crate::term::{PidV, TermV};
use crate::wire::{
    bit_bytes, cat, enc_atom, enc_big, enc_binary, enc_bit_binary, enc_entries, enc_export,
    enc_fix, enc_improper, enc_list, enc_map, enc_new_fun, enc_old_fun, enc_pid, enc_port,
    enc_reference, enc_term, enc_terms, enc_tuple, get_u16, get_u32, get_u64, is_ascii_bytes,
    new_fun_body, tail_byte, u16_be, u32_be, u32_words, u64_be, all_bytes, byte_values,
};

verus! {

/// `e` stands in `s` from `p`.
pub open spec fn at(s: Seq<u8>, p: int, e: Seq<u8>) -> bool {
    0 <= p && p + e.len() <= s.len() && s.subrange(p, p + e.len()) == e
}

proof fn lemma_at_split(s: Seq<u8>, p: int, a: Seq<u8>, b: Seq<u8>)
    requires
        at(s, p, a + b),
    ensures
        at(s, p, a),
        at(s, p + a.len(), b),
{
    let w = s.subrange(p, p + (a + b).len());
    assert(s.subrange(p, p + a.len()) =~= w.subrange(0, a.len() as int));
    assert(w.subrange(0, a.len() as int) =~= a);
    assert(s.subrange(p + a.len(), p + a.len() + b.len()) =~= w.subrange(
        a.len() as int,
        (a + b).len() as int,
    ));
    assert(w.subrange(a.len() as int, (a + b).len() as int) =~= b);
}

proof fn lemma_at_index(s: Seq<u8>, p: int, e: Seq<u8>, i: int)
    requires
        at(s, p, e),
        0 <= i < e.len(),
    ensures
        s[p + i] == e[i],
{
    assert(s.subrange(p, p + e.len())[i] == s[p + i]);
}

proof fn lemma_u16_bits(v: u16)
    ensures
        ((((v >> 8u16) as u8) as u16) << 8u16) | ((v as u8) as u16) == v,
{
    assert(((((v >> 8u16) as u8) as u16) << 8u16) | ((v as u8) as u16) == v) by (bit_vector);
}

proof fn lemma_u32_bits(v: u32)
    ensures
        ((((v >> 24u32) as u8) as u32) << 24u32) | ((((v >> 16u32) as u8) as u32) << 16u32) | ((((v
            >> 8u32) as u8) as u32) << 8u32) | ((v as u8) as u32) == v,
{
    assert(((((v >> 24u32) as u8) as u32) << 24u32) | ((((v >> 16u32) as u8) as u32) << 16u32) | ((((v
        >> 8u32) as u8) as u32) << 8u32) | ((v as u8) as u32) == v) by (bit_vector);
}

proof fn lemma_u64_bits(v: u64)
    ensures
        ((((v >> 32u64) as u32) as u64) << 32u64) | ((v as u32) as u64) == v,
{
    assert(((((v >> 32u64) as u32) as u64) << 32u64) | ((v as u32) as u64) == v) by (bit_vector);
}

proof fn lemma_read_u16(s: Seq<u8>, p: int, v: u16)
    requires
        at(s, p, u16_be(v)),
    ensures
        get_u16(s, p) == v,
{
    lemma_at_index(s, p, u16_be(v), 0);
    lemma_at_index(s, p, u16_be(v), 1);
    lemma_u16_bits(v);
}

proof fn lemma_read_u32(s: Seq<u8>, p: int, v: u32)
    requires
        at(s, p, u32_be(v)),
    ensures
        get_u32(s, p) == v,
{
    lemma_at_index(s, p, u32_be(v), 0);
    lemma_at_index(s, p, u32_be(v), 1);
    lemma_at_index(s, p, u32_be(v), 2);
    lemma_at_index(s, p, u32_be(v), 3);
    lemma_u32_bits(v);
}

proof fn lemma_read_u64(s: Seq<u8>, p: int, v: u64)
    requires
        at(s, p, u64_be(v)),
    ensures
        get_u64(s, p) == v,
{
    lemma_at_split(s, p, u32_be((v >> 32u64) as u32), u32_be(v as u32));
    lemma_read_u32(s, p, (v >> 32u64) as u32);
    lemma_read_u32(s, p + 4, v as u32);
    lemma_u64_bits(v);
}

proof fn lemma_i32_bits(v: i32)
    ensures
        (v as u32) as i32 == v,
{
    assert((v as u32) as i32 == v) by (bit_vector);
}

/// An atom reads back as itself.
proof fn lemma_atom(name: Seq<char>, s: Seq<u8>, p: int)
    requires
        enc_atom(name) is Ok,
        at(s, p, enc_atom(name)->Ok_0),
    ensures
        parse_term(s, p) == Ok::<(TermV, nat), DecodeErrorV>(
            (TermV::Atom(name), enc_atom(name)->Ok_0.len()),
        ),
{
    let b = encode_utf8(name);
    let tag = if is_ascii_bytes(b) { 100u8 } else { 118u8 };
    let head = seq![tag];
    lemma_at_split(s, p, head + u16_be(b.len() as u16), b);
    lemma_at_split(s, p, head, u16_be(b.len() as u16));
    lemma_at_index(s, p, head, 0);
    lemma_read_u16(s, p + 1, b.len() as u16);
    encode_utf8_valid_utf8(name);
    encode_utf8_decode_utf8(name);
    assert(s.subrange(p + 3, p + 3 + b.len()) == b);
    assert(parse_atom(s, p + 1, true, tag == 100) == Ok::<(TermV, nat), DecodeErrorV>(
        (TermV::Atom(name), (2 + b.len()) as nat),
    ));
}

/// A fixed integer reads back as itself.
proof fn lemma_fix(v: i32, s: Seq<u8>, p: int)
    requires
        at(s, p, enc_fix(v)),
    ensures
        parse_term(s, p) == Ok::<(TermV, nat), DecodeErrorV>((TermV::FixInteger(v), enc_fix(v).len())),
{
    lemma_at_index(s, p, enc_fix(v), 0);
    if 0 <= v <= 255 {
        lemma_at_index(s, p, enc_fix(v), 1);
    } else {
        lemma_at_split(s, p, seq![98u8], u32_be(v as u32));
        lemma_read_u32(s, p + 1, v as u32);
        lemma_i32_bits(v);
    }
}

/// A pid reads back as itself.
proof fn lemma_pid(pv: PidV, s: Seq<u8>, p: int)
    requires
        enc_pid(pv) is Ok,
        at(s, p, enc_pid(pv)->Ok_0),
    ensures
        parse_term(s, p) == Ok::<(TermV, nat), DecodeErrorV>((TermV::Pid(pv), enc_pid(pv)->Ok_0.len())),
{
    let a = enc_atom(pv.node)->Ok_0;
    let ints = u32_be(pv.id) + u32_be(pv.serial) + u32_be(pv.creation);
    lemma_at_split(s, p, seq![88u8] + a, ints);
    lemma_at_split(s, p, seq![88u8], a);
    lemma_at_index(s, p, seq![88u8], 0);
    lemma_atom(pv.node, s, p + 1);
    let q = p + 1 + a.len();
    lemma_at_split(s, q, u32_be(pv.id) + u32_be(pv.serial), u32_be(pv.creation));
    lemma_at_split(s, q, u32_be(pv.id), u32_be(pv.serial));
    lemma_read_u32(s, q, pv.id);
    lemma_read_u32(s, q + 4, pv.serial);
    lemma_read_u32(s, q + 8, pv.creation);
    assert(parse_pid(s, p + 1, true) == Ok::<(TermV, nat), DecodeErrorV>(
        (TermV::Pid(pv), (a.len() + 12) as nat),
    ));
}

/// Whether the low bits of `b` above the first `tail` are clear.
pub open spec fn fits_tail(b: u8, tail: u8) -> bool {
    tail >= 8 || (b >> tail) == 0
}

/// A term that decoding gives back unchanged: big integers in canonical form, finite
/// floats, bit strings whose last byte uses only its tail bits, 16 uniq bytes in a new
/// fun, and improper lists whose tail is not nil.
pub open spec fn canonical(t: TermV) -> bool
    decreases t, 0int,
{
    match t {
        TermV::BigInteger { negative, magnitude } => magnitude.len() >= 1 && (magnitude.last() == 0
            ==> (magnitude == seq![0u8] && !negative)),
        TermV::Float(bits) => is_finite_bits(bits),
        TermV::OldFun { free_vars, .. } => all_canonical(free_vars, 0),
        TermV::NewFun { free_vars, uniq, .. } => uniq.len() == 16 && all_canonical(free_vars, 0),
        TermV::BitBinary { bytes, tail_bits_size } => bytes.len() > 0 ==> fits_tail(
            bytes.last(),
            tail_bits_size,
        ),
        TermV::List(ts) => all_canonical(ts, 0),
        TermV::ImproperList(ts, last) => all_canonical(ts, 0) && canonical(*last) && *last
            != TermV::List(Seq::empty()),
        TermV::Tuple(ts) => all_canonical(ts, 0),
        TermV::TermMap(es) => entries_canonical(es, 0),
        _ => true,
    }
}

/// Whether the terms `ts[i..]` are canonical.
pub open spec fn all_canonical(ts: Seq<TermV>, i: int) -> bool
    decreases ts, ts.len() - i,
{
    if i < 0 || i >= ts.len() {
        true
    } else {
        canonical(ts[i]) && all_canonical(ts, i + 1)
    }
}

/// Whether the keys and values of `es[i..]` are canonical.
pub open spec fn entries_canonical(es: Seq<(TermV, TermV)>, i: int) -> bool
    decreases es, es.len() - i,
{
    if i < 0 || i >= es.len() {
        true
    } else {
        canonical(es[i].0) && canonical(es[i].1) && entries_canonical(es, i + 1)
    }
}

proof fn lemma_words(s: Seq<u8>, p: int, ws: Seq<u32>)
    requires
        at(s, p, u32_words(ws)),
    ensures
        words(s, p, ws.len()) == ws,
    decreases ws.len(),
{
    if ws.len() > 0 {
        let init = ws.drop_last();
        lemma_at_split(s, p, u32_words(init), u32_be(ws.last()));
        lemma_words(s, p, init);
        assert(u32_words(init).len() == 4 * init.len()) by {
            lemma_words_len(init);
        }
        lemma_read_u32(s, p + 4 * init.len(), ws.last());
        assert forall|i: int| 0 <= i < ws.len() implies words(s, p, ws.len())[i] == ws[i] by {
            if i < init.len() {
                assert(words(s, p, init.len())[i] == init[i]);
            } else {
                assert(i == init.len());
            }
        }
        assert(words(s, p, ws.len()) =~= ws);
    }
}

proof fn lemma_words_len(ws: Seq<u32>)
    ensures
        u32_words(ws).len() == 4 * ws.len(),
    decreases ws.len(),
{
    if ws.len() > 0 {
        lemma_words_len(ws.drop_last());
    }
}

proof fn lemma_tail_bits(b: u8, t: u8)
    requires
        1 <= t <= 8,
        fits_tail(b, t),
    ensures
        (tail_byte(b, t) >> (8 - t) as u8) as u8 == b,
{
    if t == 8 {
        assert(((b << 0u8) as u8 >> 0u8) as u8 == b) by (bit_vector);
    } else {
        let sh = (8 - t) as u8;
        assert(1 <= t <= 7 && sh == 8 - t && (b >> t) == 0 ==> (((b << sh) as u8) >> sh) as u8 == b)
            by (bit_vector);
    }
}

proof fn lemma_find_key_absent(es: Seq<(TermV, TermV)>, k: TermV, i: int)
    requires
        0 <= i,
        forall|j: int| 0 <= j < es.len() ==> (#[trigger] es[j]).0 != k,
    ensures
        find_key(es, k, i) == -1,
    decreases es.len() - i,
{
    if i < es.len() {
        lemma_find_key_absent(es, k, i + 1);
    }
}

proof fn lemma_big(negative: bool, magnitude: Seq<u8>, s: Seq<u8>, p: int)
    requires
        canonical(TermV::BigInteger { negative, magnitude }),
        enc_big(negative, magnitude) is Ok,
        at(s, p, enc_big(negative, magnitude)->Ok_0),
    ensures
        parse_term(s, p) == Ok::<(TermV, nat), DecodeErrorV>(
            (TermV::BigInteger { negative, magnitude }, enc_big(negative, magnitude)->Ok_0.len()),
        ),
{
    let n = magnitude.len();
    let sb = if negative { 1u8 } else { 0u8 };
    if magnitude.last() == 0 {
        assert(strip_zeros(magnitude.drop_last()) == magnitude.drop_last());
    } else {
        assert(strip_zeros(magnitude) == magnitude);
    }
    assert(normalize(sb == 1, magnitude) == TermV::BigInteger { negative, magnitude });
    if n <= 255 {
        let head = seq![110u8, n as u8, sb];
        lemma_at_split(s, p, head, magnitude);
        lemma_at_index(s, p, head, 0);
        lemma_at_index(s, p, head, 1);
        lemma_at_index(s, p, head, 2);
        assert(parse_big(s, p + 1, false) == Ok::<(TermV, nat), DecodeErrorV>(
            (TermV::BigInteger { negative, magnitude }, (2 + n) as nat),
        ));
    } else {
        let head = seq![111u8] + u32_be(n as u32) + seq![sb];
        lemma_at_split(s, p, head, magnitude);
        lemma_at_split(s, p, seq![111u8] + u32_be(n as u32), seq![sb]);
        lemma_at_split(s, p, seq![111u8], u32_be(n as u32));
        lemma_at_index(s, p, seq![111u8], 0);
        lemma_at_index(s, p + 5, seq![sb], 0);
        lemma_read_u32(s, p + 1, n as u32);
        assert(parse_big(s, p + 1, true) == Ok::<(TermV, nat), DecodeErrorV>(
            (TermV::BigInteger { negative, magnitude }, (5 + n) as nat),
        ));
    }
}

proof fn lemma_float(bits: u64, s: Seq<u8>, p: int)
    requires
        is_finite_bits(bits),
        at(s, p, seq![70u8] + u64_be(bits)),
    ensures
        parse_term(s, p) == Ok::<(TermV, nat), DecodeErrorV>((TermV::Float(bits), 9)),
{
    lemma_at_split(s, p, seq![70u8], u64_be(bits));
    lemma_at_index(s, p, seq![70u8], 0);
    lemma_read_u64(s, p + 1, bits);
}

proof fn lemma_port(node: Seq<char>, id: u64, creation: u32, s: Seq<u8>, p: int)
    requires
        enc_port(node, id, creation) is Ok,
        at(s, p, enc_port(node, id, creation)->Ok_0),
    ensures
        parse_term(s, p) == Ok::<(TermV, nat), DecodeErrorV>(
            (TermV::Port { node, id, creation }, enc_port(node, id, creation)->Ok_0.len()),
        ),
{
    let a = enc_atom(node)->Ok_0;
    let q = p + 1 + a.len();
    if id <= u32::MAX {
        let tail = u32_be(id as u32) + u32_be(creation);
        lemma_at_split(s, p, seq![89u8] + a, tail);
        lemma_at_split(s, p, seq![89u8], a);
        lemma_at_index(s, p, seq![89u8], 0);
        lemma_atom(node, s, p + 1);
        lemma_at_split(s, q, u32_be(id as u32), u32_be(creation));
        lemma_read_u32(s, q, id as u32);
        lemma_read_u32(s, q + 4, creation);
        assert(parse_port(s, p + 1, false, false) == Ok::<(TermV, nat), DecodeErrorV>(
            (TermV::Port { node, id, creation }, (a.len() + 8) as nat),
        ));
    } else {
        let tail = u64_be(id) + u32_be(creation);
        lemma_at_split(s, p, seq![120u8] + a, tail);
        lemma_at_split(s, p, seq![120u8], a);
        lemma_at_index(s, p, seq![120u8], 0);
        lemma_atom(node, s, p + 1);
        lemma_at_split(s, q, u64_be(id), u32_be(creation));
        lemma_read_u64(s, q, id);
        lemma_read_u32(s, q + 8, creation);
        assert(parse_port(s, p + 1, false, true) == Ok::<(TermV, nat), DecodeErrorV>(
            (TermV::Port { node, id, creation }, (a.len() + 12) as nat),
        ));
    }
}

proof fn lemma_reference(node: Seq<char>, id: Seq<u32>, creation: u32, s: Seq<u8>, p: int)
    requires
        enc_reference(node, id, creation) is Ok,
        at(s, p, enc_reference(node, id, creation)->Ok_0),
    ensures
        parse_term(s, p) == Ok::<(TermV, nat), DecodeErrorV>(
            (TermV::Reference { node, id, creation }, enc_reference(node, id, creation)->Ok_0.len()),
        ),
{
    let a = enc_atom(node)->Ok_0;
    let head = seq![90u8] + u16_be(id.len() as u16);
    let tail = u32_be(creation) + u32_words(id);
    lemma_at_split(s, p, head + a, tail);
    lemma_at_split(s, p, head, a);
    lemma_at_split(s, p, seq![90u8], u16_be(id.len() as u16));
    lemma_at_index(s, p, seq![90u8], 0);
    lemma_read_u16(s, p + 1, id.len() as u16);
    lemma_atom(node, s, p + 3);
    let q = p + 3 + a.len();
    lemma_at_split(s, q, u32_be(creation), u32_words(id));
    lemma_read_u32(s, q, creation);
    lemma_words(s, q + 4, id);
    lemma_words_len(id);
    assert(parse_reference(s, p + 1, true) == Ok::<(TermV, nat), DecodeErrorV>(
        (TermV::Reference { node, id, creation }, (2 + a.len() + 4 + 4 * id.len()) as nat),
    ));
}

proof fn lemma_export(module: Seq<char>, function: Seq<char>, arity: u8, s: Seq<u8>, p: int)
    requires
        enc_export(module, function, arity) is Ok,
        at(s, p, enc_export(module, function, arity)->Ok_0),
    ensures
        parse_term(s, p) == Ok::<(TermV, nat), DecodeErrorV>(
            (
                TermV::ExternalFun { module, function, arity },
                enc_export(module, function, arity)->Ok_0.len(),
            ),
        ),
{
    let a = enc_atom(module)->Ok_0;
    let b = enc_atom(function)->Ok_0;
    let f = enc_fix(arity as i32);
    lemma_at_split(s, p, seq![113u8] + a + b, f);
    lemma_at_split(s, p, seq![113u8] + a, b);
    lemma_at_split(s, p, seq![113u8], a);
    lemma_at_index(s, p, seq![113u8], 0);
    lemma_atom(module, s, p + 1);
    lemma_atom(function, s, p + 1 + a.len());
    lemma_fix(arity as i32, s, p + 1 + a.len() + b.len());
    assert(parse_export(s, p + 1) == Ok::<(TermV, nat), DecodeErrorV>(
        (TermV::ExternalFun { module, function, arity }, (a.len() + b.len() + f.len()) as nat),
    ));
}

proof fn lemma_binary(bytes: Seq<u8>, s: Seq<u8>, p: int)
    requires
        enc_binary(bytes) is Ok,
        at(s, p, enc_binary(bytes)->Ok_0),
    ensures
        parse_term(s, p) == Ok::<(TermV, nat), DecodeErrorV>(
            (TermV::Binary(bytes), enc_binary(bytes)->Ok_0.len()),
        ),
{
    let head = seq![109u8] + u32_be(bytes.len() as u32);
    lemma_at_split(s, p, head, bytes);
    lemma_at_split(s, p, seq![109u8], u32_be(bytes.len() as u32));
    lemma_at_index(s, p, seq![109u8], 0);
    lemma_read_u32(s, p + 1, bytes.len() as u32);
}

proof fn lemma_bit_binary(bytes: Seq<u8>, tail: u8, s: Seq<u8>, p: int)
    requires
        canonical(TermV::BitBinary { bytes, tail_bits_size: tail }),
        enc_bit_binary(bytes, tail) is Ok,
        at(s, p, enc_bit_binary(bytes, tail)->Ok_0),
    ensures
        parse_term(s, p) == Ok::<(TermV, nat), DecodeErrorV>(
            (TermV::BitBinary { bytes, tail_bits_size: tail }, enc_bit_binary(bytes, tail)->Ok_0.len()),
        ),
{
    let head = seq![77u8] + u32_be(bytes.len() as u32) + seq![tail];
    let body = bit_bytes(bytes, tail);
    lemma_at_split(s, p, head, body);
    lemma_at_split(s, p, seq![77u8] + u32_be(bytes.len() as u32), seq![tail]);
    lemma_at_split(s, p, seq![77u8], u32_be(bytes.len() as u32));
    lemma_at_index(s, p, seq![77u8], 0);
    lemma_at_index(s, p + 5, seq![tail], 0);
    lemma_read_u32(s, p + 1, bytes.len() as u32);
    if bytes.len() > 0 {
        lemma_tail_bits(bytes.last(), tail);
        assert(unshift(body, tail) =~= bytes);
    } else {
        assert(unshift(body, tail) =~= bytes);
    }
    assert(parse_bit_binary(s, p + 1) == Ok::<(TermV, nat), DecodeErrorV>(
        (TermV::BitBinary { bytes, tail_bits_size: tail }, (5 + bytes.len()) as nat),
    ));
}

/// The terms `ts[i..]`, written one after the other, read back as themselves after `acc`.
proof fn lemma_seq(ts: Seq<TermV>, i: int, s: Seq<u8>, p: int, acc: Seq<TermV>)
    requires
        0 <= i <= ts.len(),
        all_canonical(ts, i),
        enc_terms(ts, i) is Ok,
        at(s, p, enc_terms(ts, i)->Ok_0),
    ensures
        parse_seq(s, p, (ts.len() - i) as nat, acc) == Ok::<(Seq<TermV>, nat), DecodeErrorV>(
            (acc + ts.subrange(i, ts.len() as int), enc_terms(ts, i)->Ok_0.len()),
        ),
    decreases ts, ts.len() - i,
{
    if i == ts.len() {
        assert(acc + ts.subrange(i, ts.len() as int) =~= acc);
    } else {
        let a = enc_term(ts[i])->Ok_0;
        let b = enc_terms(ts, i + 1)->Ok_0;
        lemma_at_split(s, p, a, b);
        lemma_decode_encoded(ts[i], s, p);
        lemma_seq(ts, i + 1, s, p + a.len(), acc.push(ts[i]));
        assert(acc.push(ts[i]) + ts.subrange(i + 1, ts.len() as int) =~= acc + ts.subrange(
            i,
            ts.len() as int,
        ));
    }
}

/// The entries `es[i..]`, written one after the other, read back as themselves after
/// the entries before them.
#[verifier::rlimit(100)]
proof fn lemma_entries(es: Seq<(TermV, TermV)>, i: int, s: Seq<u8>, p: int)
    requires
        0 <= i <= es.len(),
        entries_canonical(es, i),
        keys_distinct(es),
        enc_entries(es, i) is Ok,
        at(s, p, enc_entries(es, i)->Ok_0),
    ensures
        parse_entries(s, p, (es.len() - i) as nat, es.subrange(0, i))
            == Ok::<(Seq<(TermV, TermV)>, nat), DecodeErrorV>(
            (es, enc_entries(es, i)->Ok_0.len()),
        ),
    decreases es, es.len() - i,
{
    if i == es.len() {
        assert(es.subrange(0, i) =~= es);
    } else {
        let k = enc_term(es[i].0)->Ok_0;
        let v = enc_term(es[i].1)->Ok_0;
        let b = enc_entries(es, i + 1)->Ok_0;
        lemma_at_split(s, p, k + v, b);
        lemma_at_split(s, p, k, v);
        lemma_decode_encoded(es[i].0, s, p);
        lemma_decode_encoded(es[i].1, s, p + k.len());
        let acc = es.subrange(0, i);
        assert forall|j: int| 0 <= j < acc.len() implies (#[trigger] acc[j]).0 != es[i].0 by {
            assert(acc[j] == es[j]);
            assert(es[j].0 != es[i].0);
        }
        lemma_find_key_absent(acc, es[i].0, 0);
        assert(map_insert(acc, es[i].0, es[i].1) =~= es.subrange(0, i + 1));
        lemma_entries(es, i + 1, s, p + k.len() + v.len());
    }
}

proof fn lemma_string(ts: Seq<TermV>, s: Seq<u8>, p: int)
    requires
        0 < ts.len() <= 0xFFFF,
        all_bytes(ts),
        at(s, p, seq![107u8] + u16_be(ts.len() as u16) + byte_values(ts)),
    ensures
        parse_term(s, p) == Ok::<(TermV, nat), DecodeErrorV>(
            (TermV::List(ts), (3 + ts.len()) as nat),
        ),
{
    let n = ts.len();
    let head = seq![107u8] + u16_be(n as u16);
    lemma_at_split(s, p, head, byte_values(ts));
    lemma_at_split(s, p, seq![107u8], u16_be(n as u16));
    lemma_at_index(s, p, seq![107u8], 0);
    lemma_read_u16(s, p + 1, n as u16);
    let got = Seq::new(n as nat, |i: int| TermV::FixInteger(s[p + 3 + i] as i32));
    assert forall|i: int| 0 <= i < n implies got[i] == ts[i] by {
        lemma_at_index(s, p + 3, byte_values(ts), i);
        assert(ts[i] matches TermV::FixInteger(v) && 0 <= v < 256);
    }
    assert(got =~= ts);
}

proof fn lemma_proper_list(ts: Seq<TermV>, s: Seq<u8>, p: int)
    requires
        0 < ts.len() <= u32::MAX,
        all_canonical(ts, 0),
        enc_terms(ts, 0) is Ok,
        at(s, p, seq![108u8] + u32_be(ts.len() as u32) + enc_terms(ts, 0)->Ok_0 + seq![106u8]),
    ensures
        parse_term(s, p) == Ok::<(TermV, nat), DecodeErrorV>(
            (TermV::List(ts), (6 + enc_terms(ts, 0)->Ok_0.len()) as nat),
        ),
    decreases ts, ts.len() + 1,
{
    let n = ts.len();
    let head = seq![108u8] + u32_be(n as u32);
    let body = enc_terms(ts, 0)->Ok_0;
    lemma_at_split(s, p, head + body, seq![106u8]);
    lemma_at_split(s, p, head, body);
    lemma_at_split(s, p, seq![108u8], u32_be(n as u32));
    lemma_at_index(s, p, seq![108u8], 0);
    lemma_read_u32(s, p + 1, n as u32);
    lemma_seq(ts, 0, s, p + 5, Seq::empty());
    assert(Seq::<TermV>::empty() + ts.subrange(0, n as int) =~= ts);
    lemma_at_index(s, p + 5 + body.len(), seq![106u8], 0);
    assert(parse_term(s, p + 5 + body.len()) == Ok::<(TermV, nat), DecodeErrorV>(
        (TermV::List(Seq::empty()), 1),
    ));
    lemma_list_parse(s, p + 1, ts, body.len(), TermV::List(Seq::empty()), 1);
    lemma_dispatch(s, p);
}

#[verifier::rlimit(100)]
proof fn lemma_list(ts: Seq<TermV>, s: Seq<u8>, p: int)
    requires
        canonical(TermV::List(ts)),
        enc_list(ts) is Ok,
        at(s, p, enc_list(ts)->Ok_0),
    ensures
        parse_term(s, p) == Ok::<(TermV, nat), DecodeErrorV>(
            (TermV::List(ts), enc_list(ts)->Ok_0.len()),
        ),
    decreases ts, ts.len() + 2,
{
    let n = ts.len();
    if 0 < n <= 0xFFFF && all_bytes(ts) {
        lemma_string(ts, s, p);
    } else if n == 0 {
        lemma_at_index(s, p, seq![106u8], 0);
        assert(ts =~= Seq::<TermV>::empty());
    } else {
        lemma_proper_list(ts, s, p);
    }
}

pub open spec fn plus1(r: Result<(TermV, nat), DecodeErrorV>) -> Result<(TermV, nat), DecodeErrorV> {
    match r {
        Ok((v, c)) => Ok((v, c + 1)),
        Err(e) => Err(e),
    }
}

proof fn lemma_dispatch(s: Seq<u8>, p: int)
    requires
        fits(s, p, 1),
    ensures
        s[p] == 104 ==> parse_term(s, p) == plus1(parse_container(s, p + 1, 104)),
        s[p] == 105 ==> parse_term(s, p) == plus1(parse_container(s, p + 1, 105)),
        s[p] == 108 ==> parse_term(s, p) == plus1(parse_container(s, p + 1, 108)),
        s[p] == 116 ==> parse_term(s, p) == plus1(parse_container(s, p + 1, 116)),
        s[p] == 117 ==> parse_term(s, p) == plus1(parse_old_fun(s, p + 1)),
        s[p] == 112 ==> parse_term(s, p) == plus1(parse_new_fun(s, p + 1)),
{
}

/// A tuple form reads back from its parts: the count and the elements.
proof fn lemma_tuple_parse(s: Seq<u8>, q: int, tag: u8, ts: Seq<TermV>, c: nat)
    requires
        tag == 104 || tag == 105,
        fits(s, q, if tag == 104 { 1int } else { 4int }),
        (if tag == 104 { s[q] as nat } else { get_u32(s, q) as nat }) == ts.len(),
        parse_seq(s, q + (if tag == 104 { 1int } else { 4int }), ts.len(), Seq::empty())
            == Ok::<(Seq<TermV>, nat), DecodeErrorV>((ts, c)),
    ensures
        parse_container(s, q, tag) == Ok::<(TermV, nat), DecodeErrorV>(
            (TermV::Tuple(ts), (if tag == 104 { 1int } else { 4int } + c) as nat),
        ),
{
}

/// An old fun reads back from its parts.
proof fn lemma_old_fun_parse(
    s: Seq<u8>,
    q: int,
    pid: PidV,
    c1: nat,
    module: Seq<char>,
    c2: nat,
    index: i32,
    c3: nat,
    uniq: i32,
    c4: nat,
    free_vars: Seq<TermV>,
    c5: nat,
)
    requires
        fits(s, q, 4),
        get_u32(s, q) as nat == free_vars.len(),
        parse_term(s, q + 4) == Ok::<(TermV, nat), DecodeErrorV>((TermV::Pid(pid), c1)),
        parse_term(s, q + 4 + c1) == Ok::<(TermV, nat), DecodeErrorV>((TermV::Atom(module), c2)),
        parse_term(s, q + 4 + c1 + c2) == Ok::<(TermV, nat), DecodeErrorV>(
            (TermV::FixInteger(index), c3),
        ),
        parse_term(s, q + 4 + c1 + c2 + c3) == Ok::<(TermV, nat), DecodeErrorV>(
            (TermV::FixInteger(uniq), c4),
        ),
        parse_seq(s, q + 4 + c1 + c2 + c3 + c4, free_vars.len(), Seq::empty()) == Ok::<
            (Seq<TermV>, nat),
            DecodeErrorV,
        >((free_vars, c5)),
    ensures
        parse_old_fun(s, q) == Ok::<(TermV, nat), DecodeErrorV>(
            (
                TermV::OldFun { module, pid, free_vars, index, uniq },
                (4 + c1 + c2 + c3 + c4 + c5) as nat,
            ),
        ),
{
}

/// A new fun reads back from its parts.
proof fn lemma_new_fun_parse(
    s: Seq<u8>,
    q: int,
    arity: u8,
    uniq: Seq<u8>,
    index: u32,
    module: Seq<char>,
    c1: nat,
    old_index: i32,
    c2: nat,
    old_uniq: i32,
    c3: nat,
    pid: PidV,
    c4: nat,
    free_vars: Seq<TermV>,
    c5: nat,
)
    requires
        fits(s, q, 29),
        s[q + 4] == arity,
        s.subrange(q + 5, q + 21) == uniq,
        get_u32(s, q + 21) == index,
        get_u32(s, q + 25) as nat == free_vars.len(),
        parse_term(s, q + 29) == Ok::<(TermV, nat), DecodeErrorV>((TermV::Atom(module), c1)),
        parse_term(s, q + 29 + c1) == Ok::<(TermV, nat), DecodeErrorV>(
            (TermV::FixInteger(old_index), c2),
        ),
        parse_term(s, q + 29 + c1 + c2) == Ok::<(TermV, nat), DecodeErrorV>(
            (TermV::FixInteger(old_uniq), c3),
        ),
        parse_term(s, q + 29 + c1 + c2 + c3) == Ok::<(TermV, nat), DecodeErrorV>((TermV::Pid(pid), c4)),
        parse_seq(s, q + 29 + c1 + c2 + c3 + c4, free_vars.len(), Seq::empty()) == Ok::<
            (Seq<TermV>, nat),
            DecodeErrorV,
        >((free_vars, c5)),
    ensures
        parse_new_fun(s, q) == Ok::<(TermV, nat), DecodeErrorV>(
            (
                TermV::NewFun { module, arity, pid, free_vars, index, uniq, old_index, old_uniq },
                (29 + c1 + c2 + c3 + c4 + c5) as nat,
            ),
        ),
{
}

/// A list form reads back from its parts: the count, the elements and the tail.
proof fn lemma_list_parse(s: Seq<u8>, q: int, ts: Seq<TermV>, c: nat, last: TermV, c2: nat)
    requires
        fits(s, q, 4),
        get_u32(s, q) as nat == ts.len(),
        parse_seq(s, q + 4, ts.len(), Seq::empty()) == Ok::<(Seq<TermV>, nat), DecodeErrorV>((ts, c)),
        parse_term(s, q + 4 + c) == Ok::<(TermV, nat), DecodeErrorV>((last, c2)),
    ensures
        parse_container(s, q, 108) == Ok::<(TermV, nat), DecodeErrorV>(
            (
                if last == TermV::List(Seq::empty()) {
                    TermV::List(ts)
                } else {
                    TermV::ImproperList(ts, Box::new(last))
                },
                (4 + c + c2) as nat,
            ),
        ),
{
}

proof fn lemma_improper(t: TermV, s: Seq<u8>, p: int)
    requires
        t is ImproperList,
        canonical(t),
        enc_improper(t) is Ok,
        at(s, p, enc_improper(t)->Ok_0),
    ensures
        parse_term(s, p) == Ok::<(TermV, nat), DecodeErrorV>((t, enc_improper(t)->Ok_0.len())),
    decreases t, 0int,
{
    if let TermV::ImproperList(ts, last) = t {
        let n = ts.len();
        let head = seq![108u8] + u32_be(n as u32);
        let body = enc_terms(ts, 0)->Ok_0;
        let tl = enc_term(*last)->Ok_0;
        lemma_at_split(s, p, head + body, tl);
        lemma_at_split(s, p, head, body);
        lemma_at_split(s, p, seq![108u8], u32_be(n as u32));
        lemma_at_index(s, p, seq![108u8], 0);
        lemma_read_u32(s, p + 1, n as u32);
        lemma_seq(ts, 0, s, p + 5, Seq::empty());
        assert(Seq::<TermV>::empty() + ts.subrange(0, n as int) =~= ts);
        lemma_decode_encoded(*last, s, p + 5 + body.len());
        lemma_list_parse(s, p + 1, ts, body.len(), *last, tl.len());
    }
}

#[verifier::rlimit(100)]
proof fn lemma_tuple(ts: Seq<TermV>, s: Seq<u8>, p: int)
    requires
        canonical(TermV::Tuple(ts)),
        enc_tuple(ts) is Ok,
        at(s, p, enc_tuple(ts)->Ok_0),
    ensures
        parse_term(s, p) == Ok::<(TermV, nat), DecodeErrorV>(
            (TermV::Tuple(ts), enc_tuple(ts)->Ok_0.len()),
        ),
    decreases ts, ts.len() + 1,
{
    let n = ts.len();
    let body = enc_terms(ts, 0)->Ok_0;
    assert(enc_terms(ts, 0) is Ok);
    assert(Seq::<TermV>::empty() + ts.subrange(0, n as int) =~= ts);
    if n < 0x100 {
        let head = seq![104u8, n as u8];
        assert(enc_tuple(ts)->Ok_0 == head + body);
        lemma_at_split(s, p, head, body);
        lemma_at_index(s, p, head, 0);
        lemma_at_index(s, p, head, 1);
        lemma_seq(ts, 0, s, p + 2, Seq::empty());
        lemma_tuple_parse(s, p + 1, 104, ts, body.len());
        lemma_dispatch(s, p);
    } else {
        let head = seq![105u8] + u32_be(n as u32);
        assert(enc_tuple(ts)->Ok_0 == head + body);
        lemma_at_split(s, p, head, body);
        lemma_at_split(s, p, seq![105u8], u32_be(n as u32));
        lemma_at_index(s, p, seq![105u8], 0);
        lemma_read_u32(s, p + 1, n as u32);
        lemma_seq(ts, 0, s, p + 5, Seq::empty());
        lemma_tuple_parse(s, p + 1, 105, ts, body.len());
        lemma_dispatch(s, p);
    }
}

proof fn lemma_map(es: Seq<(TermV, TermV)>, s: Seq<u8>, p: int)
    requires
        canonical(TermV::TermMap(es)),
        enc_map(es) is Ok,
        at(s, p, enc_map(es)->Ok_0),
    ensures
        parse_term(s, p) == Ok::<(TermV, nat), DecodeErrorV>(
            (TermV::TermMap(es), enc_map(es)->Ok_0.len()),
        ),
    decreases es, es.len() + 1,
{
    let n = es.len();
    let head = seq![116u8] + u32_be(n as u32);
    let body = enc_entries(es, 0)->Ok_0;
    lemma_at_split(s, p, head, body);
    lemma_at_split(s, p, seq![116u8], u32_be(n as u32));
    lemma_at_index(s, p, seq![116u8], 0);
    lemma_read_u32(s, p + 1, n as u32);
    assert(es.subrange(0, 0) =~= Seq::<(TermV, TermV)>::empty());
    assert(enc_entries(es, 0) is Ok);
    assert(enc_map(es)->Ok_0 == head + body);
    lemma_entries(es, 0, s, p + 5);
    assert(parse_container(s, p + 1, 116) == Ok::<(TermV, nat), DecodeErrorV>(
        (TermV::TermMap(es), (4 + body.len()) as nat),
    ));
}

/// A term that holds no other term reads back as itself.
#[verifier::spinoff_prover]
proof fn lemma_leaf(t: TermV, s: Seq<u8>, p: int)
    requires
        !(t is List || t is ImproperList || t is Tuple || t is TermMap || t is OldFun
            || t is NewFun),
        canonical(t),
        enc_term(t) is Ok,
        at(s, p, enc_term(t)->Ok_0),
    ensures
        parse_term(s, p) == Ok::<(TermV, nat), DecodeErrorV>((t, enc_term(t)->Ok_0.len())),
{
    match t {
        TermV::Atom(name) => lemma_atom(name, s, p),
        TermV::FixInteger(v) => lemma_fix(v, s, p),
        TermV::BigInteger { negative, magnitude } => lemma_big(negative, magnitude, s, p),
        TermV::Float(bits) => lemma_float(bits, s, p),
        TermV::Pid(pv) => lemma_pid(pv, s, p),
        TermV::Port { node, id, creation } => lemma_port(node, id, creation, s, p),
        TermV::Reference { node, id, creation } => lemma_reference(node, id, creation, s, p),
        TermV::ExternalFun { module, function, arity } => lemma_export(
            module,
            function,
            arity,
            s,
            p,
        ),
        TermV::Binary(bytes) => lemma_binary(bytes, s, p),
        TermV::BitBinary { bytes, tail_bits_size } => lemma_bit_binary(bytes, tail_bits_size, s, p),
        _ => {},
    }
}

/// The encoding of a canonical term, wherever it stands in the input, decodes to the
/// term, and the decoder takes exactly its bytes.
#[verifier::spinoff_prover]
pub proof fn lemma_decode_encoded(t: TermV, s: Seq<u8>, p: int)
    requires
        canonical(t),
        enc_term(t) is Ok,
        at(s, p, enc_term(t)->Ok_0),
    ensures
        parse_term(s, p) == Ok::<(TermV, nat), DecodeErrorV>((t, enc_term(t)->Ok_0.len())),
    decreases t, 1int,
{
    match t {
        TermV::OldFun { module, pid, free_vars, index, uniq } => lemma_old_fun(
            module,
            pid,
            free_vars,
            index,
            uniq,
            s,
            p,
        ),
        TermV::NewFun { module, arity, pid, free_vars, index, uniq, old_index, old_uniq } =>
            lemma_new_fun(module, arity, pid, free_vars, index, uniq, old_index, old_uniq, s, p),
        TermV::List(ts) => lemma_list(ts, s, p),
        TermV::ImproperList(_, _) => lemma_improper(t, s, p),
        TermV::Tuple(ts) => lemma_tuple(ts, s, p),
        TermV::TermMap(es) => lemma_map(es, s, p),
        _ => lemma_leaf(t, s, p),
    }
}

proof fn lemma_old_fun(
    module: Seq<char>,
    pid: PidV,
    free_vars: Seq<TermV>,
    index: i32,
    uniq: i32,
    s: Seq<u8>,
    p: int,
)
    requires
        canonical(TermV::OldFun { module, pid, free_vars, index, uniq }),
        enc_old_fun(module, pid, free_vars, index, uniq) is Ok,
        at(s, p, enc_old_fun(module, pid, free_vars, index, uniq)->Ok_0),
    ensures
        parse_term(s, p) == Ok::<(TermV, nat), DecodeErrorV>(
            (
                TermV::OldFun { module, pid, free_vars, index, uniq },
                enc_old_fun(module, pid, free_vars, index, uniq)->Ok_0.len(),
            ),
        ),
    decreases free_vars, free_vars.len() + 2,
{
    lemma_old_fun_at(module, pid, free_vars, index, uniq, s, p);
}

#[verifier::rlimit(100)]
proof fn lemma_old_fun_at(
    module: Seq<char>,
    pid: PidV,
    free_vars: Seq<TermV>,
    index: i32,
    uniq: i32,
    s: Seq<u8>,
    p: int,
)
    requires
        all_canonical(free_vars, 0),
        free_vars.len() <= u32::MAX,
        enc_pid(pid) is Ok,
        enc_atom(module) is Ok,
        enc_terms(free_vars, 0) is Ok,
        at(
            s,
            p,
            seq![117u8] + u32_be(free_vars.len() as u32) + enc_pid(pid)->Ok_0 + enc_atom(module)->Ok_0
                + (enc_fix(index) + enc_fix(uniq)) + enc_terms(free_vars, 0)->Ok_0,
        ),
    ensures
        parse_term(s, p) == Ok::<(TermV, nat), DecodeErrorV>(
            (
                TermV::OldFun { module, pid, free_vars, index, uniq },
                (5 + enc_pid(pid)->Ok_0.len() + enc_atom(module)->Ok_0.len() + enc_fix(index).len()
                    + enc_fix(uniq).len() + enc_terms(free_vars, 0)->Ok_0.len()) as nat,
            ),
        ),
    decreases free_vars, free_vars.len() + 1,
{
    let n = free_vars.len();
    let h = seq![117u8] + u32_be(n as u32);
    let pe = enc_pid(pid)->Ok_0;
    let a = enc_atom(module)->Ok_0;
    let f = enc_fix(index) + enc_fix(uniq);
    let body = enc_terms(free_vars, 0)->Ok_0;
    lemma_at_split(s, p, h + pe + a + f, body);
    lemma_at_split(s, p, h + pe + a, f);
    lemma_at_split(s, p, h + pe, a);
    lemma_at_split(s, p, h, pe);
    lemma_at_split(s, p, seq![117u8], u32_be(n as u32));
    lemma_at_index(s, p, seq![117u8], 0);
    lemma_read_u32(s, p + 1, n as u32);
    let q1 = p + 5;
    lemma_pid(pid, s, q1);
    let q2 = q1 + pe.len();
    lemma_atom(module, s, q2);
    let q3 = q2 + a.len();
    lemma_at_split(s, q3, enc_fix(index), enc_fix(uniq));
    lemma_fix(index, s, q3);
    lemma_fix(uniq, s, q3 + enc_fix(index).len());
    let q4 = q3 + f.len();
    lemma_seq(free_vars, 0, s, q4, Seq::empty());
    assert(Seq::<TermV>::empty() + free_vars.subrange(0, n as int) =~= free_vars);
    lemma_old_fun_parse(
        s,
        p + 1,
        pid,
        pe.len(),
        module,
        a.len(),
        index,
        enc_fix(index).len(),
        uniq,
        enc_fix(uniq).len(),
        free_vars,
        body.len(),
    );
    lemma_dispatch(s, p);
}

proof fn lemma_new_fun(
    module: Seq<char>,
    arity: u8,
    pid: PidV,
    free_vars: Seq<TermV>,
    index: u32,
    uniq: Seq<u8>,
    old_index: i32,
    old_uniq: i32,
    s: Seq<u8>,
    p: int,
)
    requires
        canonical(TermV::NewFun { module, arity, pid, free_vars, index, uniq, old_index, old_uniq }),
        enc_new_fun(module, arity, pid, free_vars, index, uniq, old_index, old_uniq) is Ok,
        at(s, p, enc_new_fun(module, arity, pid, free_vars, index, uniq, old_index, old_uniq)->Ok_0),
    ensures
        parse_term(s, p) == Ok::<(TermV, nat), DecodeErrorV>(
            (
                TermV::NewFun { module, arity, pid, free_vars, index, uniq, old_index, old_uniq },
                enc_new_fun(module, arity, pid, free_vars, index, uniq, old_index, old_uniq)->Ok_0.len(),
            ),
        ),
    decreases free_vars, free_vars.len() + 3,
{
    lemma_new_fun_at(module, arity, pid, free_vars, index, uniq, old_index, old_uniq, s, p);
}

#[verifier::rlimit(100)]
proof fn lemma_new_fun_at(
    module: Seq<char>,
    arity: u8,
    pid: PidV,
    free_vars: Seq<TermV>,
    index: u32,
    uniq: Seq<u8>,
    old_index: i32,
    old_uniq: i32,
    s: Seq<u8>,
    p: int,
)
    requires
        all_canonical(free_vars, 0),
        uniq.len() == 16,
        free_vars.len() <= u32::MAX,
        enc_atom(module) is Ok,
        enc_pid(pid) is Ok,
        enc_terms(free_vars, 0) is Ok,
        new_fun_body(module, arity, pid, free_vars, index, uniq, old_index, old_uniq) is Ok,
        new_fun_body(module, arity, pid, free_vars, index, uniq, old_index, old_uniq)->Ok_0.len()
            + 4 <= u32::MAX,
        at(
            s,
            p,
            seq![112u8] + u32_be(
                (new_fun_body(module, arity, pid, free_vars, index, uniq, old_index, old_uniq)->Ok_0.len()
                    + 4) as u32,
            ) + new_fun_body(module, arity, pid, free_vars, index, uniq, old_index, old_uniq)->Ok_0,
        ),
    ensures
        parse_term(s, p) == Ok::<(TermV, nat), DecodeErrorV>(
            (
                TermV::NewFun { module, arity, pid, free_vars, index, uniq, old_index, old_uniq },
                (5 + new_fun_body(
                    module,
                    arity,
                    pid,
                    free_vars,
                    index,
                    uniq,
                    old_index,
                    old_uniq,
                )->Ok_0.len()) as nat,
            ),
        ),
    decreases free_vars, free_vars.len() + 2,
{
    let n = free_vars.len();
    let h = seq![arity] + uniq + u32_be(index) + u32_be(n as u32);
    let a = enc_atom(module)->Ok_0;
    let f = enc_fix(old_index) + enc_fix(old_uniq);
    let pe = enc_pid(pid)->Ok_0;
    let terms = enc_terms(free_vars, 0)->Ok_0;
    let body = h + a + f + pe + terms;
    assert(new_fun_body(module, arity, pid, free_vars, index, uniq, old_index, old_uniq)
        == Ok::<Seq<u8>, crate::wire::EncodeFault>(body));
    let top = seq![112u8] + u32_be((body.len() + 4) as u32);
    lemma_at_split(s, p, top, body);
    lemma_at_split(s, p, seq![112u8], u32_be((body.len() + 4) as u32));
    lemma_at_index(s, p, seq![112u8], 0);
    let q = p + 1;
    let b0 = p + 5;
    lemma_at_split(s, b0, h + a + f + pe, terms);
    lemma_at_split(s, b0, h + a + f, pe);
    lemma_at_split(s, b0, h + a, f);
    lemma_at_split(s, b0, h, a);
    lemma_at_split(s, b0, seq![arity] + uniq + u32_be(index), u32_be(n as u32));
    lemma_at_split(s, b0, seq![arity] + uniq, u32_be(index));
    lemma_at_split(s, b0, seq![arity], uniq);
    lemma_at_index(s, b0, seq![arity], 0);
    lemma_read_u32(s, b0 + 17, index);
    lemma_read_u32(s, b0 + 21, n as u32);
    let q1 = b0 + 25;
    lemma_atom(module, s, q1);
    let q2 = q1 + a.len();
    lemma_at_split(s, q2, enc_fix(old_index), enc_fix(old_uniq));
    lemma_fix(old_index, s, q2);
    lemma_fix(old_uniq, s, q2 + enc_fix(old_index).len());
    let q3 = q2 + f.len();
    lemma_pid(pid, s, q3);
    let q4 = q3 + pe.len();
    lemma_seq(free_vars, 0, s, q4, Seq::empty());
    assert(Seq::<TermV>::empty() + free_vars.subrange(0, n as int) =~= free_vars);
    assert(s.subrange(q + 5, q + 21) == uniq);
    lemma_new_fun_parse(
        s,
        q,
        arity,
        uniq,
        index,
        module,
        a.len(),
        old_index,
        enc_fix(old_index).len(),
        old_uniq,
        enc_fix(old_uniq).len(),
        pid,
        pe.len(),
        free_vars,
        terms.len(),
    );
    lemma_dispatch(s, p);
}

/// Decoding what the encoder wrote gives the term back: a canonical term whose encoding
/// succeeds is what its message decodes to, whatever bytes follow the message.
pub proof fn law_round_trip(t: TermV, rest: Seq<u8>, layers: nat)
    requires
        canonical(t),
        enc_message(t) is Ok,
    ensures
        parse_message(enc_message(t)->Ok_0 + rest, layers) == Ok::<TermV, DecodeErrorV>(t),
{
    let e = enc_term(t)->Ok_0;
    let s = enc_message(t)->Ok_0 + rest;
    assert(s =~= seq![131u8] + (e + rest));
    assert(s.subrange(1, 1 + e.len() as int) =~= e);
    lemma_decode_encoded(t, s, 1);
}

/// A compressed message whose zlib stream inflates to the encoding of a canonical term
/// decodes to that term, as the plain message does.
#[verifier::spinoff_prover]
pub proof fn law_compressed(t: TermV, size: u32, z: Seq<u8>, layers: nat)
    requires
        canonical(t),
        enc_term(t) is Ok,
        zlib_inflated(z) == Some(enc_term(t)->Ok_0),
        layers >= 1,
    ensures
        parse_message(seq![131u8, 80u8] + u32_be(size) + z, layers) == Ok::<TermV, DecodeErrorV>(
            t,
        ),
        parse_message(seq![131u8, 80u8] + u32_be(size) + z, layers) == parse_message(
            enc_message(t)->Ok_0,
            layers,
        ),
{
    let s = seq![131u8, 80u8] + u32_be(size) + z;
    let e = enc_term(t)->Ok_0;
    assert(s.subrange(6int, s.len() as int) =~= z);
    assert(e.subrange(0, e.len() as int) =~= e);
    lemma_decode_encoded(t, e, 0);
    assert(e[0] != 80);
    assert(parse_body(e, 0, (layers - 1) as nat) == Ok::<TermV, DecodeErrorV>(t));
    assert(s[0] == 131 && s[1] == 80);
    assert(parse_body(s, 1, layers) == parse_body(e, 0, (layers - 1) as nat));
    law_round_trip(t, Seq::empty(), layers);
    assert(enc_message(t)->Ok_0 + Seq::<u8>::empty() =~= enc_message(t)->Ok_0);
}

/// The empty list is the version byte and nil alone; a non-empty list of at most 65535
/// integers in `0..256` takes the compact string form.
pub proof fn law_list_forms(ts: Seq<TermV>)
    ensures
        enc_message(TermV::List(Seq::empty())) == Ok::<Seq<u8>, EncodeFault>(seq![131u8, 106u8]),
        0 < ts.len() <= 0xFFFF && all_bytes(ts) ==> enc_term(TermV::List(ts)) == Ok::<
            Seq<u8>,
            EncodeFault,
        >(seq![107u8] + u16_be(ts.len() as u16) + byte_values(ts)),
{
    assert(seq![131u8] + seq![106u8] =~= seq![131u8, 106u8]);
}

/// An atom takes the ASCII tag when all its bytes are below 0x80, else the UTF-8 tag, and
/// a name longer than 65535 bytes is refused.
pub proof fn law_atom_tag(name: Seq<char>)
    ensures
        encode_utf8(name).len() > 0xFFFF ==> enc_term(TermV::Atom(name)) == Err::<
            Seq<u8>,
            EncodeFault,
        >(EncodeFault::TooLongAtomName),
        encode_utf8(name).len() <= 0xFFFF ==> enc_term(TermV::Atom(name)) is Ok && enc_term(
            TermV::Atom(name),
        )->Ok_0[0] == (if is_ascii_bytes(encode_utf8(name)) {
            100u8
        } else {
            118u8
        }),
{
}

/// A fixed integer takes the one-byte form exactly when it lies in `0..=255`.
pub proof fn law_integer_tag(v: i32)
    ensures
        enc_term(TermV::FixInteger(v))->Ok_0[0] == (if 0 <= v <= 255 {
            97u8
        } else {
            98u8
        }),
{
}

/// An empty input ends too early, a first byte other than 131 is an unsupported
/// version, and an unknown tag is reported as such.
pub proof fn law_errors(v: u8, rest: Seq<u8>, layers: nat)
    ensures
        parse_message(Seq::empty(), layers) == Err::<TermV, DecodeErrorV>(
            DecodeErrorV::Io(IoErrorKind::UnexpectedEof),
        ),
        v != 131 ==> parse_message(seq![v] + rest, layers) == Err::<TermV, DecodeErrorV>(
            DecodeErrorV::UnsupportedVersion(v),
        ),
        parse_message(seq![131u8, 255u8] + rest, layers) == Err::<TermV, DecodeErrorV>(
            DecodeErrorV::UnknownTag(255),
        ),
{
    assert((seq![v] + rest)[0] == v);
    let s = seq![131u8, 255u8] + rest;
    assert(s[0] == 131 && s[1] == 255);
}

proof fn lemma_strip_zeros(m: Seq<u8>)
    ensures
        strip_zeros(strip_zeros(m)) == strip_zeros(m),
        strip_zeros(m).len() > 0 ==> strip_zeros(m).last() != 0,
    decreases m.len(),
{
    if m.len() > 0 && m.last() == 0 {
        lemma_strip_zeros(m.drop_last());
    }
}

/// The encoder writes a big integer in canonical form, so any big integer, canonical or
/// not, decodes to its canonical form: the magnitude without high zero bytes (zero as the
/// one byte 0), negative only when it is not zero.
pub proof fn law_big_integer_canonical(
    negative: bool,
    magnitude: Seq<u8>,
    rest: Seq<u8>,
    layers: nat,
)
    requires
        enc_big(negative, magnitude) is Ok,
    ensures
        parse_message(enc_message(TermV::BigInteger { negative, magnitude })->Ok_0 + rest, layers)
            == Ok::<TermV, DecodeErrorV>(
            TermV::BigInteger {
                negative: canonical_negative(negative, magnitude),
                magnitude: canonical_magnitude(magnitude),
            },
        ),
{
    let cm = canonical_magnitude(magnitude);
    let cn = canonical_negative(negative, magnitude);
    let c = TermV::BigInteger { negative: cn, magnitude: cm };
    lemma_strip_zeros(magnitude);
    if strip_zeros(magnitude).len() == 0 {
        assert(strip_zeros(seq![0u8].drop_last()) == Seq::<u8>::empty());
        assert(strip_zeros(seq![0u8]) == Seq::<u8>::empty());
    }
    assert(canonical_magnitude(cm) == cm);
    assert(canonical_negative(cn, cm) == cn);
    assert(canonical(c));
    assert(enc_term(c) == enc_term(TermV::BigInteger { negative, magnitude }));
    law_round_trip(c, rest, layers);
}

/// `r` is not the unsupported-version error, which only the version byte can give.
pub open spec fn not_version<T>(r: Result<T, DecodeErrorV>) -> bool {
    !(r matches Err(DecodeErrorV::UnsupportedVersion(_)))
}

proof fn lemma_nv_term(s: Seq<u8>, p: int)
    ensures
        not_version(parse_term(s, p)),
    decreases 3 * rem(s, p), 0int,
{
    if fits(s, p, 1) {
        let q = p + 1;
        lemma_nv_pid(s, q, false);
        lemma_nv_pid(s, q, true);
        lemma_nv_port(s, q, true, false);
        lemma_nv_port(s, q, false, false);
        lemma_nv_port(s, q, false, true);
        lemma_nv_old_reference(s, q);
        lemma_nv_reference(s, q, false);
        lemma_nv_reference(s, q, true);
        lemma_nv_export(s, q);
        lemma_nv_container(s, q, 104);
        lemma_nv_container(s, q, 105);
        lemma_nv_container(s, q, 108);
        lemma_nv_container(s, q, 116);
        lemma_nv_old_fun(s, q);
        lemma_nv_new_fun(s, q);
    }
}

proof fn lemma_nv_pid(s: Seq<u8>, q: int, new: bool)
    ensures
        not_version(parse_pid(s, q, new)),
    decreases 3 * rem(s, q) + 2, 0int,
{
    lemma_nv_term(s, q);
}

proof fn lemma_nv_port(s: Seq<u8>, q: int, legacy: bool, v4: bool)
    ensures
        not_version(parse_port(s, q, legacy, v4)),
    decreases 3 * rem(s, q) + 2, 0int,
{
    lemma_nv_term(s, q);
}

proof fn lemma_nv_old_reference(s: Seq<u8>, q: int)
    ensures
        not_version(parse_old_reference(s, q)),
    decreases 3 * rem(s, q) + 2, 0int,
{
    lemma_nv_term(s, q);
}

proof fn lemma_nv_reference(s: Seq<u8>, q: int, newer: bool)
    ensures
        not_version(parse_reference(s, q, newer)),
    decreases 3 * rem(s, q) + 2, 0int,
{
    lemma_nv_term(s, q + 2);
}

proof fn lemma_nv_export(s: Seq<u8>, q: int)
    ensures
        not_version(parse_export(s, q)),
    decreases 3 * rem(s, q) + 2, 0int,
{
    lemma_nv_term(s, q);
    if let Ok((_, c1)) = parse_term(s, q) {
        lemma_nv_term(s, q + c1);
        if let Ok((_, c2)) = parse_term(s, q + c1) {
            lemma_nv_term(s, q + c1 + c2);
        }
    }
}

proof fn lemma_nv_seq(s: Seq<u8>, p: int, n: nat, acc: Seq<TermV>)
    ensures
        not_version(parse_seq(s, p, n, acc)),
    decreases 3 * rem(s, p) + 1, n,
{
    if n > 0 {
        lemma_nv_term(s, p);
        if let Ok((v, c)) = parse_term(s, p) {
            lemma_nv_seq(s, p + c, (n - 1) as nat, acc.push(v));
        }
    }
}

proof fn lemma_nv_entries(s: Seq<u8>, p: int, n: nat, acc: Seq<(TermV, TermV)>)
    ensures
        not_version(parse_entries(s, p, n, acc)),
    decreases 3 * rem(s, p) + 1, n,
{
    if n > 0 {
        lemma_nv_term(s, p);
        if let Ok((k, c1)) = parse_term(s, p) {
            lemma_nv_term(s, p + c1);
            if let Ok((v, c2)) = parse_term(s, p + c1) {
                lemma_nv_entries(s, p + c1 + c2, (n - 1) as nat, map_insert(acc, k, v));
            }
        }
    }
}

proof fn lemma_nv_container(s: Seq<u8>, q: int, tag: u8)
    ensures
        not_version(parse_container(s, q, tag)),
    decreases 3 * rem(s, q) + 2, 0int,
{
    let w: int = if tag == 104 { 1 } else { 4 };
    if fits(s, q, w) {
        let n: nat = if tag == 104 { s[q] as nat } else { get_u32(s, q) as nat };
        lemma_nv_entries(s, q + w, n, Seq::empty());
        lemma_nv_seq(s, q + w, n, Seq::empty());
        if let Ok((_, c)) = parse_seq(s, q + w, n, Seq::empty()) {
            lemma_nv_term(s, q + w + c);
        }
    }
}

proof fn lemma_nv_old_fun(s: Seq<u8>, q: int)
    ensures
        not_version(parse_old_fun(s, q)),
    decreases 3 * rem(s, q) + 2, 0int,
{
    if fits(s, q, 4) {
        let n = get_u32(s, q) as nat;
        let p = q + 4;
        lemma_nv_term(s, p);
        if let Ok((_, c1)) = parse_term(s, p) {
            lemma_nv_term(s, p + c1);
            if let Ok((_, c2)) = parse_term(s, p + c1) {
                lemma_nv_term(s, p + c1 + c2);
                if let Ok((_, c3)) = parse_term(s, p + c1 + c2) {
                    lemma_nv_term(s, p + c1 + c2 + c3);
                    if let Ok((_, c4)) = parse_term(s, p + c1 + c2 + c3) {
                        lemma_nv_seq(s, p + c1 + c2 + c3 + c4, n, Seq::empty());
                    }
                }
            }
        }
    }
}

proof fn lemma_nv_new_fun(s: Seq<u8>, q: int)
    ensures
        not_version(parse_new_fun(s, q)),
    decreases 3 * rem(s, q) + 2, 0int,
{
    if fits(s, q, 29) {
        let n = get_u32(s, q + 25) as nat;
        let p = q + 29;
        lemma_nv_term(s, p);
        if let Ok((_, c1)) = parse_term(s, p) {
            lemma_nv_term(s, p + c1);
            if let Ok((_, c2)) = parse_term(s, p + c1) {
                lemma_nv_term(s, p + c1 + c2);
                if let Ok((_, c3)) = parse_term(s, p + c1 + c2) {
                    lemma_nv_term(s, p + c1 + c2 + c3);
                    if let Ok((_, c4)) = parse_term(s, p + c1 + c2 + c3) {
                        lemma_nv_seq(s, p + c1 + c2 + c3 + c4, n, Seq::empty());
                    }
                }
            }
        }
    }
}

proof fn lemma_nv_body(s: Seq<u8>, p: int, layers: nat)
    ensures
        not_version(parse_body(s, p, layers)),
    decreases layers,
{
    if fits(s, p, 1) && s[p] == 80 && fits(s, p + 1, 4) && layers > 0 {
        if let Some(d) = zlib_inflated(s.subrange(p + 5, s.len() as int)) {
            lemma_nv_body(d, 0, (layers - 1) as nat);
        }
    } else {
        lemma_nv_term(s, p);
    }
}

/// A message is refused as of an unsupported version exactly when its first byte is not
/// 131, and the error then names that byte.
pub proof fn law_version(s: Seq<u8>, layers: nat)
    ensures
        (parse_message(s, layers) matches Err(DecodeErrorV::UnsupportedVersion(v))) <==> (s.len()
            > 0 && s[0] != 131),
        s.len() > 0 && s[0] != 131 ==> parse_message(s, layers) == Err::<TermV, DecodeErrorV>(
            DecodeErrorV::UnsupportedVersion(s[0]),
        ),
{
    lemma_nv_body(s, 1, layers);
}

/// What a parse of `s` from `q` becomes when `s` is cut at `k`: the same value when its
/// bytes all come before `k`, else the end-of-input error.
pub open spec fn cut<T>(r: Result<(T, nat), DecodeErrorV>, q: int, k: int) -> Result<
    (T, nat),
    DecodeErrorV,
> {
    match r {
        Ok((v, c)) => if q + c <= k {
            Ok((v, c))
        } else {
            Err(DecodeErrorV::Io(IoErrorKind::UnexpectedEof))
        },
        Err(e) => Err(e),
    }
}

proof fn lemma_tr_atom(s: Seq<u8>, k: int, q: int, wide: bool, latin1: bool)
    requires
        0 <= q <= k <= s.len(),
        parse_atom(s, q, wide, latin1) is Ok,
    ensures
        parse_atom(s.subrange(0, k), q, wide, latin1) == cut(parse_atom(s, q, wide, latin1), q, k),
{
    let t = s.subrange(0, k);
    let w: int = if wide { 2 } else { 1 };
    if q + w <= k {
        let n: int = if wide { get_u16(s, q) as int } else { s[q] as int };
        assert((if wide { get_u16(t, q) as int } else { t[q] as int }) == n);
        if q + w + n <= k {
            assert(t.subrange(q + w, q + w + n) =~= s.subrange(q + w, q + w + n));
        }
    }
}

proof fn lemma_tr_big(s: Seq<u8>, k: int, q: int, wide: bool)
    requires
        0 <= q <= k <= s.len(),
        parse_big(s, q, wide) is Ok,
    ensures
        parse_big(s.subrange(0, k), q, wide) == cut(parse_big(s, q, wide), q, k),
{
    let t = s.subrange(0, k);
    let w: int = if wide { 4 } else { 1 };
    if q + w + 1 <= k {
        let n: int = if wide { get_u32(s, q) as int } else { s[q] as int };
        assert((if wide { get_u32(t, q) as int } else { t[q] as int }) == n);
        if q + w + 1 + n <= k {
            assert(t.subrange(q + w + 1, q + w + 1 + n) =~= s.subrange(q + w + 1, q + w + 1 + n));
        }
    }
}

proof fn lemma_tr_bit_binary(s: Seq<u8>, k: int, q: int)
    requires
        0 <= q <= k <= s.len(),
        parse_bit_binary(s, q) is Ok,
    ensures
        parse_bit_binary(s.subrange(0, k), q) == cut(parse_bit_binary(s, q), q, k),
{
    let t = s.subrange(0, k);
    if q + 5 <= k {
        assert(get_u32(t, q) == get_u32(s, q));
        let n = get_u32(s, q) as int;
        if q + 5 + n <= k {
            assert(t.subrange(q + 5, q + 5 + n) =~= s.subrange(q + 5, q + 5 + n));
        }
    }
}

proof fn lemma_tr_leaf(s: Seq<u8>, k: int, tag: u8, q: int)
    requires
        0 <= q <= k <= s.len(),
        parse_leaf(s, tag, q) matches Some(r) && r is Ok,
    ensures
        parse_leaf(s.subrange(0, k), tag, q) == Some(cut(parse_leaf(s, tag, q)->Some_0, q, k)),
{
    let t = s.subrange(0, k);
    if tag == 100 || tag == 118 {
        lemma_tr_atom(s, k, q, true, tag == 100);
    } else if tag == 115 || tag == 119 {
        lemma_tr_atom(s, k, q, false, tag == 115);
    } else if tag == 110 || tag == 111 {
        lemma_tr_big(s, k, q, tag == 111);
    } else if tag == 77 {
        lemma_tr_bit_binary(s, k, q);
    } else if tag == 98 {
        if q + 4 <= k {
            assert(get_u32(t, q) == get_u32(s, q));
        }
    } else if tag == 70 {
        if q + 8 <= k {
            assert(get_u64(t, q) == get_u64(s, q));
        }
    } else if tag == 107 {
        if q + 2 <= k {
            assert(get_u16(t, q) == get_u16(s, q));
            let n = get_u16(s, q) as int;
            if q + 2 + n <= k {
                assert(Seq::new(n as nat, |i: int| TermV::FixInteger(t[q + 2 + i] as i32)) =~= Seq::new(
                    n as nat,
                    |i: int| TermV::FixInteger(s[q + 2 + i] as i32),
                ));
            }
        }
    } else if tag == 109 {
        if q + 4 <= k {
            assert(get_u32(t, q) == get_u32(s, q));
            let n = get_u32(s, q) as int;
            if q + 4 + n <= k {
                assert(t.subrange(q + 4, q + 4 + n) =~= s.subrange(q + 4, q + 4 + n));
            }
        }
    }
}

proof fn lemma_tr_term(s: Seq<u8>, k: int, p: int)
    requires
        0 <= p <= k <= s.len(),
        parse_term(s, p) is Ok,
    ensures
        parse_term(s.subrange(0, k), p) == cut(parse_term(s, p), p, k),
    decreases 3 * rem(s, p), 0int,
{
    let t = s.subrange(0, k);
    if p < k {
        let tag = s[p];
        let q = p + 1;
        assert(t[p] == tag);
        lemma_dispatch(s, p);
        lemma_dispatch(t, p);
        if parse_leaf(s, tag, q) is Some {
            lemma_tr_leaf(s, k, tag, q);
        } else if tag == 103 || tag == 88 {
            lemma_tr_pid(s, k, q, tag == 88);
        } else if tag == 102 || tag == 89 || tag == 120 {
            lemma_tr_port(s, k, q, tag == 102, tag == 120);
        } else if tag == 101 {
            lemma_tr_old_reference(s, k, q);
        } else if tag == 114 || tag == 90 {
            lemma_tr_reference(s, k, q, tag == 90);
        } else if tag == 113 {
            lemma_tr_export(s, k, q);
        } else if tag == 104 || tag == 105 || tag == 108 || tag == 116 {
            lemma_tr_container(s, k, q, tag);
        } else if tag == 117 {
            lemma_tr_old_fun(s, k, q);
        } else if tag == 112 {
            lemma_tr_new_fun(s, k, q);
        }
    }
}

proof fn lemma_tr_pid(s: Seq<u8>, k: int, q: int, new: bool)
    requires
        0 <= q <= k <= s.len(),
        parse_pid(s, q, new) is Ok,
    ensures
        parse_pid(s.subrange(0, k), q, new) == cut(parse_pid(s, q, new), q, k),
    decreases 3 * rem(s, q) + 2, 0int,
{
    let t = s.subrange(0, k);
    lemma_tr_term(s, k, q);
    let c = parse_term(s, q)->Ok_0.1;
    let p = q + c;
    if p + 12 <= k {
        assert(get_u32(t, p) == get_u32(s, p));
        assert(get_u32(t, p + 4) == get_u32(s, p + 4));
        assert(get_u32(t, p + 8) == get_u32(s, p + 8));
    } else if p + 9 <= k {
        assert(get_u32(t, p) == get_u32(s, p));
        assert(get_u32(t, p + 4) == get_u32(s, p + 4));
    }
}

proof fn lemma_tr_port(s: Seq<u8>, k: int, q: int, legacy: bool, v4: bool)
    requires
        0 <= q <= k <= s.len(),
        parse_port(s, q, legacy, v4) is Ok,
    ensures
        parse_port(s.subrange(0, k), q, legacy, v4) == cut(parse_port(s, q, legacy, v4), q, k),
    decreases 3 * rem(s, q) + 2, 0int,
{
    let t = s.subrange(0, k);
    lemma_tr_term(s, k, q);
    let c = parse_term(s, q)->Ok_0.1;
    let p = q + c;
    let idw: int = if v4 { 8 } else { 4 };
    let cw: int = if legacy { 1 } else { 4 };
    if p + idw + cw <= k {
        if v4 {
            assert(get_u64(t, p) == get_u64(s, p));
        } else {
            assert(get_u32(t, p) == get_u32(s, p));
        }
        if !legacy {
            assert(get_u32(t, p + idw) == get_u32(s, p + idw));
        }
    }
}

proof fn lemma_tr_old_reference(s: Seq<u8>, k: int, q: int)
    requires
        0 <= q <= k <= s.len(),
        parse_old_reference(s, q) is Ok,
    ensures
        parse_old_reference(s.subrange(0, k), q) == cut(parse_old_reference(s, q), q, k),
    decreases 3 * rem(s, q) + 2, 0int,
{
    let t = s.subrange(0, k);
    lemma_tr_term(s, k, q);
    let c = parse_term(s, q)->Ok_0.1;
    let p = q + c;
    if p + 5 <= k {
        assert(get_u32(t, p) == get_u32(s, p));
    }
}

proof fn lemma_tr_reference(s: Seq<u8>, k: int, q: int, newer: bool)
    requires
        0 <= q <= k <= s.len(),
        parse_reference(s, q, newer) is Ok,
    ensures
        parse_reference(s.subrange(0, k), q, newer) == cut(parse_reference(s, q, newer), q, k),
    decreases 3 * rem(s, q) + 2, 0int,
{
    let t = s.subrange(0, k);
    if q + 2 <= k {
        assert(get_u16(t, q) == get_u16(s, q));
        lemma_tr_term(s, k, q + 2);
        let c = parse_term(s, q + 2)->Ok_0.1;
        let p = q + 2 + c;
        let cw: int = if newer { 4 } else { 1 };
        let n = get_u16(s, q) as nat;
        if p + cw <= k {
            if newer {
                assert(get_u32(t, p) == get_u32(s, p));
            }
            if p + cw + 4 * n <= k {
                assert(words(t, p + cw, n) =~= words(s, p + cw, n));
            }
        }
    }
}

proof fn lemma_tr_export(s: Seq<u8>, k: int, q: int)
    requires
        0 <= q <= k <= s.len(),
        parse_export(s, q) is Ok,
    ensures
        parse_export(s.subrange(0, k), q) == cut(parse_export(s, q), q, k),
    decreases 3 * rem(s, q) + 2, 0int,
{
    lemma_tr_term(s, k, q);
    let c1 = parse_term(s, q)->Ok_0.1;
    if q + c1 <= k {
        lemma_tr_term(s, k, q + c1);
        let c2 = parse_term(s, q + c1)->Ok_0.1;
        if q + c1 + c2 <= k {
            lemma_tr_term(s, k, q + c1 + c2);
        }
    }
}

proof fn lemma_tr_seq(s: Seq<u8>, k: int, p: int, n: nat, acc: Seq<TermV>)
    requires
        0 <= p <= k <= s.len(),
        parse_seq(s, p, n, acc) is Ok,
    ensures
        parse_seq(s.subrange(0, k), p, n, acc) == cut(parse_seq(s, p, n, acc), p, k),
    decreases 3 * rem(s, p) + 1, n,
{
    if n > 0 {
        lemma_tr_term(s, k, p);
        let (v, c) = parse_term(s, p)->Ok_0;
        if p + c <= k {
            lemma_tr_seq(s, k, p + c, (n - 1) as nat, acc.push(v));
        }
    }
}

proof fn lemma_tr_entries(s: Seq<u8>, k: int, p: int, n: nat, acc: Seq<(TermV, TermV)>)
    requires
        0 <= p <= k <= s.len(),
        parse_entries(s, p, n, acc) is Ok,
    ensures
        parse_entries(s.subrange(0, k), p, n, acc) == cut(parse_entries(s, p, n, acc), p, k),
    decreases 3 * rem(s, p) + 1, n,
{
    if n > 0 {
        lemma_tr_term(s, k, p);
        let (kv, c1) = parse_term(s, p)->Ok_0;
        if p + c1 <= k {
            lemma_tr_term(s, k, p + c1);
            let (v, c2) = parse_term(s, p + c1)->Ok_0;
            if p + c1 + c2 <= k {
                lemma_tr_entries(s, k, p + c1 + c2, (n - 1) as nat, map_insert(acc, kv, v));
            }
        }
    }
}

proof fn lemma_tr_container(s: Seq<u8>, k: int, q: int, tag: u8)
    requires
        0 <= q <= k <= s.len(),
        parse_container(s, q, tag) is Ok,
    ensures
        parse_container(s.subrange(0, k), q, tag) == cut(parse_container(s, q, tag), q, k),
    decreases 3 * rem(s, q) + 2, 0int,
{
    let t = s.subrange(0, k);
    let w: int = if tag == 104 { 1 } else { 4 };
    if q + w <= k {
        if tag != 104 {
            assert(get_u32(t, q) == get_u32(s, q));
        }
        let n: nat = if tag == 104 { s[q] as nat } else { get_u32(s, q) as nat };
        if tag == 116 {
            lemma_tr_entries(s, k, q + w, n, Seq::empty());
        } else {
            lemma_tr_seq(s, k, q + w, n, Seq::empty());
            let c = parse_seq(s, q + w, n, Seq::empty())->Ok_0.1;
            if tag == 108 && q + w + c <= k {
                lemma_tr_term(s, k, q + w + c);
            }
        }
    }
}

proof fn lemma_tr_old_fun(s: Seq<u8>, k: int, q: int)
    requires
        0 <= q <= k <= s.len(),
        parse_old_fun(s, q) is Ok,
    ensures
        parse_old_fun(s.subrange(0, k), q) == cut(parse_old_fun(s, q), q, k),
    decreases 3 * rem(s, q) + 2, 0int,
{
    let t = s.subrange(0, k);
    if q + 4 <= k {
        assert(get_u32(t, q) == get_u32(s, q));
        let n = get_u32(s, q) as nat;
        let p = q + 4;
        lemma_tr_term(s, k, p);
        let c1 = parse_term(s, p)->Ok_0.1;
        if p + c1 <= k {
            lemma_tr_term(s, k, p + c1);
            let c2 = parse_term(s, p + c1)->Ok_0.1;
            if p + c1 + c2 <= k {
                lemma_tr_term(s, k, p + c1 + c2);
                let c3 = parse_term(s, p + c1 + c2)->Ok_0.1;
                if p + c1 + c2 + c3 <= k {
                    lemma_tr_term(s, k, p + c1 + c2 + c3);
                    let c4 = parse_term(s, p + c1 + c2 + c3)->Ok_0.1;
                    if p + c1 + c2 + c3 + c4 <= k {
                        lemma_tr_seq(s, k, p + c1 + c2 + c3 + c4, n, Seq::empty());
                    }
                }
            }
        }
    }
}

proof fn lemma_tr_new_fun(s: Seq<u8>, k: int, q: int)
    requires
        0 <= q <= k <= s.len(),
        parse_new_fun(s, q) is Ok,
    ensures
        parse_new_fun(s.subrange(0, k), q) == cut(parse_new_fun(s, q), q, k),
    decreases 3 * rem(s, q) + 2, 0int,
{
    let t = s.subrange(0, k);
    if q + 29 <= k {
        assert(get_u32(t, q + 21) == get_u32(s, q + 21));
        assert(get_u32(t, q + 25) == get_u32(s, q + 25));
        assert(t.subrange(q + 5, q + 21) =~= s.subrange(q + 5, q + 21));
        let n = get_u32(s, q + 25) as nat;
        let p = q + 29;
        lemma_tr_term(s, k, p);
        let c1 = parse_term(s, p)->Ok_0.1;
        if p + c1 <= k {
            lemma_tr_term(s, k, p + c1);
            let c2 = parse_term(s, p + c1)->Ok_0.1;
            if p + c1 + c2 <= k {
                lemma_tr_term(s, k, p + c1 + c2);
                let c3 = parse_term(s, p + c1 + c2)->Ok_0.1;
                if p + c1 + c2 + c3 <= k {
                    lemma_tr_term(s, k, p + c1 + c2 + c3);
                    let c4 = parse_term(s, p + c1 + c2 + c3)->Ok_0.1;
                    if p + c1 + c2 + c3 + c4 <= k {
                        lemma_tr_seq(s, k, p + c1 + c2 + c3 + c4, n, Seq::empty());
                    }
                }
            }
        }
    }
}

/// A message cut short is refused as ending too early: every proper prefix of the message
/// of a canonical term decodes to the end-of-input error, never to a partial term.
pub proof fn law_truncated(t: TermV, k: int, layers: nat)
    requires
        canonical(t),
        enc_message(t) is Ok,
        0 <= k < enc_message(t)->Ok_0.len(),
    ensures
        parse_message(enc_message(t)->Ok_0.subrange(0, k), layers) == Err::<TermV, DecodeErrorV>(
            DecodeErrorV::Io(IoErrorKind::UnexpectedEof),
        ),
{
    let m = enc_message(t)->Ok_0;
    let e = enc_term(t)->Ok_0;
    let cut_m = m.subrange(0, k);
    assert(m =~= seq![131u8] + e);
    assert(m.subrange(1, 1 + e.len() as int) =~= e);
    lemma_decode_encoded(t, m, 1);
    assert(m[1] != 80);
    if k >= 1 {
        lemma_tr_term(m, k, 1);
        assert(cut_m[0] == 131);
        if k >= 2 {
            assert(cut_m[1] == m[1]);
        }
    }
}

} // verus!
