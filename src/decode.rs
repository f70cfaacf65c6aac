//! The decoder: reads one term from a byte sequence.
use vstd::prelude::*;
use vstd::slice::{slice_subrange, slice_to_vec};
use vstd::utf8::*;
use crate::error::{DecodeError, DecodeErrorV, IoError, IoErrorKind};
use crate::parse::{
    as_atom, as_fix, as_pid, atom_name, eof, fits, fix_integer_name, invalid, map_insert,
    parse_atom, parse_big, parse_bit_binary, parse_container, parse_entries, parse_export,
    parse_leaf, parse_new_fun, parse_old_fun, parse_old_reference, parse_pid, parse_port,
    parse_reference, parse_seq, parse_term, pid_name, rem, unshift, words,
    find_key, Parsed,
};
use crate::term::{
    entry_views, fun_view, views, Atom, BigInteger, BitBinary, Binary, ExternalFun, FixInteger,
    Float, ImproperList, InternalFun, List, Pid, Port, Reference, Term, TermMap, TermV, Tuple,
};
use crate::wire::{get_u16, get_u32, get_u64, strip_zeros};
use crate::encode::{lemma_entry_views, lemma_views};
use crate::equal::term_eq;
use crate::inflate::{zlib_inflate, zlib_inflated};

verus! {

/// `r` is what the spec `e` says of the bytes from `p`: the term and the position after it,
/// or the same error.
pub open spec fn decoded(r: Result<(Term, usize), DecodeError>, p: int, e: Parsed<TermV>) -> bool {
    match e {
        Ok((v, c)) => r matches Ok((t, q)) && t@ == v && q == p + c,
        Err(x) => r matches Err(y) && y@ == x,
    }
}

pub open spec fn in_bounds<T>(r: Result<(T, usize), DecodeError>, len: int) -> bool {
    r matches Ok((_, q)) ==> q <= len
}

/// Relies on std::str::from_utf8: it accepts exactly the valid UTF-8 sequences, and the
/// text it returns is the one they encode.
#[verifier::external_body]
fn utf8_to_string(b: &[u8]) -> (r: Option<String>)
    ensures
        r is Some <==> valid_utf8(b@),
        r matches Some(t) ==> t@ == decode_utf8(b@),
{
    match std::str::from_utf8(b) {
        Ok(t) => Some(t.to_string()),
        Err(_) => None,
    }
}

/// The text of a legacy atom name; bytes that are not UTF-8 fail with `Other`.
pub fn latin1_bytes_to_string(buf: &[u8]) -> (r: Result<String, IoError>)
    ensures
        valid_utf8(buf@) ==> (r matches Ok(t) && t@ == decode_utf8(buf@)),
        !valid_utf8(buf@) ==> (r matches Err(e) && e.kind == IoErrorKind::Other),
{
    match utf8_to_string(buf) {
        Some(t) => Ok(t),
        None => Err(IoError { kind: IoErrorKind::Other, message: "invalid UTF-8 in atom name".to_string() }),
    }
}

fn eof_error() -> (r: DecodeError)
    ensures
        r@ == eof(),
{
    DecodeError::Io(IoError { kind: IoErrorKind::UnexpectedEof, message: "unexpected end of input".to_string() })
}

fn invalid_error(message: &str) -> (r: DecodeError)
    ensures
        r@ == invalid(),
{
    DecodeError::Io(IoError { kind: IoErrorKind::InvalidData, message: message.to_string() })
}

fn read_u16(s: &[u8], p: usize) -> (r: u16)
    requires
        p + 2 <= s@.len(),
    ensures
        r == get_u16(s@, p as int),
{
    ((s[p] as u16) << 8u16) | (s[p + 1] as u16)
}

fn read_u32(s: &[u8], p: usize) -> (r: u32)
    requires
        p + 4 <= s@.len(),
    ensures
        r == get_u32(s@, p as int),
{
    ((s[p] as u32) << 24u32) | ((s[p + 1] as u32) << 16u32) | ((s[p + 2] as u32) << 8u32) | (s[p
        + 3] as u32)
}

fn read_u64(s: &[u8], p: usize) -> (r: u64)
    requires
        p + 8 <= s@.len(),
        s@.len() <= usize::MAX,
    ensures
        r == get_u64(s@, p as int),
{
    ((read_u32(s, p) as u64) << 32u64) | (read_u32(s, p + 4) as u64)
}

fn copy_bytes(s: &[u8], a: usize, b: usize) -> (r: Vec<u8>)
    requires
        a <= b <= s@.len(),
    ensures
        r@ == s@.subrange(a as int, b as int),
{
    slice_to_vec(slice_subrange(s, a, b))
}

fn decode_atom(s: &[u8], q: usize, wide: bool, latin1: bool) -> (r: Result<(Term, usize), DecodeError>)
    requires
        q <= s@.len(),
    ensures
        decoded(r, q as int, parse_atom(s@, q as int, wide, latin1)),
        in_bounds(r, s@.len() as int),
{
    let w: usize = if wide { 2 } else { 1 };
    if s.len() - q < w {
        return Err(eof_error());
    }
    let n: usize = if wide { read_u16(s, q) as usize } else { s[q] as usize };
    if s.len() - (q + w) < n {
        return Err(eof_error());
    }
    let b = slice_subrange(s, q + w, q + w + n);
    if latin1 {
        match latin1_bytes_to_string(b) {
            Ok(name) => Ok((Term::Atom(Atom { name }), q + w + n)),
            Err(e) => Err(DecodeError::Io(e)),
        }
    } else {
        match utf8_to_string(b) {
            Some(name) => Ok((Term::Atom(Atom { name }), q + w + n)),
            None => Err(invalid_error("invalid UTF-8 in atom name")),
        }
    }
}

fn decode_big(s: &[u8], q: usize, wide: bool) -> (r: Result<(Term, usize), DecodeError>)
    requires
        q <= s@.len(),
    ensures
        decoded(r, q as int, parse_big(s@, q as int, wide)),
        in_bounds(r, s@.len() as int),
{
    let w: usize = if wide { 4 } else { 1 };
    if s.len() - q < w + 1 {
        return Err(eof_error());
    }
    let n: usize = if wide { read_u32(s, q) as usize } else { s[q] as usize };
    let sign = s[q + w];
    if s.len() - (q + w + 1) < n {
        return Err(eof_error());
    }
    if sign > 1 {
        return Err(invalid_error("a sign byte must be 0 or 1"));
    }
    let mut magnitude = copy_bytes(s, q + w + 1, q + w + 1 + n);
    let ghost m0 = magnitude@;
    while magnitude.len() > 0 && magnitude[magnitude.len() - 1] == 0
        invariant
            strip_zeros(magnitude@) == strip_zeros(m0),
        decreases magnitude@.len(),
    {
        assert(magnitude@.drop_last() == magnitude@.subrange(0, magnitude@.len() - 1));
        magnitude.pop();
    }
    let mut negative = sign == 1;
    if magnitude.len() == 0 {
        magnitude.push(0);
        negative = false;
        assert(magnitude@ =~= seq![0u8]);
    }
    Ok((Term::BigInteger(BigInteger { negative, magnitude }), q + w + 1 + n))
}

fn decode_bit_binary(s: &[u8], q: usize) -> (r: Result<(Term, usize), DecodeError>)
    requires
        q <= s@.len(),
    ensures
        decoded(r, q as int, parse_bit_binary(s@, q as int)),
        in_bounds(r, s@.len() as int),
{
    if s.len() - q < 5 {
        return Err(eof_error());
    }
    let n = read_u32(s, q) as usize;
    let tail = s[q + 4];
    if s.len() - (q + 5) < n {
        return Err(eof_error());
    }
    if tail < 1 || tail > 8 {
        return Err(DecodeError::OutOfRange { value: tail as i32, min: 1, max: 8 });
    }
    let ghost raw = s@.subrange(q + 5, q + 5 + n);
    let mut bytes: Vec<u8> = Vec::new();
    let mut i: usize = 0;
    while i + 1 < n
        invariant
            q + 5 + n <= s@.len(),
            s@.len() <= usize::MAX,
            raw == s@.subrange(q + 5, q + 5 + n),
            i <= n,
            i + 1 < n || i == 0 || i + 1 == n,
            bytes@ == raw.subrange(0, i as int),
        decreases n - i,
    {
        bytes.push(s[q + 5 + i]);
        i = i + 1;
        assert(bytes@ =~= raw.subrange(0, i as int));
    }
    if n > 0 {
        let last: u8 = s[q + 5 + n - 1] >> (8 - tail);
        bytes.push(last);
        assert(bytes@ =~= unshift(raw, tail));
    } else {
        assert(bytes@ =~= unshift(raw, tail));
    }
    Ok((Term::BitBinary(BitBinary { bytes, tail_bits_size: tail }), q + 5 + n))
}

fn decode_string(s: &[u8], q: usize) -> (r: Result<(Term, usize), DecodeError>)
    requires
        q <= s@.len(),
    ensures
        decoded(r, q as int, parse_leaf(s@, 107, q as int)->Some_0),
        in_bounds(r, s@.len() as int),
{
    if s.len() - q < 2 {
        return Err(eof_error());
    }
    let n = read_u16(s, q) as usize;
    if s.len() - (q + 2) < n {
        return Err(eof_error());
    }
    let ghost target = Seq::new(n as nat, |i: int| TermV::FixInteger(s@[q + 2 + i] as i32));
    let mut elements: Vec<Term> = Vec::new();
    let mut i: usize = 0;
    while i < n
        invariant
            q + 2 + n <= s@.len(),
            s@.len() <= usize::MAX,
            i <= n,
            target == Seq::new(n as nat, |i: int| TermV::FixInteger(s@[q + 2 + i] as i32)),
            views(elements@) == target.subrange(0, i as int),
        decreases n - i,
    {
        let t = Term::FixInteger(FixInteger { value: s[q + 2 + i] as i32 });
        let ghost before = elements@;
        elements.push(t);
        assert(elements@.drop_last() =~= before);
        assert(views(elements@) == views(before).push(t@));
        assert(t@ == TermV::FixInteger(s@[q + 2 + i] as i32));
        i = i + 1;
        assert(views(elements@) =~= target.subrange(0, i as int));
    }
    assert(target.subrange(0, n as int) =~= target);
    Ok((Term::List(List { elements }), q + 2 + n))
}

/// The forms that hold no other term.
fn decode_leaf(s: &[u8], tag: u8, q: usize) -> (r: Result<(Term, usize), DecodeError>)
    requires
        q <= s@.len(),
        parse_leaf(s@, tag, q as int) is Some,
    ensures
        decoded(r, q as int, parse_leaf(s@, tag, q as int)->Some_0),
        in_bounds(r, s@.len() as int),
{
    if tag == 97 {
        if s.len() - q < 1 {
            return Err(eof_error());
        }
        Ok((Term::FixInteger(FixInteger { value: s[q] as i32 }), q + 1))
    } else if tag == 98 {
        if s.len() - q < 4 {
            return Err(eof_error());
        }
        Ok((Term::FixInteger(FixInteger { value: #[verifier::truncate] (read_u32(s, q) as i32) }), q + 4))
    } else if tag == 70 {
        if s.len() - q < 8 {
            return Err(eof_error());
        }
        let bits = read_u64(s, q);
        if (bits >> 52u64) & 0x7ffu64 == 0x7ffu64 {
            return Err(DecodeError::NonFiniteFloat);
        }
        Ok((Term::Float(Float { bits }), q + 8))
    } else if tag == 99 {
        if s.len() - q < 31 {
            return Err(eof_error());
        }
        Err(invalid_error("the textual float form is not supported"))
    } else if tag == 100 {
        decode_atom(s, q, true, true)
    } else if tag == 115 {
        decode_atom(s, q, false, true)
    } else if tag == 118 {
        decode_atom(s, q, true, false)
    } else if tag == 119 {
        decode_atom(s, q, false, false)
    } else if tag == 106 {
        let elements: Vec<Term> = Vec::new();
        assert(views(elements@) =~= Seq::empty());
        let r = Term::List(List { elements });
        Ok((r, q))
    } else if tag == 107 {
        decode_string(s, q)
    } else if tag == 109 {
        if s.len() - q < 4 {
            return Err(eof_error());
        }
        let n = read_u32(s, q) as usize;
        if s.len() - (q + 4) < n {
            return Err(eof_error());
        }
        Ok((Term::Binary(Binary { bytes: copy_bytes(s, q + 4, q + 4 + n) }), q + 4 + n))
    } else if tag == 77 {
        decode_bit_binary(s, q)
    } else if tag == 110 {
        decode_big(s, q, false)
    } else {
        decode_big(s, q, true)
    }
}

/// A term's view has the term's kind, and holds its fields.
pub proof fn lemma_view_kind(t: Term)
    ensures
        (t@ is Atom) <==> (t is Atom),
        (t@ is Pid) <==> (t is Pid),
        (t@ is FixInteger) <==> (t is FixInteger),
        (t@ is List) <==> (t is List),
        t matches Term::Atom(a) ==> t@ == TermV::Atom(a.name@),
        t matches Term::Pid(a) ==> t@ == TermV::Pid(a.view()),
        t matches Term::FixInteger(a) ==> t@ == TermV::FixInteger(a.value),
{
    if let Term::InternalFun(f) = t {
        assert(fun_view(f) is OldFun || fun_view(f) is NewFun);
    }
}

fn atom_type_name() -> (r: String)
    ensures
        r@ == atom_name(),
{
    let r = "Atom".to_string();
    proof {
        reveal_strlit("Atom");
        assert(r@ =~= atom_name());
    }
    r
}

fn pid_type_name() -> (r: String)
    ensures
        r@ == pid_name(),
{
    let r = "Pid".to_string();
    proof {
        reveal_strlit("Pid");
        assert(r@ =~= pid_name());
    }
    r
}

fn fix_integer_type_name() -> (r: String)
    ensures
        r@ == fix_integer_name(),
{
    let r = "FixInteger".to_string();
    proof {
        reveal_strlit("FixInteger");
        assert(r@ =~= fix_integer_name());
    }
    r
}

/// `r` is the field that `f` makes of the term at `p`, and the position after it.
pub open spec fn field<T, V>(
    r: Result<(T, usize), DecodeError>,
    p: int,
    e: Parsed<TermV>,
    f: spec_fn(TermV) -> Result<V, DecodeErrorV>,
    view: spec_fn(T) -> V,
) -> bool {
    match e {
        Err(x) => r matches Err(y) && y@ == x,
        Ok((v, c)) => match f(v) {
            Err(x) => r matches Err(y) && y@ == x,
            Ok(w) => r matches Ok((t, q)) && view(t) == w && q == p + c,
        },
    }
}

/// The term at `p`, which must be an atom.
pub fn term_into_atom(s: &[u8], p: usize) -> (r: Result<(Atom, usize), DecodeError>)
    requires
        p <= s@.len(),
    ensures
        field(r, p as int, parse_term(s@, p as int), |v| as_atom(v), |a: Atom| a.name@),
        in_bounds(r, s@.len() as int),
    decreases 3 * rem(s@, p as int) + 1, 0int,
{
    let r = decode_term(s, p);
    proof {
        if let Ok((t, _)) = &r {
            lemma_view_kind(*t);
        }
    }
    match r {
        Err(e) => Err(e),
        Ok((Term::Atom(a), q)) => Ok((a, q)),
        Ok((t, _)) => Err(DecodeError::UnexpectedType { value: t, expected: atom_type_name() }),
    }
}

/// The term at `p`, which must be a pid.
pub fn term_into_pid(s: &[u8], p: usize) -> (r: Result<(Pid, usize), DecodeError>)
    requires
        p <= s@.len(),
    ensures
        field(r, p as int, parse_term(s@, p as int), |v| as_pid(v), |a: Pid| a.view()),
        in_bounds(r, s@.len() as int),
    decreases 3 * rem(s@, p as int) + 1, 0int,
{
    let r = decode_term(s, p);
    proof {
        if let Ok((t, _)) = &r {
            lemma_view_kind(*t);
        }
    }
    match r {
        Err(e) => Err(e),
        Ok((Term::Pid(a), q)) => Ok((a, q)),
        Ok((t, _)) => Err(DecodeError::UnexpectedType { value: t, expected: pid_type_name() }),
    }
}

/// The term at `p`, which must be a fixed integer.
pub fn term_into_fix_integer(s: &[u8], p: usize) -> (r: Result<(FixInteger, usize), DecodeError>)
    requires
        p <= s@.len(),
    ensures
        field(r, p as int, parse_term(s@, p as int), |v| as_fix(v), |a: FixInteger| a.value),
        in_bounds(r, s@.len() as int),
    decreases 3 * rem(s@, p as int) + 1, 0int,
{
    let r = decode_term(s, p);
    proof {
        if let Ok((t, _)) = &r {
            lemma_view_kind(*t);
        }
    }
    match r {
        Err(e) => Err(e),
        Ok((Term::FixInteger(a), q)) => Ok((a, q)),
        Ok((t, _)) => Err(
            DecodeError::UnexpectedType { value: t, expected: fix_integer_type_name() },
        ),
    }
}

/// The term at `p`, which must be a fixed integer within `min..=max`.
pub fn term_into_ranged_integer(s: &[u8], p: usize, min: i32, max: i32) -> (r: Result<
    (i32, usize),
    DecodeError,
>)
    requires
        p <= s@.len(),
    ensures
        field(
            r,
            p as int,
            parse_term(s@, p as int),
            |v|
                match as_fix(v) {
                    Err(x) => Err(x),
                    Ok(i) => if min <= i <= max {
                        Ok(i)
                    } else {
                        Err(DecodeErrorV::OutOfRange(i, min, max))
                    },
                },
            |i: i32| i,
        ),
        in_bounds(r, s@.len() as int),
    decreases 3 * rem(s@, p as int) + 1, 1int,
{
    match term_into_fix_integer(s, p) {
        Err(e) => Err(e),
        Ok((i, q)) => if min <= i.value && i.value <= max {
            Ok((i.value, q))
        } else {
            Err(DecodeError::OutOfRange { value: i.value, min, max })
        },
    }
}

fn decode_pid(s: &[u8], q: usize, new: bool) -> (r: Result<(Term, usize), DecodeError>)
    requires
        q <= s@.len(),
    ensures
        decoded(r, q as int, parse_pid(s@, q as int, new)),
        in_bounds(r, s@.len() as int),
    decreases 3 * rem(s@, q as int) + 2, 0int,
{
    let (node, p) = match term_into_atom(s, q) {
        Ok(x) => x,
        Err(e) => return Err(e),
    };
    let w: usize = if new { 12 } else { 9 };
    if s.len() - p < w {
        return Err(eof_error());
    }
    let id = read_u32(s, p);
    let serial = read_u32(s, p + 4);
    let creation = if new { read_u32(s, p + 8) } else { s[p + 8] as u32 };
    Ok((Term::Pid(Pid { node, id, serial, creation }), p + w))
}

fn decode_port(s: &[u8], q: usize, legacy: bool, v4: bool) -> (r: Result<(Term, usize), DecodeError>)
    requires
        q <= s@.len(),
    ensures
        decoded(r, q as int, parse_port(s@, q as int, legacy, v4)),
        in_bounds(r, s@.len() as int),
    decreases 3 * rem(s@, q as int) + 2, 0int,
{
    let (node, p) = match term_into_atom(s, q) {
        Ok(x) => x,
        Err(e) => return Err(e),
    };
    let idw: usize = if v4 { 8 } else { 4 };
    let cw: usize = if legacy { 1 } else { 4 };
    if s.len() - p < idw + cw {
        return Err(eof_error());
    }
    let id: u64 = if v4 { read_u64(s, p) } else { read_u32(s, p) as u64 };
    let creation: u32 = if legacy { s[p + idw] as u32 } else { read_u32(s, p + idw) };
    Ok((Term::Port(Port { node, id, creation }), p + idw + cw))
}

fn decode_old_reference(s: &[u8], q: usize) -> (r: Result<(Term, usize), DecodeError>)
    requires
        q <= s@.len(),
    ensures
        decoded(r, q as int, parse_old_reference(s@, q as int)),
        in_bounds(r, s@.len() as int),
    decreases 3 * rem(s@, q as int) + 2, 0int,
{
    let (node, p) = match term_into_atom(s, q) {
        Ok(x) => x,
        Err(e) => return Err(e),
    };
    if s.len() - p < 5 {
        return Err(eof_error());
    }
    let mut id: Vec<u32> = Vec::new();
    id.push(read_u32(s, p));
    assert(id@ =~= seq![get_u32(s@, p as int)]);
    Ok((Term::Reference(Reference { node, id, creation: s[p + 4] as u32 }), p + 5))
}

fn decode_reference(s: &[u8], q: usize, newer: bool) -> (r: Result<(Term, usize), DecodeError>)
    requires
        q <= s@.len(),
    ensures
        decoded(r, q as int, parse_reference(s@, q as int, newer)),
        in_bounds(r, s@.len() as int),
    decreases 3 * rem(s@, q as int) + 2, 0int,
{
    if s.len() - q < 2 {
        return Err(eof_error());
    }
    let n = read_u16(s, q) as usize;
    let (node, p) = match term_into_atom(s, q + 2) {
        Ok(x) => x,
        Err(e) => return Err(e),
    };
    let cw: usize = if newer { 4 } else { 1 };
    if s.len() - p < cw {
        return Err(eof_error());
    }
    if (s.len() - p - cw) / 4 < n {
        return Err(eof_error());
    }
    let creation: u32 = if newer { read_u32(s, p) } else { s[p] as u32 };
    let start = p + cw;
    let mut id: Vec<u32> = Vec::new();
    let mut i: usize = 0;
    while i < n
        invariant
            start + 4 * n <= s@.len(),
            s@.len() <= usize::MAX,
            i <= n,
            id@ == words(s@, start as int, n as nat).subrange(0, i as int),
        decreases n - i,
    {
        id.push(read_u32(s, start + 4 * i));
        i = i + 1;
        assert(id@ =~= words(s@, start as int, n as nat).subrange(0, i as int));
    }
    assert(id@ =~= words(s@, start as int, n as nat));
    Ok((Term::Reference(Reference { node, id, creation }), start + 4 * n))
}

fn decode_export(s: &[u8], q: usize) -> (r: Result<(Term, usize), DecodeError>)
    requires
        q <= s@.len(),
    ensures
        decoded(r, q as int, parse_export(s@, q as int)),
        in_bounds(r, s@.len() as int),
    decreases 3 * rem(s@, q as int) + 2, 0int,
{
    let (module, p1) = match term_into_atom(s, q) {
        Ok(x) => x,
        Err(e) => return Err(e),
    };
    let (function, p2) = match term_into_atom(s, p1) {
        Ok(x) => x,
        Err(e) => return Err(e),
    };
    let (arity, p3) = match term_into_ranged_integer(s, p2, 0, 255) {
        Ok(x) => x,
        Err(e) => return Err(e),
    };
    Ok((Term::ExternalFun(ExternalFun { module, function, arity: arity as u8 }), p3))
}

pub open spec fn shifted<T>(r: Parsed<T>, k: int) -> Parsed<T> {
    match r {
        Ok((v, c)) => Ok((v, (c + k) as nat)),
        Err(e) => Err(e),
    }
}

/// `n` terms from `p`.
pub fn decode_seq(s: &[u8], p: usize, n: usize) -> (r: Result<(Vec<Term>, usize), DecodeError>)
    requires
        p <= s@.len(),
    ensures
        match parse_seq(s@, p as int, n as nat, Seq::empty()) {
            Ok((vs, c)) => r matches Ok((v, q)) && views(v@) == vs && q == p + c,
            Err(x) => r matches Err(y) && y@ == x,
        },
        in_bounds(r, s@.len() as int),
    decreases 3 * rem(s@, p as int) + 1, n,
{
    let mut elements: Vec<Term> = Vec::new();
    let mut pos = p;
    let mut i: usize = 0;
    assert(views(elements@) =~= Seq::<TermV>::empty());
    while i < n
        invariant
            p <= pos <= s@.len(),
            i <= n,
            shifted(parse_seq(s@, pos as int, (n - i) as nat, views(elements@)), pos - p)
                == parse_seq(s@, p as int, n as nat, Seq::empty()),
        decreases n - i,
    {
        match decode_term(s, pos) {
            Err(e) => {
                return Err(e);
            },
            Ok((t, q)) => {
                let ghost before = elements@;
                elements.push(t);
                assert(elements@.drop_last() =~= before);
                assert(views(elements@) == views(before).push(t@));
                pos = q;
            },
        }
        i = i + 1;
    }
    Ok((elements, pos))
}

/// Sets the value of `k` in `es`, or adds the entry.
fn insert_entry(es: &mut Vec<(Term, Term)>, k: Term, v: Term)
    ensures
        entry_views(final(es)@) == map_insert(entry_views(old(es)@), k@, v@),
{
    let ghost vs = entry_views(es@);
    proof {
        lemma_entry_views(es@);
    }
    let mut j: usize = 0;
    while j < es.len()
        invariant
            vs == entry_views(old(es)@),
            es@ == old(es)@,
            vs.len() == es@.len(),
            forall|i: int| 0 <= i < es@.len() ==> #[trigger] vs[i] == (es@[i].0@, es@[i].1@),
            j <= es@.len(),
            find_key(vs, k@, 0) == find_key(vs, k@, j as int),
        decreases es@.len() - j,
    {
        if term_eq(&es[j].0, &k) {
            let ghost old_es = es@;
            es.set(j, (k, v));
            proof {
                lemma_entry_views(es@);
                assert(entry_views(es@) =~= vs.update(j as int, (k@, v@)));
            }
            return;
        }
        j = j + 1;
    }
    let ghost before = es@;
    es.push((k, v));
    assert(es@.drop_last() =~= before);
}

/// `n` entries from `p`, a later one overwriting an earlier one with an equal key.
pub fn decode_entries(s: &[u8], p: usize, n: usize) -> (r: Result<(Vec<(Term, Term)>, usize), DecodeError>)
    requires
        p <= s@.len(),
    ensures
        match parse_entries(s@, p as int, n as nat, Seq::empty()) {
            Ok((es, c)) => r matches Ok((v, q)) && entry_views(v@) == es && q == p + c,
            Err(x) => r matches Err(y) && y@ == x,
        },
        in_bounds(r, s@.len() as int),
    decreases 3 * rem(s@, p as int) + 1, n,
{
    let mut entries: Vec<(Term, Term)> = Vec::new();
    let mut pos = p;
    let mut i: usize = 0;
    assert(entry_views(entries@) =~= Seq::<(TermV, TermV)>::empty());
    while i < n
        invariant
            p <= pos <= s@.len(),
            i <= n,
            shifted(parse_entries(s@, pos as int, (n - i) as nat, entry_views(entries@)), pos - p)
                == parse_entries(s@, p as int, n as nat, Seq::empty()),
        decreases n - i,
    {
        let (k, q1) = match decode_term(s, pos) {
            Err(e) => {
                return Err(e);
            },
            Ok(x) => x,
        };
        let (v, q2) = match decode_term(s, q1) {
            Err(e) => {
                return Err(e);
            },
            Ok(x) => x,
        };
        insert_entry(&mut entries, k, v);
        pos = q2;
        i = i + 1;
    }
    Ok((entries, pos))
}

fn decode_container(s: &[u8], q: usize, tag: u8) -> (r: Result<(Term, usize), DecodeError>)
    requires
        q <= s@.len(),
    ensures
        decoded(r, q as int, parse_container(s@, q as int, tag)),
        in_bounds(r, s@.len() as int),
    decreases 3 * rem(s@, q as int) + 2, 0int,
{
    let w: usize = if tag == 104 { 1 } else { 4 };
    if s.len() - q < w {
        return Err(eof_error());
    }
    let n: usize = if tag == 104 { s[q] as usize } else { read_u32(s, q) as usize };
    if tag == 116 {
        match decode_entries(s, q + w, n) {
            Err(e) => Err(e),
            Ok((entries, p)) => Ok((Term::TermMap(TermMap { entries }), p)),
        }
    } else {
        match decode_seq(s, q + w, n) {
            Err(e) => Err(e),
            Ok((elements, p)) => if tag == 108 {
                match decode_term(s, p) {
                    Err(e) => Err(e),
                    Ok((last, p2)) => {
                        let nil = match &last {
                            Term::List(l) => l.elements.len() == 0,
                            _ => false,
                        };
                        proof {
                            lemma_views(elements@);
                            if let Term::List(l) = &last {
                                lemma_views(l.elements@);
                                if l.elements@.len() == 0 {
                                    assert(views(l.elements@) =~= Seq::<TermV>::empty());
                                }
                            }
                            if let Term::InternalFun(f) = &last {
                                assert(fun_view(*f) is OldFun || fun_view(*f) is NewFun);
                            }
                        }
                        if nil {
                            Ok((Term::List(List { elements }), p2))
                        } else {
                            Ok((Term::ImproperList(ImproperList { elements, last: Box::new(last) }), p2))
                        }
                    },
                }
            } else {
                Ok((Term::Tuple(Tuple { elements }), p))
            },
        }
    }
}

#[verifier::rlimit(80)]
fn decode_old_fun(s: &[u8], q: usize) -> (r: Result<(Term, usize), DecodeError>)
    requires
        q <= s@.len(),
    ensures
        decoded(r, q as int, parse_old_fun(s@, q as int)),
        in_bounds(r, s@.len() as int),
    decreases 3 * rem(s@, q as int) + 2, 0int,
{
    if s.len() - q < 4 {
        return Err(eof_error());
    }
    let n = read_u32(s, q) as usize;
    let (pid, p1) = match term_into_pid(s, q + 4) {
        Ok(x) => x,
        Err(e) => return Err(e),
    };
    let (module, p2) = match term_into_atom(s, p1) {
        Ok(x) => x,
        Err(e) => return Err(e),
    };
    let (index, p3) = match term_into_fix_integer(s, p2) {
        Ok(x) => x,
        Err(e) => return Err(e),
    };
    let (uniq, p4) = match term_into_fix_integer(s, p3) {
        Ok(x) => x,
        Err(e) => return Err(e),
    };
    let (free_vars, p5) = match decode_seq(s, p4, n) {
        Ok(x) => x,
        Err(e) => return Err(e),
    };
    let f = InternalFun::Old { module, pid, free_vars, index: index.value, uniq: uniq.value };
    let t = Term::InternalFun(f);
    assert(t@ == fun_view(f));
    Ok((t, p5))
}

#[verifier::rlimit(80)]
fn decode_new_fun(s: &[u8], q: usize) -> (r: Result<(Term, usize), DecodeError>)
    requires
        q <= s@.len(),
    ensures
        decoded(r, q as int, parse_new_fun(s@, q as int)),
        in_bounds(r, s@.len() as int),
    decreases 3 * rem(s@, q as int) + 2, 0int,
{
    if s.len() - q < 29 {
        return Err(eof_error());
    }
    let arity = s[q + 4];
    let mut uniq = [0u8; 16];
    let mut i: usize = 0;
    while i < 16
        invariant
            q + 29 <= s@.len(),
            s@.len() <= usize::MAX,
            i <= 16,
            forall|j: int| 0 <= j < i ==> uniq@[j] == s@[q + 5 + j],
        decreases 16 - i,
    {
        uniq[i] = s[q + 5 + i];
        i = i + 1;
    }
    assert(uniq@ =~= s@.subrange(q + 5, q + 21));
    let index = read_u32(s, q + 21);
    let n = read_u32(s, q + 25) as usize;
    let (module, p1) = match term_into_atom(s, q + 29) {
        Ok(x) => x,
        Err(e) => return Err(e),
    };
    let (old_index, p2) = match term_into_fix_integer(s, p1) {
        Ok(x) => x,
        Err(e) => return Err(e),
    };
    let (old_uniq, p3) = match term_into_fix_integer(s, p2) {
        Ok(x) => x,
        Err(e) => return Err(e),
    };
    let (pid, p4) = match term_into_pid(s, p3) {
        Ok(x) => x,
        Err(e) => return Err(e),
    };
    let (free_vars, p5) = match decode_seq(s, p4, n) {
        Ok(x) => x,
        Err(e) => return Err(e),
    };
    let f = InternalFun::New {
        module,
        arity,
        pid,
        free_vars,
        index,
        uniq,
        old_index: old_index.value,
        old_uniq: old_uniq.value,
    };
    let t = Term::InternalFun(f);
    assert(t@ == fun_view(f));
    Ok((t, p5))
}

fn is_leaf_tag(tag: u8) -> (r: bool)
    ensures
        forall|s: Seq<u8>, q: int| r == (#[trigger] parse_leaf(s, tag, q) is Some),
{
    tag == 97 || tag == 98 || tag == 70 || tag == 99 || tag == 100 || tag == 115 || tag == 118
        || tag == 119 || tag == 106 || tag == 107 || tag == 109 || tag == 77 || tag == 110 || tag
        == 111
}

/// The term that starts at `p`, and the position after it.
pub fn decode_term(s: &[u8], p: usize) -> (r: Result<(Term, usize), DecodeError>)
    requires
        p <= s@.len(),
    ensures
        decoded(r, p as int, parse_term(s@, p as int)),
        in_bounds(r, s@.len() as int),
    decreases 3 * rem(s@, p as int), 0int,
{
    if s.len() - p < 1 {
        return Err(eof_error());
    }
    let tag = s[p];
    let q = p + 1;
    if is_leaf_tag(tag) {
        decode_leaf(s, tag, q)
    } else if tag == 103 {
        decode_pid(s, q, false)
    } else if tag == 88 {
        decode_pid(s, q, true)
    } else if tag == 102 {
        decode_port(s, q, true, false)
    } else if tag == 89 {
        decode_port(s, q, false, false)
    } else if tag == 120 {
        decode_port(s, q, false, true)
    } else if tag == 101 {
        decode_old_reference(s, q)
    } else if tag == 114 {
        decode_reference(s, q, false)
    } else if tag == 90 {
        decode_reference(s, q, true)
    } else if tag == 113 {
        decode_export(s, q)
    } else if tag == 104 || tag == 105 || tag == 108 || tag == 116 {
        decode_container(s, q, tag)
    } else if tag == 117 {
        decode_old_fun(s, q)
    } else if tag == 112 {
        decode_new_fun(s, q)
    } else {
        Err(DecodeError::UnknownTag { tag })
    }
}

/// The term of a message body from `p`: a compressed body is inflated and decoded in
/// turn, at most `layers` times.
pub open spec fn parse_body(s: Seq<u8>, p: int, layers: nat) -> Result<TermV, DecodeErrorV>
    decreases layers,
{
    if !fits(s, p, 1) {
        Err(eof())
    } else if s[p] == 80 {
        if !fits(s, p + 1, 4) {
            Err(eof())
        } else if layers == 0 {
            Err(invalid())
        } else {
            match zlib_inflated(s.subrange(p + 5, s.len() as int)) {
                None => Err(invalid()),
                Some(d) => parse_body(d, 0, (layers - 1) as nat),
            }
        }
    } else {
        match parse_term(s, p) {
            Ok((v, _)) => Ok(v),
            Err(e) => Err(e),
        }
    }
}

/// The term of a whole message: the version byte, then the body.
pub open spec fn parse_message(s: Seq<u8>, layers: nat) -> Result<TermV, DecodeErrorV> {
    if s.len() == 0 {
        Err(eof())
    } else if s[0] != 131 {
        Err(DecodeErrorV::UnsupportedVersion(s[0]))
    } else {
        parse_body(s, 1, layers)
    }
}

pub open spec fn outcome(r: Result<Term, DecodeError>, e: Result<TermV, DecodeErrorV>) -> bool {
    match e {
        Ok(v) => r matches Ok(t) && t@ == v,
        Err(x) => r matches Err(y) && y@ == x,
    }
}

fn decode_body(s: &[u8], p: usize, layers: u32) -> (r: Result<Term, DecodeError>)
    requires
        p <= s@.len(),
    ensures
        outcome(r, parse_body(s@, p as int, layers as nat)),
    decreases layers,
{
    if s.len() - p < 1 {
        return Err(eof_error());
    }
    if s[p] == 80 {
        if s.len() - (p + 1) < 4 {
            return Err(eof_error());
        }
        if layers == 0 {
            return Err(invalid_error("too many compression layers"));
        }
        match zlib_inflate(slice_subrange(s, p + 5, s.len())) {
            Err(message) => Err(DecodeError::Io(IoError { kind: IoErrorKind::InvalidData, message })),
            Ok(d) => decode_body(d.as_slice(), 0, layers - 1),
        }
    } else {
        match decode_term(s, p) {
            Ok((t, _)) => Ok(t),
            Err(e) => Err(e),
        }
    }
}

/// Reads one message: the version byte, then one term, possibly compressed.
pub struct Decoder {
    reader: Vec<u8>,
    max_layers: u32,
}

impl Decoder {
    /// A decoder of the message at the start of `reader`; compressed bodies may nest
    /// as deep as `u32::MAX` layers.
    pub fn new(reader: Vec<u8>) -> (r: Decoder)
        ensures
            r.input() == reader@,
            r.max_layers() == u32::MAX,
    {
        Decoder { reader, max_layers: u32::MAX }
    }

    /// The same decoder, with at most `layers` nested compressed bodies.
    pub fn with_max_layers(self, layers: u32) -> (r: Decoder)
        ensures
            r.input() == self.input(),
            r.max_layers() == layers,
    {
        Decoder { reader: self.reader, max_layers: layers }
    }

    pub closed spec fn input(&self) -> Seq<u8> {
        self.reader@
    }

    pub closed spec fn max_layers(&self) -> nat {
        self.max_layers as nat
    }

    /// Decodes the message; bytes after its term are ignored.
    pub fn decode(self) -> (r: Result<Term, DecodeError>)
        ensures
            outcome(r, parse_message(self.input(), self.max_layers())),
    {
        let s = self.reader.as_slice();
        if s.len() < 1 {
            return Err(eof_error());
        }
        if s[0] != 131 {
            return Err(DecodeError::UnsupportedVersion { version: s[0] });
        }
        decode_body(s, 1, self.max_layers)
    }
}

impl Term {
    /// Decodes the message at the start of `bytes`.
    ///
    /// The legacy textual float form (tag 99: 31 bytes of decimal text) is refused with an
    /// `InvalidData` I/O error: turning that text into a float is floating-point parsing,
    /// which this library does not do. Encoders since long write the binary form (tag 70),
    /// which is decoded exactly.
    pub fn decode(bytes: &[u8]) -> (r: Result<Term, DecodeError>)
        ensures
            outcome(r, parse_message(bytes@, u32::MAX as nat)),
    {
        Decoder::new(slice_to_vec(bytes)).decode()
    }
}

} // verus!
