//! What decoding a byte sequence yields, stated as spec functions: the term
//! that starts at a position and how many bytes it takes, or the error.
use vstd::prelude::*;
use vstd::utf8::*;
use crate::error::{DecodeErrorV, IoErrorKind};
use crate::term::{PidV, TermV};
use crate::wire::{get_u16, get_u32, get_u64, strip_zeros};

verus! {

/// A decoded value and the number of bytes it took, or the error.
pub type Parsed<T> = Result<(T, nat), DecodeErrorV>;

pub open spec fn eof() -> DecodeErrorV {
    DecodeErrorV::Io(IoErrorKind::UnexpectedEof)
}

pub open spec fn invalid() -> DecodeErrorV {
    DecodeErrorV::Io(IoErrorKind::InvalidData)
}

/// Whether `n` bytes are left at `p`.
pub open spec fn fits(s: Seq<u8>, p: int, n: int) -> bool {
    0 <= p && p + n <= s.len()
}

/// The bytes left at `p`: all of them before the start, none past the end.
pub open spec fn rem(s: Seq<u8>, p: int) -> nat {
    if p < 0 {
        s.len()
    } else if p < s.len() {
        (s.len() - p) as nat
    } else {
        0
    }
}

/// Whether an IEEE-754 double with these bits is finite: its exponent is not all ones.
pub open spec fn is_finite_bits(bits: u64) -> bool {
    (bits >> 52u64) & 0x7ffu64 != 0x7ffu64
}

pub open spec fn atom_name() -> Seq<char> {
    seq!['A', 't', 'o', 'm']
}

pub open spec fn pid_name() -> Seq<char> {
    seq!['P', 'i', 'd']
}

pub open spec fn fix_integer_name() -> Seq<char> {
    seq!['F', 'i', 'x', 'I', 'n', 't', 'e', 'g', 'e', 'r']
}

/// The canonical form of a sign and a magnitude: zero is one zero byte, and not negative.
pub open spec fn normalize(negative: bool, m: Seq<u8>) -> TermV {
    let t = strip_zeros(m);
    if t.len() == 0 {
        TermV::BigInteger { negative: false, magnitude: seq![0u8] }
    } else {
        TermV::BigInteger { negative, magnitude: t }
    }
}

/// The last byte of a bit string as read: its significant bits moved low.
pub open spec fn unshift(bytes: Seq<u8>, tail_bits_size: u8) -> Seq<u8> {
    if bytes.len() == 0 {
        bytes
    } else {
        bytes.drop_last().push((bytes.last() >> (8 - tail_bits_size) as u8) as u8)
    }
}

/// An atom name, as UTF-8; the Latin-1 tags fail with `Other`, the UTF-8 tags with `InvalidData`.
pub open spec fn parse_atom(s: Seq<u8>, q: int, wide: bool, latin1: bool) -> Parsed<TermV> {
    let w: int = if wide { 2 } else { 1 };
    if !fits(s, q, w) {
        Err(eof())
    } else {
        let n: int = if wide { get_u16(s, q) as int } else { s[q] as int };
        if !fits(s, q + w, n) {
            Err(eof())
        } else {
            let b = s.subrange(q + w, q + w + n);
            if valid_utf8(b) {
                Ok((TermV::Atom(decode_utf8(b)), (w + n) as nat))
            } else {
                Err(DecodeErrorV::Io(if latin1 { IoErrorKind::Other } else { IoErrorKind::InvalidData }))
            }
        }
    }
}

pub open spec fn parse_big(s: Seq<u8>, q: int, wide: bool) -> Parsed<TermV> {
    let w: int = if wide { 4 } else { 1 };
    if !fits(s, q, w + 1) {
        Err(eof())
    } else {
        let n: int = if wide { get_u32(s, q) as int } else { s[q] as int };
        let sign = s[q + w];
        if !fits(s, q + w + 1, n) {
            Err(eof())
        } else if sign > 1 {
            Err(invalid())
        } else {
            Ok((normalize(sign == 1, s.subrange(q + w + 1, q + w + 1 + n)), (w + 1 + n) as nat))
        }
    }
}

pub open spec fn parse_bit_binary(s: Seq<u8>, q: int) -> Parsed<TermV> {
    if !fits(s, q, 5) {
        Err(eof())
    } else {
        let n = get_u32(s, q) as int;
        let tail = s[q + 4];
        if !fits(s, q + 5, n) {
            Err(eof())
        } else if tail < 1 || tail > 8 {
            Err(DecodeErrorV::OutOfRange(tail as i32, 1, 8))
        } else {
            Ok(
                (
                    TermV::BitBinary {
                        bytes: unshift(s.subrange(q + 5, q + 5 + n), tail),
                        tail_bits_size: tail,
                    },
                    (5 + n) as nat,
                ),
            )
        }
    }
}

/// The non-recursive forms, by tag; `None` for the other tags.
///
/// The legacy textual float (tag 99) is read in full and then refused as invalid data:
/// its decimal text would need floating-point parsing, which this library does not do.
pub open spec fn parse_leaf(s: Seq<u8>, tag: u8, q: int) -> Option<Parsed<TermV>> {
    if tag == 97 {
        Some(
            if !fits(s, q, 1) {
                Err(eof())
            } else {
                Ok((TermV::FixInteger(s[q] as i32), 1))
            },
        )
    } else if tag == 98 {
        Some(
            if !fits(s, q, 4) {
                Err(eof())
            } else {
                Ok((TermV::FixInteger(get_u32(s, q) as i32), 4))
            },
        )
    } else if tag == 70 {
        Some(
            if !fits(s, q, 8) {
                Err(eof())
            } else if !is_finite_bits(get_u64(s, q)) {
                Err(DecodeErrorV::NonFiniteFloat)
            } else {
                Ok((TermV::Float(get_u64(s, q)), 8))
            },
        )
    } else if tag == 99 {
        Some(
            if !fits(s, q, 31) {
                Err(eof())
            } else {
                Err(invalid())
            },
        )
    } else if tag == 100 {
        Some(parse_atom(s, q, true, true))
    } else if tag == 115 {
        Some(parse_atom(s, q, false, true))
    } else if tag == 118 {
        Some(parse_atom(s, q, true, false))
    } else if tag == 119 {
        Some(parse_atom(s, q, false, false))
    } else if tag == 106 {
        Some(Ok((TermV::List(Seq::empty()), 0)))
    } else if tag == 107 {
        Some(
            if !fits(s, q, 2) {
                Err(eof())
            } else if !fits(s, q + 2, get_u16(s, q) as int) {
                Err(eof())
            } else {
                Ok(
                    (
                        TermV::List(
                            Seq::new(get_u16(s, q) as nat, |i: int| TermV::FixInteger(s[q + 2 + i] as i32)),
                        ),
                        (2 + get_u16(s, q)) as nat,
                    ),
                )
            },
        )
    } else if tag == 109 {
        Some(
            if !fits(s, q, 4) {
                Err(eof())
            } else if !fits(s, q + 4, get_u32(s, q) as int) {
                Err(eof())
            } else {
                Ok(
                    (
                        TermV::Binary(s.subrange(q + 4, q + 4 + get_u32(s, q))),
                        (4 + get_u32(s, q)) as nat,
                    ),
                )
            },
        )
    } else if tag == 77 {
        Some(parse_bit_binary(s, q))
    } else if tag == 110 {
        Some(parse_big(s, q, false))
    } else if tag == 111 {
        Some(parse_big(s, q, true))
    } else {
        None
    }
}

/// The name of an atom, else the error that names the expected type.
pub open spec fn as_atom(v: TermV) -> Result<Seq<char>, DecodeErrorV> {
    match v {
        TermV::Atom(n) => Ok(n),
        _ => Err(DecodeErrorV::UnexpectedType(v, atom_name())),
    }
}

pub open spec fn as_pid(v: TermV) -> Result<PidV, DecodeErrorV> {
    match v {
        TermV::Pid(p) => Ok(p),
        _ => Err(DecodeErrorV::UnexpectedType(v, pid_name())),
    }
}

pub open spec fn as_fix(v: TermV) -> Result<i32, DecodeErrorV> {
    match v {
        TermV::FixInteger(i) => Ok(i),
        _ => Err(DecodeErrorV::UnexpectedType(v, fix_integer_name())),
    }
}

/// The fields of a pid after its node: id, serial and a one- or four-byte creation.
pub open spec fn parse_pid(s: Seq<u8>, q: int, new: bool) -> Parsed<TermV>
    decreases 3 * rem(s, q) + 2, 0int,
{
    match parse_term(s, q) {
        Err(e) => Err(e),
        Ok((v, c)) => match as_atom(v) {
            Err(e) => Err(e),
            Ok(node) => {
                let p = q + c;
                let w: int = if new { 12 } else { 9 };
                if !fits(s, p, w) {
                    Err(eof())
                } else {
                    let creation: u32 = if new { get_u32(s, p + 8) } else { s[p + 8] as u32 };
                    Ok(
                        (
                            TermV::Pid(
                                PidV { node, id: get_u32(s, p), serial: get_u32(s, p + 4), creation },
                            ),
                            (c + w) as nat,
                        ),
                    )
                }
            },
        },
    }
}

/// A port: the node, then the id on four (or, for the v4 form, eight) bytes and the creation
/// on one byte (legacy form) or four.
pub open spec fn parse_port(s: Seq<u8>, q: int, legacy: bool, v4: bool) -> Parsed<TermV>
    decreases 3 * rem(s, q) + 2, 0int,
{
    match parse_term(s, q) {
        Err(e) => Err(e),
        Ok((v, c)) => match as_atom(v) {
            Err(e) => Err(e),
            Ok(node) => {
                let p = q + c;
                let idw: int = if v4 { 8 } else { 4 };
                let cw: int = if legacy { 1 } else { 4 };
                if !fits(s, p, idw + cw) {
                    Err(eof())
                } else {
                    let id: u64 = if v4 { get_u64(s, p) } else { get_u32(s, p) as u64 };
                    let creation: u32 = if legacy { s[p + idw] as u32 } else { get_u32(s, p + idw) };
                    Ok((TermV::Port { node, id, creation }, (c + idw + cw) as nat))
                }
            },
        },
    }
}

/// `n` words of four bytes from `p`.
pub open spec fn words(s: Seq<u8>, p: int, n: nat) -> Seq<u32> {
    Seq::new(n, |i: int| get_u32(s, p + 4 * i))
}

/// A reference in its oldest form: node, one id word, one-byte creation.
pub open spec fn parse_old_reference(s: Seq<u8>, q: int) -> Parsed<TermV>
    decreases 3 * rem(s, q) + 2, 0int,
{
    match parse_term(s, q) {
        Err(e) => Err(e),
        Ok((v, c)) => match as_atom(v) {
            Err(e) => Err(e),
            Ok(node) => {
                let p = q + c;
                if !fits(s, p, 5) {
                    Err(eof())
                } else {
                    Ok(
                        (
                            TermV::Reference { node, id: seq![get_u32(s, p)], creation: s[p + 4] as u32 },
                            (c + 5) as nat,
                        ),
                    )
                }
            },
        },
    }
}

/// A reference with a word count: the count, the node, the creation (one byte, or four
/// for the newer form), then the words.
pub open spec fn parse_reference(s: Seq<u8>, q: int, newer: bool) -> Parsed<TermV>
    decreases 3 * rem(s, q) + 2, 0int,
{
    if !fits(s, q, 2) {
        Err(eof())
    } else {
        let n = get_u16(s, q) as nat;
        match parse_term(s, q + 2) {
            Err(e) => Err(e),
            Ok((v, c)) => match as_atom(v) {
                Err(e) => Err(e),
                Ok(node) => {
                    let p = q + 2 + c;
                    let cw: int = if newer { 4 } else { 1 };
                    if !fits(s, p, cw) {
                        Err(eof())
                    } else if !fits(s, p + cw, 4 * n as int) {
                        Err(eof())
                    } else {
                        let creation: u32 = if newer { get_u32(s, p) } else { s[p] as u32 };
                        Ok(
                            (
                                TermV::Reference { node, id: words(s, p + cw, n), creation },
                                (2 + c + cw + 4 * n) as nat,
                            ),
                        )
                    }
                },
            },
        }
    }
}

/// An export: module, function, and an arity that must be an integer in `0..=255`.
pub open spec fn parse_export(s: Seq<u8>, q: int) -> Parsed<TermV>
    decreases 3 * rem(s, q) + 2, 0int,
{
    match parse_term(s, q) {
        Err(e) => Err(e),
        Ok((v1, c1)) => match as_atom(v1) {
            Err(e) => Err(e),
            Ok(module) => match parse_term(s, q + c1) {
                Err(e) => Err(e),
                Ok((v2, c2)) => match as_atom(v2) {
                    Err(e) => Err(e),
                    Ok(function) => match parse_term(s, q + c1 + c2) {
                        Err(e) => Err(e),
                        Ok((v3, c3)) => match as_fix(v3) {
                            Err(e) => Err(e),
                            Ok(a) => if 0 <= a <= 255 {
                                Ok(
                                    (
                                        TermV::ExternalFun { module, function, arity: a as u8 },
                                        c1 + c2 + c3,
                                    ),
                                )
                            } else {
                                Err(DecodeErrorV::OutOfRange(a, 0, 255))
                            },
                        },
                    },
                },
            },
        },
    }
}

/// `n` terms from `p`, after those already in `acc`.
pub open spec fn parse_seq(s: Seq<u8>, p: int, n: nat, acc: Seq<TermV>) -> Parsed<Seq<TermV>>
    decreases 3 * rem(s, p) + 1, n,
{
    if n == 0 {
        Ok((acc, 0))
    } else {
        match parse_term(s, p) {
            Err(e) => Err(e),
            Ok((v, c)) => match parse_seq(s, p + c, (n - 1) as nat, acc.push(v)) {
                Err(e) => Err(e),
                Ok((vs, c2)) => Ok((vs, c + c2)),
            },
        }
    }
}

/// The first index from `i` of an entry with key `k`, or -1.
pub open spec fn find_key(es: Seq<(TermV, TermV)>, k: TermV, i: int) -> int
    decreases es.len() - i,
{
    if i < 0 || i >= es.len() {
        -1
    } else if es[i].0 == k {
        i
    } else {
        find_key(es, k, i + 1)
    }
}

/// The entries with the key `k` replaced, or `k` added at the end: a later entry
/// overwrites an earlier one with an equal key.
pub open spec fn map_insert(es: Seq<(TermV, TermV)>, k: TermV, v: TermV) -> Seq<(TermV, TermV)> {
    let j = find_key(es, k, 0);
    if j >= 0 {
        es.update(j, (k, v))
    } else {
        es.push((k, v))
    }
}

/// `n` key and value pairs from `p`, inserted one by one after those in `acc`.
pub open spec fn parse_entries(
    s: Seq<u8>,
    p: int,
    n: nat,
    acc: Seq<(TermV, TermV)>,
) -> Parsed<Seq<(TermV, TermV)>>
    decreases 3 * rem(s, p) + 1, n,
{
    if n == 0 {
        Ok((acc, 0))
    } else {
        match parse_term(s, p) {
            Err(e) => Err(e),
            Ok((k, c1)) => match parse_term(s, p + c1) {
                Err(e) => Err(e),
                Ok((v, c2)) => match parse_entries(
                    s,
                    p + c1 + c2,
                    (n - 1) as nat,
                    map_insert(acc, k, v),
                ) {
                    Err(e) => Err(e),
                    Ok((es, c3)) => Ok((es, c1 + c2 + c3)),
                },
            },
        }
    }
}

/// A tuple, list or map: the count on `w` bytes, then the elements; a list then ends with
/// its tail, and is proper exactly when the tail is nil.
pub open spec fn parse_container(s: Seq<u8>, q: int, tag: u8) -> Parsed<TermV>
    decreases 3 * rem(s, q) + 2, 0int,
{
    let w: int = if tag == 104 { 1 } else { 4 };
    if !fits(s, q, w) {
        Err(eof())
    } else {
        let n: nat = if tag == 104 { s[q] as nat } else { get_u32(s, q) as nat };
        if tag == 116 {
            match parse_entries(s, q + w, n, Seq::empty()) {
                Err(e) => Err(e),
                Ok((es, c)) => Ok((TermV::TermMap(es), (w + c) as nat)),
            }
        } else {
            match parse_seq(s, q + w, n, Seq::empty()) {
                Err(e) => Err(e),
                Ok((vs, c)) => if tag == 108 {
                    match parse_term(s, q + w + c) {
                        Err(e) => Err(e),
                        Ok((last, c2)) => if last == TermV::List(Seq::empty()) {
                            Ok((TermV::List(vs), (w + c + c2) as nat))
                        } else {
                            Ok((TermV::ImproperList(vs, Box::new(last)), (w + c + c2) as nat))
                        },
                    }
                } else {
                    Ok((TermV::Tuple(vs), (w + c) as nat))
                },
            }
        }
    }
}

/// An old fun: free variable count, pid, module, index, uniq, free variables.
pub open spec fn parse_old_fun(s: Seq<u8>, q: int) -> Parsed<TermV>
    decreases 3 * rem(s, q) + 2, 0int,
{
    if !fits(s, q, 4) {
        Err(eof())
    } else {
        let n = get_u32(s, q) as nat;
        match parse_term(s, q + 4) {
            Err(e) => Err(e),
            Ok((v1, c1)) => match as_pid(v1) {
                Err(e) => Err(e),
                Ok(pid) => match parse_term(s, q + 4 + c1) {
                    Err(e) => Err(e),
                    Ok((v2, c2)) => match as_atom(v2) {
                        Err(e) => Err(e),
                        Ok(module) => match parse_term(s, q + 4 + c1 + c2) {
                            Err(e) => Err(e),
                            Ok((v3, c3)) => match as_fix(v3) {
                                Err(e) => Err(e),
                                Ok(index) => match parse_term(s, q + 4 + c1 + c2 + c3) {
                                    Err(e) => Err(e),
                                    Ok((v4, c4)) => match as_fix(v4) {
                                        Err(e) => Err(e),
                                        Ok(uniq) => match parse_seq(
                                            s,
                                            q + 4 + c1 + c2 + c3 + c4,
                                            n,
                                            Seq::empty(),
                                        ) {
                                            Err(e) => Err(e),
                                            Ok((free_vars, c5)) => Ok(
                                                (
                                                    TermV::OldFun {
                                                        module,
                                                        pid,
                                                        free_vars,
                                                        index,
                                                        uniq,
                                                    },
                                                    (4 + c1 + c2 + c3 + c4 + c5) as nat,
                                                ),
                                            ),
                                        },
                                    },
                                },
                            },
                        },
                    },
                },
            },
        }
    }
}

/// A new fun: size (not checked), arity, 16 uniq bytes, index, free variable count, then
/// module, old index, old uniq, pid and the free variables.
pub open spec fn parse_new_fun(s: Seq<u8>, q: int) -> Parsed<TermV>
    decreases 3 * rem(s, q) + 2, 0int,
{
    if !fits(s, q, 29) {
        Err(eof())
    } else {
        let arity = s[q + 4];
        let uniq = s.subrange(q + 5, q + 21);
        let index = get_u32(s, q + 21);
        let n = get_u32(s, q + 25) as nat;
        let p = q + 29;
        match parse_term(s, p) {
            Err(e) => Err(e),
            Ok((v1, c1)) => match as_atom(v1) {
                Err(e) => Err(e),
                Ok(module) => match parse_term(s, p + c1) {
                    Err(e) => Err(e),
                    Ok((v2, c2)) => match as_fix(v2) {
                        Err(e) => Err(e),
                        Ok(old_index) => match parse_term(s, p + c1 + c2) {
                            Err(e) => Err(e),
                            Ok((v3, c3)) => match as_fix(v3) {
                                Err(e) => Err(e),
                                Ok(old_uniq) => match parse_term(s, p + c1 + c2 + c3) {
                                    Err(e) => Err(e),
                                    Ok((v4, c4)) => match as_pid(v4) {
                                        Err(e) => Err(e),
                                        Ok(pid) => match parse_seq(
                                            s,
                                            p + c1 + c2 + c3 + c4,
                                            n,
                                            Seq::empty(),
                                        ) {
                                            Err(e) => Err(e),
                                            Ok((free_vars, c5)) => Ok(
                                                (
                                                    TermV::NewFun {
                                                        module,
                                                        arity,
                                                        pid,
                                                        free_vars,
                                                        index,
                                                        uniq,
                                                        old_index,
                                                        old_uniq,
                                                    },
                                                    (29 + c1 + c2 + c3 + c4 + c5) as nat,
                                                ),
                                            ),
                                        },
                                    },
                                },
                            },
                        },
                    },
                },
            },
        }
    }
}

/// The term that starts at `p`, and how many bytes it takes.
pub open spec fn parse_term(s: Seq<u8>, p: int) -> Parsed<TermV>
    decreases 3 * rem(s, p), 0int,
{
    if !fits(s, p, 1) {
        Err(eof())
    } else {
        let tag = s[p];
        let q = p + 1;
        let r: Parsed<TermV> = if let Some(r) = parse_leaf(s, tag, q) {
            r
        } else if tag == 103 {
            parse_pid(s, q, false)
        } else if tag == 88 {
            parse_pid(s, q, true)
        } else if tag == 102 {
            parse_port(s, q, true, false)
        } else if tag == 89 {
            parse_port(s, q, false, false)
        } else if tag == 120 {
            parse_port(s, q, false, true)
        } else if tag == 101 {
            parse_old_reference(s, q)
        } else if tag == 114 {
            parse_reference(s, q, false)
        } else if tag == 90 {
            parse_reference(s, q, true)
        } else if tag == 113 {
            parse_export(s, q)
        } else if tag == 104 || tag == 105 || tag == 108 || tag == 116 {
            parse_container(s, q, tag)
        } else if tag == 117 {
            parse_old_fun(s, q)
        } else if tag == 112 {
            parse_new_fun(s, q)
        } else {
            Err(DecodeErrorV::UnknownTag(tag))
        };
        match r {
            Err(e) => Err(e),
            Ok((v, c)) => Ok((v, c + 1)),
        }
    }
}

} // verus!
