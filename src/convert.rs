//! Conversions into terms and their parts.
use vstd::prelude::*;
use crate::term::{
    Atom, BigInteger, BitBinary, Binary, ExternalFun, FixInteger, Float, ImproperList,
    InternalFun, List, Pid, Port, Reference, Term, TermMap, Tuple,
};

verus! {

impl From<Atom> for Term {
    fn from(v: Atom) -> Self {
        Term::Atom(v)
    }
}

impl vstd::std_specs::convert::FromSpecImpl<Atom> for Term {
    open spec fn obeys_from_spec() -> bool {
        true
    }

    open spec fn from_spec(v: Atom) -> Self {
        Term::Atom(v)
    }
}

impl From<FixInteger> for Term {
    fn from(v: FixInteger) -> Self {
        Term::FixInteger(v)
    }
}

impl vstd::std_specs::convert::FromSpecImpl<FixInteger> for Term {
    open spec fn obeys_from_spec() -> bool {
        true
    }

    open spec fn from_spec(v: FixInteger) -> Self {
        Term::FixInteger(v)
    }
}

impl From<BigInteger> for Term {
    fn from(v: BigInteger) -> Self {
        Term::BigInteger(v)
    }
}

impl vstd::std_specs::convert::FromSpecImpl<BigInteger> for Term {
    open spec fn obeys_from_spec() -> bool {
        true
    }

    open spec fn from_spec(v: BigInteger) -> Self {
        Term::BigInteger(v)
    }
}

impl From<Float> for Term {
    fn from(v: Float) -> Self {
        Term::Float(v)
    }
}

impl vstd::std_specs::convert::FromSpecImpl<Float> for Term {
    open spec fn obeys_from_spec() -> bool {
        true
    }

    open spec fn from_spec(v: Float) -> Self {
        Term::Float(v)
    }
}

impl From<Pid> for Term {
    fn from(v: Pid) -> Self {
        Term::Pid(v)
    }
}

impl vstd::std_specs::convert::FromSpecImpl<Pid> for Term {
    open spec fn obeys_from_spec() -> bool {
        true
    }

    open spec fn from_spec(v: Pid) -> Self {
        Term::Pid(v)
    }
}

impl From<Port> for Term {
    fn from(v: Port) -> Self {
        Term::Port(v)
    }
}

impl vstd::std_specs::convert::FromSpecImpl<Port> for Term {
    open spec fn obeys_from_spec() -> bool {
        true
    }

    open spec fn from_spec(v: Port) -> Self {
        Term::Port(v)
    }
}

impl From<Reference> for Term {
    fn from(v: Reference) -> Self {
        Term::Reference(v)
    }
}

impl vstd::std_specs::convert::FromSpecImpl<Reference> for Term {
    open spec fn obeys_from_spec() -> bool {
        true
    }

    open spec fn from_spec(v: Reference) -> Self {
        Term::Reference(v)
    }
}

impl From<ExternalFun> for Term {
    fn from(v: ExternalFun) -> Self {
        Term::ExternalFun(v)
    }
}

impl vstd::std_specs::convert::FromSpecImpl<ExternalFun> for Term {
    open spec fn obeys_from_spec() -> bool {
        true
    }

    open spec fn from_spec(v: ExternalFun) -> Self {
        Term::ExternalFun(v)
    }
}

impl From<InternalFun> for Term {
    fn from(v: InternalFun) -> Self {
        Term::InternalFun(v)
    }
}

impl vstd::std_specs::convert::FromSpecImpl<InternalFun> for Term {
    open spec fn obeys_from_spec() -> bool {
        true
    }

    open spec fn from_spec(v: InternalFun) -> Self {
        Term::InternalFun(v)
    }
}

impl From<Binary> for Term {
    fn from(v: Binary) -> Self {
        Term::Binary(v)
    }
}

impl vstd::std_specs::convert::FromSpecImpl<Binary> for Term {
    open spec fn obeys_from_spec() -> bool {
        true
    }

    open spec fn from_spec(v: Binary) -> Self {
        Term::Binary(v)
    }
}

impl From<BitBinary> for Term {
    fn from(v: BitBinary) -> Self {
        Term::BitBinary(v)
    }
}

impl vstd::std_specs::convert::FromSpecImpl<BitBinary> for Term {
    open spec fn obeys_from_spec() -> bool {
        true
    }

    open spec fn from_spec(v: BitBinary) -> Self {
        Term::BitBinary(v)
    }
}

impl From<List> for Term {
    fn from(v: List) -> Self {
        Term::List(v)
    }
}

impl vstd::std_specs::convert::FromSpecImpl<List> for Term {
    open spec fn obeys_from_spec() -> bool {
        true
    }

    open spec fn from_spec(v: List) -> Self {
        Term::List(v)
    }
}

impl From<ImproperList> for Term {
    fn from(v: ImproperList) -> Self {
        Term::ImproperList(v)
    }
}

impl vstd::std_specs::convert::FromSpecImpl<ImproperList> for Term {
    open spec fn obeys_from_spec() -> bool {
        true
    }

    open spec fn from_spec(v: ImproperList) -> Self {
        Term::ImproperList(v)
    }
}

impl From<Tuple> for Term {
    fn from(v: Tuple) -> Self {
        Term::Tuple(v)
    }
}

impl vstd::std_specs::convert::FromSpecImpl<Tuple> for Term {
    open spec fn obeys_from_spec() -> bool {
        true
    }

    open spec fn from_spec(v: Tuple) -> Self {
        Term::Tuple(v)
    }
}

impl From<TermMap> for Term {
    fn from(v: TermMap) -> Self {
        Term::TermMap(v)
    }
}

impl vstd::std_specs::convert::FromSpecImpl<TermMap> for Term {
    open spec fn obeys_from_spec() -> bool {
        true
    }

    open spec fn from_spec(v: TermMap) -> Self {
        Term::TermMap(v)
    }
}

impl From<String> for Atom {
    fn from(v: String) -> Self {
        Atom { name: v }
    }
}

impl vstd::std_specs::convert::FromSpecImpl<String> for Atom {
    open spec fn obeys_from_spec() -> bool {
        true
    }

    open spec fn from_spec(v: String) -> Self {
        Atom { name: v }
    }
}

impl<'a> From<&'a str> for Atom {
    fn from(v: &'a str) -> Self {
        Atom { name: v.to_string() }
    }
}

impl<'a> vstd::std_specs::convert::FromSpecImpl<&'a str> for Atom {
    open spec fn obeys_from_spec() -> bool {
        false
    }

    open spec fn from_spec(v: &'a str) -> Self {
        arbitrary()
    }
}

impl From<i32> for FixInteger {
    fn from(v: i32) -> Self {
        FixInteger { value: v }
    }
}

impl vstd::std_specs::convert::FromSpecImpl<i32> for FixInteger {
    open spec fn obeys_from_spec() -> bool {
        true
    }

    open spec fn from_spec(v: i32) -> Self {
        FixInteger { value: v }
    }
}

impl From<u8> for FixInteger {
    fn from(v: u8) -> Self {
        FixInteger { value: v as i32 }
    }
}

impl vstd::std_specs::convert::FromSpecImpl<u8> for FixInteger {
    open spec fn obeys_from_spec() -> bool {
        true
    }

    open spec fn from_spec(v: u8) -> Self {
        FixInteger { value: v as i32 }
    }
}

impl From<i8> for FixInteger {
    fn from(v: i8) -> Self {
        FixInteger { value: v as i32 }
    }
}

impl vstd::std_specs::convert::FromSpecImpl<i8> for FixInteger {
    open spec fn obeys_from_spec() -> bool {
        true
    }

    open spec fn from_spec(v: i8) -> Self {
        FixInteger { value: v as i32 }
    }
}

impl From<u16> for FixInteger {
    fn from(v: u16) -> Self {
        FixInteger { value: v as i32 }
    }
}

impl vstd::std_specs::convert::FromSpecImpl<u16> for FixInteger {
    open spec fn obeys_from_spec() -> bool {
        true
    }

    open spec fn from_spec(v: u16) -> Self {
        FixInteger { value: v as i32 }
    }
}

impl From<i16> for FixInteger {
    fn from(v: i16) -> Self {
        FixInteger { value: v as i32 }
    }
}

impl vstd::std_specs::convert::FromSpecImpl<i16> for FixInteger {
    open spec fn obeys_from_spec() -> bool {
        true
    }

    open spec fn from_spec(v: i16) -> Self {
        FixInteger { value: v as i32 }
    }
}

impl From<i64> for BigInteger {
    fn from(v: i64) -> Self {
        BigInteger::from_i64(v as i64)
    }
}

impl vstd::std_specs::convert::FromSpecImpl<i64> for BigInteger {
    open spec fn obeys_from_spec() -> bool {
        false
    }

    open spec fn from_spec(v: i64) -> Self {
        arbitrary()
    }
}

impl From<u64> for BigInteger {
    fn from(v: u64) -> Self {
        BigInteger::from_u64(v)
    }
}

impl vstd::std_specs::convert::FromSpecImpl<u64> for BigInteger {
    open spec fn obeys_from_spec() -> bool {
        false
    }

    open spec fn from_spec(v: u64) -> Self {
        arbitrary()
    }
}

impl From<i32> for BigInteger {
    fn from(v: i32) -> Self {
        BigInteger::from_i64(v as i64)
    }
}

impl vstd::std_specs::convert::FromSpecImpl<i32> for BigInteger {
    open spec fn obeys_from_spec() -> bool {
        false
    }

    open spec fn from_spec(v: i32) -> Self {
        arbitrary()
    }
}

impl From<u32> for BigInteger {
    fn from(v: u32) -> Self {
        BigInteger::from_i64(v as i64)
    }
}

impl vstd::std_specs::convert::FromSpecImpl<u32> for BigInteger {
    open spec fn obeys_from_spec() -> bool {
        false
    }

    open spec fn from_spec(v: u32) -> Self {
        arbitrary()
    }
}

impl From<u8> for BigInteger {
    fn from(v: u8) -> Self {
        BigInteger::from_i64(v as i64)
    }
}

impl vstd::std_specs::convert::FromSpecImpl<u8> for BigInteger {
    open spec fn obeys_from_spec() -> bool {
        false
    }

    open spec fn from_spec(v: u8) -> Self {
        arbitrary()
    }
}

impl From<i8> for BigInteger {
    fn from(v: i8) -> Self {
        BigInteger::from_i64(v as i64)
    }
}

impl vstd::std_specs::convert::FromSpecImpl<i8> for BigInteger {
    open spec fn obeys_from_spec() -> bool {
        false
    }

    open spec fn from_spec(v: i8) -> Self {
        arbitrary()
    }
}

impl From<u16> for BigInteger {
    fn from(v: u16) -> Self {
        BigInteger::from_i64(v as i64)
    }
}

impl vstd::std_specs::convert::FromSpecImpl<u16> for BigInteger {
    open spec fn obeys_from_spec() -> bool {
        false
    }

    open spec fn from_spec(v: u16) -> Self {
        arbitrary()
    }
}

impl From<i16> for BigInteger {
    fn from(v: i16) -> Self {
        BigInteger::from_i64(v as i64)
    }
}

impl vstd::std_specs::convert::FromSpecImpl<i16> for BigInteger {
    open spec fn obeys_from_spec() -> bool {
        false
    }

    open spec fn from_spec(v: i16) -> Self {
        arbitrary()
    }
}

impl<'a> From<&'a FixInteger> for BigInteger {
    fn from(v: &'a FixInteger) -> Self {
        BigInteger::from_i64(v.value as i64)
    }
}

impl<'a> vstd::std_specs::convert::FromSpecImpl<&'a FixInteger> for BigInteger {
    open spec fn obeys_from_spec() -> bool {
        false
    }

    open spec fn from_spec(v: &'a FixInteger) -> Self {
        arbitrary()
    }
}

impl From<Vec<u8>> for Binary {
    fn from(v: Vec<u8>) -> Self {
        Binary { bytes: v }
    }
}

impl vstd::std_specs::convert::FromSpecImpl<Vec<u8>> for Binary {
    open spec fn obeys_from_spec() -> bool {
        true
    }

    open spec fn from_spec(v: Vec<u8>) -> Self {
        Binary { bytes: v }
    }
}

impl From<Binary> for BitBinary {
    fn from(v: Binary) -> Self {
        BitBinary { bytes: v.bytes, tail_bits_size: 8 }
    }
}

impl vstd::std_specs::convert::FromSpecImpl<Binary> for BitBinary {
    open spec fn obeys_from_spec() -> bool {
        true
    }

    open spec fn from_spec(v: Binary) -> Self {
        BitBinary { bytes: v.bytes, tail_bits_size: 8 }
    }
}

impl From<(Vec<u8>, u8)> for BitBinary {
    fn from(v: (Vec<u8>, u8)) -> Self {
        BitBinary { bytes: v.0, tail_bits_size: v.1 }
    }
}

impl vstd::std_specs::convert::FromSpecImpl<(Vec<u8>, u8)> for BitBinary {
    open spec fn obeys_from_spec() -> bool {
        true
    }

    open spec fn from_spec(v: (Vec<u8>, u8)) -> Self {
        BitBinary { bytes: v.0, tail_bits_size: v.1 }
    }
}

impl From<Vec<Term>> for List {
    fn from(v: Vec<Term>) -> Self {
        List { elements: v }
    }
}

impl vstd::std_specs::convert::FromSpecImpl<Vec<Term>> for List {
    open spec fn obeys_from_spec() -> bool {
        true
    }

    open spec fn from_spec(v: Vec<Term>) -> Self {
        List { elements: v }
    }
}

impl From<Vec<Term>> for Tuple {
    fn from(v: Vec<Term>) -> Self {
        Tuple { elements: v }
    }
}

impl vstd::std_specs::convert::FromSpecImpl<Vec<Term>> for Tuple {
    open spec fn obeys_from_spec() -> bool {
        true
    }

    open spec fn from_spec(v: Vec<Term>) -> Self {
        Tuple { elements: v }
    }
}

impl From<(Vec<Term>, Term)> for ImproperList {
    fn from(v: (Vec<Term>, Term)) -> Self {
        ImproperList { elements: v.0, last: Box::new(v.1) }
    }
}

impl vstd::std_specs::convert::FromSpecImpl<(Vec<Term>, Term)> for ImproperList {
    open spec fn obeys_from_spec() -> bool {
        true
    }

    open spec fn from_spec(v: (Vec<Term>, Term)) -> Self {
        ImproperList { elements: v.0, last: Box::new(v.1) }
    }
}

impl From<Vec<(Term, Term)>> for TermMap {
    fn from(v: Vec<(Term, Term)>) -> Self {
        TermMap { entries: v }
    }
}

impl vstd::std_specs::convert::FromSpecImpl<Vec<(Term, Term)>> for TermMap {
    open spec fn obeys_from_spec() -> bool {
        true
    }

    open spec fn from_spec(v: Vec<(Term, Term)>) -> Self {
        TermMap { entries: v }
    }
}

impl<'a> From<(&'a str, u32, u32)> for Pid {
    fn from(v: (&'a str, u32, u32)) -> Self {
        Pid { node: Atom { name: v.0.to_string() }, id: v.1, serial: v.2, creation: 0 }
    }
}

impl<'a> vstd::std_specs::convert::FromSpecImpl<(&'a str, u32, u32)> for Pid {
    open spec fn obeys_from_spec() -> bool {
        false
    }

    open spec fn from_spec(v: (&'a str, u32, u32)) -> Self {
        arbitrary()
    }
}

impl<'a> From<(&'a str, u32)> for Port {
    fn from(v: (&'a str, u32)) -> Self {
        Port { node: Atom { name: v.0.to_string() }, id: v.1 as u64, creation: 0 }
    }
}

impl<'a> vstd::std_specs::convert::FromSpecImpl<(&'a str, u32)> for Port {
    open spec fn obeys_from_spec() -> bool {
        false
    }

    open spec fn from_spec(v: (&'a str, u32)) -> Self {
        arbitrary()
    }
}

impl<'a> From<(&'a str, u32)> for Reference {
    fn from(v: (&'a str, u32)) -> Self {
        Reference { node: Atom { name: v.0.to_string() }, id: vec![v.1], creation: 0 }
    }
}

impl<'a> vstd::std_specs::convert::FromSpecImpl<(&'a str, u32)> for Reference {
    open spec fn obeys_from_spec() -> bool {
        false
    }

    open spec fn from_spec(v: (&'a str, u32)) -> Self {
        arbitrary()
    }
}

impl<'a> From<(&'a str, Vec<u32>)> for Reference {
    fn from(v: (&'a str, Vec<u32>)) -> Self {
        Reference { node: Atom { name: v.0.to_string() }, id: v.1, creation: 0 }
    }
}

impl<'a> vstd::std_specs::convert::FromSpecImpl<(&'a str, Vec<u32>)> for Reference {
    open spec fn obeys_from_spec() -> bool {
        false
    }

    open spec fn from_spec(v: (&'a str, Vec<u32>)) -> Self {
        arbitrary()
    }
}

impl<'a, 'b> From<(&'a str, &'b str, u8)> for ExternalFun {
    fn from(v: (&'a str, &'b str, u8)) -> Self {
        ExternalFun {
            module: Atom { name: v.0.to_string() },
            function: Atom { name: v.1.to_string() },
            arity: v.2,
        }
    }
}

impl<'a, 'b> vstd::std_specs::convert::FromSpecImpl<(&'a str, &'b str, u8)> for ExternalFun {
    open spec fn obeys_from_spec() -> bool {
        false
    }

    open spec fn from_spec(v: (&'a str, &'b str, u8)) -> Self {
        arbitrary()
    }
}

/// Borrows the payload of a term when it is of kind `T`.
pub trait TryAsRef<T> {
    fn try_as_ref(&self) -> Option<&T>;
}

impl TryAsRef<Atom> for Term {
    fn try_as_ref(&self) -> Option<&Atom> {
        match self {
            Term::Atom(x) => Some(x),
            _ => None,
        }
    }
}

impl TryAsRef<FixInteger> for Term {
    fn try_as_ref(&self) -> Option<&FixInteger> {
        match self {
            Term::FixInteger(x) => Some(x),
            _ => None,
        }
    }
}

impl TryAsRef<BigInteger> for Term {
    fn try_as_ref(&self) -> Option<&BigInteger> {
        match self {
            Term::BigInteger(x) => Some(x),
            _ => None,
        }
    }
}

impl TryAsRef<Float> for Term {
    fn try_as_ref(&self) -> Option<&Float> {
        match self {
            Term::Float(x) => Some(x),
            _ => None,
        }
    }
}

impl TryAsRef<Pid> for Term {
    fn try_as_ref(&self) -> Option<&Pid> {
        match self {
            Term::Pid(x) => Some(x),
            _ => None,
        }
    }
}

impl TryAsRef<Port> for Term {
    fn try_as_ref(&self) -> Option<&Port> {
        match self {
            Term::Port(x) => Some(x),
            _ => None,
        }
    }
}

impl TryAsRef<Reference> for Term {
    fn try_as_ref(&self) -> Option<&Reference> {
        match self {
            Term::Reference(x) => Some(x),
            _ => None,
        }
    }
}

impl TryAsRef<ExternalFun> for Term {
    fn try_as_ref(&self) -> Option<&ExternalFun> {
        match self {
            Term::ExternalFun(x) => Some(x),
            _ => None,
        }
    }
}

impl TryAsRef<InternalFun> for Term {
    fn try_as_ref(&self) -> Option<&InternalFun> {
        match self {
            Term::InternalFun(x) => Some(x),
            _ => None,
        }
    }
}

impl TryAsRef<Binary> for Term {
    fn try_as_ref(&self) -> Option<&Binary> {
        match self {
            Term::Binary(x) => Some(x),
            _ => None,
        }
    }
}

impl TryAsRef<BitBinary> for Term {
    fn try_as_ref(&self) -> Option<&BitBinary> {
        match self {
            Term::BitBinary(x) => Some(x),
            _ => None,
        }
    }
}

impl TryAsRef<List> for Term {
    fn try_as_ref(&self) -> Option<&List> {
        match self {
            Term::List(x) => Some(x),
            _ => None,
        }
    }
}

impl TryAsRef<ImproperList> for Term {
    fn try_as_ref(&self) -> Option<&ImproperList> {
        match self {
            Term::ImproperList(x) => Some(x),
            _ => None,
        }
    }
}

impl TryAsRef<Tuple> for Term {
    fn try_as_ref(&self) -> Option<&Tuple> {
        match self {
            Term::Tuple(x) => Some(x),
            _ => None,
        }
    }
}

impl TryAsRef<TermMap> for Term {
    fn try_as_ref(&self) -> Option<&TermMap> {
        match self {
            Term::TermMap(x) => Some(x),
            _ => None,
        }
    }
}

/// A value as an `Option`: present when it counts as true.
pub trait AsOption {
    fn as_option(&self) -> Option<&Self>;
}

impl AsOption for bool {
    fn as_option(&self) -> Option<&bool> {
        if *self {
            Some(self)
        } else {
            None
        }
    }
}

} // verus!
