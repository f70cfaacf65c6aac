//! The term data model: the executable tree that callers build and the
//! decoder returns, and its mathematical view.
use vstd::prelude::*;

verus! {

/// Atom: a name.
#[derive(Debug, PartialEq, Eq, Hash, Clone)]
pub struct Atom {
    /// The name of the atom.
    pub name: String,
}

/// Fixed width integer.
#[derive(Debug, PartialEq, Eq, Hash, Clone)]
pub struct FixInteger {
    /// The value of the integer.
    pub value: i32,
}

/// Multiple precision integer, as a sign and a little-endian magnitude.
///
/// The canonical form (see `BigInteger::is_canonical`) has no high zero
/// byte, holds zero as the single byte `0`, and never marks zero negative.
#[derive(Debug, PartialEq, Eq, Hash, Clone)]
pub struct BigInteger {
    pub negative: bool,
    pub magnitude: Vec<u8>,
}

/// Floating point number, held as the bits of an IEEE-754 double.
#[derive(Debug, PartialEq, Eq, Hash, Clone)]
pub struct Float {
    pub bits: u64,
}

/// Process identifier.
#[derive(Debug, PartialEq, Eq, Hash, Clone)]
pub struct Pid {
    pub node: Atom,
    pub id: u32,
    pub serial: u32,
    pub creation: u32,
}

/// Port.
#[derive(Debug, PartialEq, Eq, Hash, Clone)]
pub struct Port {
    pub node: Atom,
    pub id: u64,
    pub creation: u32,
}

/// Reference.
#[derive(Debug, PartialEq, Eq, Hash, Clone)]
pub struct Reference {
    pub node: Atom,
    pub id: Vec<u32>,
    pub creation: u32,
}

/// External function: a module, a function name and an arity.
#[derive(Debug, PartialEq, Eq, Hash, Clone)]
pub struct ExternalFun {
    pub module: Atom,
    pub function: Atom,
    pub arity: u8,
}

/// Internal function: closure metadata, in its old or its new form.
#[derive(Debug, PartialEq, Eq, Hash)]
pub enum InternalFun {
    /// Old representation.
    Old { module: Atom, pid: Pid, free_vars: Vec<Term>, index: i32, uniq: i32 },
    /// New representation.
    New {
        module: Atom,
        arity: u8,
        pid: Pid,
        free_vars: Vec<Term>,
        index: u32,
        uniq: [u8; 16],
        old_index: i32,
        old_uniq: i32,
    },
}

/// Binary.
#[derive(Debug, PartialEq, Eq, Hash, Clone)]
pub struct Binary {
    pub bytes: Vec<u8>,
}

/// Bit string: only the low `tail_bits_size` bits of the last byte count.
#[derive(Debug, PartialEq, Eq, Hash, Clone)]
pub struct BitBinary {
    pub bytes: Vec<u8>,
    pub tail_bits_size: u8,
}

/// List; the empty list is nil.
#[derive(Debug, PartialEq, Eq, Hash)]
pub struct List {
    pub elements: Vec<Term>,
}

/// Improper list: elements and a tail that is not nil.
#[derive(Debug, PartialEq, Eq, Hash)]
pub struct ImproperList {
    pub elements: Vec<Term>,
    pub last: Box<Term>,
}

/// Tuple.
#[derive(Debug, PartialEq, Eq, Hash)]
pub struct Tuple {
    pub elements: Vec<Term>,
}

/// Map, as its entries.
#[derive(Debug, PartialEq, Eq, Hash)]
pub struct TermMap {
    pub entries: Vec<(Term, Term)>,
}

/// Term.
#[derive(Debug, PartialEq, Eq, Hash)]
pub enum Term {
    Atom(Atom),
    FixInteger(FixInteger),
    BigInteger(BigInteger),
    Float(Float),
    Pid(Pid),
    Port(Port),
    Reference(Reference),
    ExternalFun(ExternalFun),
    InternalFun(InternalFun),
    Binary(Binary),
    BitBinary(BitBinary),
    List(List),
    ImproperList(ImproperList),
    Tuple(Tuple),
    TermMap(TermMap),
}

/// The mathematical view of a process identifier.
pub struct PidV {
    pub node: Seq<char>,
    pub id: u32,
    pub serial: u32,
    pub creation: u32,
}

/// The mathematical view of a term.
pub enum TermV {
    Atom(Seq<char>),
    FixInteger(i32),
    BigInteger { negative: bool, magnitude: Seq<u8> },
    Float(u64),
    Pid(PidV),
    Port { node: Seq<char>, id: u64, creation: u32 },
    Reference { node: Seq<char>, id: Seq<u32>, creation: u32 },
    ExternalFun { module: Seq<char>, function: Seq<char>, arity: u8 },
    OldFun { module: Seq<char>, pid: PidV, free_vars: Seq<TermV>, index: i32, uniq: i32 },
    NewFun {
        module: Seq<char>,
        arity: u8,
        pid: PidV,
        free_vars: Seq<TermV>,
        index: u32,
        uniq: Seq<u8>,
        old_index: i32,
        old_uniq: i32,
    },
    Binary(Seq<u8>),
    BitBinary { bytes: Seq<u8>, tail_bits_size: u8 },
    List(Seq<TermV>),
    ImproperList(Seq<TermV>, Box<TermV>),
    Tuple(Seq<TermV>),
    TermMap(Seq<(TermV, TermV)>),
}

impl Pid {
    pub open spec fn view(&self) -> PidV {
        PidV { node: self.node.name@, id: self.id, serial: self.serial, creation: self.creation }
    }
}

/// The views of a sequence of terms, element by element.
pub open spec fn views(ts: Seq<Term>) -> Seq<TermV>
    decreases ts,
{
    if ts.len() == 0 {
        Seq::empty()
    } else {
        views(ts.drop_last()).push(term_view(ts.last()))
    }
}

/// The views of a sequence of entries, pair by pair.
pub open spec fn entry_views(es: Seq<(Term, Term)>) -> Seq<(TermV, TermV)>
    decreases es,
{
    if es.len() == 0 {
        Seq::empty()
    } else {
        entry_views(es.drop_last()).push((term_view(es.last().0), term_view(es.last().1)))
    }
}

/// The mathematical view of an internal function.
pub open spec fn fun_view(f: InternalFun) -> TermV
    decreases f,
{
    match f {
        InternalFun::Old { module, pid, free_vars, index, uniq } => TermV::OldFun {
            module: module.name@,
            pid: pid.view(),
            free_vars: views(free_vars@),
            index,
            uniq,
        },
        InternalFun::New { module, arity, pid, free_vars, index, uniq, old_index, old_uniq } => TermV::NewFun {
            module: module.name@,
            arity,
            pid: pid.view(),
            free_vars: views(free_vars@),
            index,
            uniq: uniq@,
            old_index,
            old_uniq,
        },
    }
}

/// The mathematical view of a term.
pub open spec fn term_view(t: Term) -> TermV
    decreases t,
{
    match t {
        Term::Atom(a) => TermV::Atom(a.name@),
        Term::FixInteger(i) => TermV::FixInteger(i.value),
        Term::BigInteger(b) => TermV::BigInteger { negative: b.negative, magnitude: b.magnitude@ },
        Term::Float(f) => TermV::Float(f.bits),
        Term::Pid(p) => TermV::Pid(p.view()),
        Term::Port(p) => TermV::Port { node: p.node.name@, id: p.id, creation: p.creation },
        Term::Reference(r) => TermV::Reference { node: r.node.name@, id: r.id@, creation: r.creation },
        Term::ExternalFun(f) => TermV::ExternalFun {
            module: f.module.name@,
            function: f.function.name@,
            arity: f.arity,
        },
        Term::InternalFun(f) => fun_view(f),
        Term::Binary(b) => TermV::Binary(b.bytes@),
        Term::BitBinary(b) => TermV::BitBinary { bytes: b.bytes@, tail_bits_size: b.tail_bits_size },
        Term::List(l) => TermV::List(views(l.elements@)),
        Term::ImproperList(l) => TermV::ImproperList(views(l.elements@), Box::new(term_view(*l.last))),
        Term::Tuple(l) => TermV::Tuple(views(l.elements@)),
        Term::TermMap(m) => TermV::TermMap(entry_views(m.entries@)),
    }
}

impl View for Term {
    type V = TermV;

    open spec fn view(&self) -> TermV {
        term_view(*self)
    }
}

/// The number that a little-endian magnitude stands for.
pub open spec fn le_value(m: Seq<u8>) -> nat
    decreases m.len(),
{
    if m.len() == 0 {
        0
    } else {
        m[0] as nat + 256 * le_value(m.subrange(1, m.len() as int))
    }
}

pub open spec fn pow256(n: nat) -> nat
    decreases n,
{
    if n == 0 {
        1
    } else {
        256 * pow256((n - 1) as nat)
    }
}

/// Appending a byte adds it at the next power of 256.
pub proof fn lemma_le_value_push(m: Seq<u8>, b: u8)
    ensures
        le_value(m.push(b)) == le_value(m) + pow256(m.len()) * b,
    decreases m.len(),
{
    if m.len() == 0 {
        assert(m.push(b).subrange(1, 1) =~= Seq::<u8>::empty());
        assert(le_value(Seq::<u8>::empty()) == 0);
        assert(le_value(m.push(b)) == b as nat + 256 * le_value(Seq::<u8>::empty()));
        assert(pow256(0) == 1);
    } else {
        let t = m.subrange(1, m.len() as int);
        assert(m.push(b).subrange(1, m.len() as int + 1) =~= t.push(b));
        lemma_le_value_push(t, b);
        assert(le_value(m.push(b)) == m[0] as nat + 256 * le_value(t.push(b)));
        assert(le_value(m) == m[0] as nat + 256 * le_value(t));
        assert(pow256(m.len()) == 256 * pow256(t.len()));
        let lt = le_value(t);
        let pt = pow256(t.len());
        assert(256 * (lt + pt * b) == 256 * lt + (256 * pt) * b) by (nonlinear_arith);
    }
}

impl BigInteger {
    /// The value: the magnitude, negated when `negative`.
    pub open spec fn value(&self) -> int {
        if self.negative {
            -le_value(self.magnitude@)
        } else {
            le_value(self.magnitude@) as int
        }
    }

    /// Whether this is the canonical form: no high zero byte, zero as one zero byte
    /// that is not negative.
    pub open spec fn is_canonical(&self) -> bool {
        &&& self.magnitude@.len() >= 1
        &&& self.magnitude@.last() == 0 ==> (self.magnitude@ =~= seq![0u8] && !self.negative)
    }

    /// The canonical big integer of `n`.
    pub fn from_u64(n: u64) -> (r: BigInteger)
        ensures
            r.value() == n as int,
            r.is_canonical(),
            !r.negative,
            n > 0 ==> r.magnitude@.last() != 0,
    {
        let mut magnitude: Vec<u8> = Vec::new();
        let mut rest = n;
        let ghost mut scale: nat = 1;
        if rest == 0 {
            magnitude.push(0);
            assert(magnitude@.subrange(1, 1) =~= Seq::<u8>::empty());
            assert(le_value(Seq::<u8>::empty()) == 0);
            assert(le_value(magnitude@) == 0 + 256 * le_value(Seq::<u8>::empty()));
            assert(magnitude@ =~= seq![0u8]);
            return BigInteger { negative: false, magnitude };
        }
        while rest > 0
            invariant
                n as int == le_value(magnitude@) + scale * rest,
                scale == pow256(magnitude@.len()),
                rest == 0 ==> magnitude@.len() >= 1 && magnitude@.last() != 0,
                rest > 0 || magnitude@.len() >= 1,
            decreases rest,
        {
            let b = (rest % 256) as u8;
            proof {
                lemma_le_value_push(magnitude@, b);
                assert(scale * rest == scale * b + (scale * 256) * (rest / 256)) by (nonlinear_arith)
                    requires
                        b == rest % 256,
                ;
            }
            magnitude.push(b);
            rest = rest / 256;
            proof {
                scale = scale * 256;
            }
        }
        BigInteger { negative: false, magnitude }
    }

    /// The canonical big integer of `n`.
    pub fn from_i64(n: i64) -> (r: BigInteger)
        ensures
            r.value() == n as int,
            r.is_canonical(),
    {
        if n >= 0 {
            BigInteger::from_u64(n as u64)
        } else {
            let m: u64 = if n == i64::MIN { 0x8000_0000_0000_0000u64 } else { (-n) as u64 };
            let b = BigInteger::from_u64(m);
            BigInteger { negative: true, magnitude: b.magnitude }
        }
    }
}

impl Float {
    /// A float with these IEEE-754 bits; infinities and NaNs are refused.
    pub fn from_bits(bits: u64) -> (r: Option<Float>)
        ensures
            r is Some <==> (bits >> 52u64) & 0x7ffu64 != 0x7ffu64,
            r matches Some(f) ==> f.bits == bits,
    {
        if (bits >> 52u64) & 0x7ffu64 == 0x7ffu64 {
            None
        } else {
            Some(Float { bits })
        }
    }
}

impl Atom {
    /// An atom with this name.
    pub fn new(name: &str) -> (r: Atom)
        ensures
            r.name@ == name@,
    {
        Atom { name: name.to_string() }
    }
}

impl Pid {
    pub fn new(node: Atom, id: u32, serial: u32, creation: u32) -> (r: Pid)
        ensures
            r.node == node,
            r.id == id,
            r.serial == serial,
            r.creation == creation,
    {
        Pid { node, id, serial, creation }
    }
}

impl List {
    /// The empty list.
    pub fn nil() -> (r: List)
        ensures
            r.elements@.len() == 0,
    {
        List { elements: Vec::new() }
    }

    /// Whether the list is empty.
    pub fn is_nil(&self) -> (r: bool)
        ensures
            r == (self.elements@.len() == 0),
    {
        self.elements.len() == 0
    }
}

impl Tuple {
    /// The empty tuple.
    pub fn nil() -> (r: Tuple)
        ensures
            r.elements@.len() == 0,
    {
        Tuple { elements: Vec::new() }
    }
}

/// The value of a magnitude, when it is below 2 to the 64.
fn magnitude_u64(m: &Vec<u8>) -> (r: Option<u64>)
    ensures
        r matches Some(v) ==> v as nat == le_value(m@),
        (r is None) <==> le_value(m@) > u64::MAX,
{
    let n = m.len();
    let mut acc: u64 = 0;
    let mut i: usize = n;
    while i > 0
        invariant
            n == m@.len(),
            i <= n,
            acc as nat == le_value(m@.subrange(i as int, n as int)),
        decreases i,
    {
        let b = m[i - 1];
        proof {
            let t = m@.subrange(i as int, n as int);
            assert(m@.subrange(i - 1, n as int).subrange(1, (n - i + 1) as int) =~= t);
        }
        if acc > (u64::MAX - b as u64) / 256 {
            proof {
                lemma_le_value_suffix(m@, (i - 1) as int);
                assert(le_value(m@.subrange(i - 1, n as int)) == b as nat + 256 * acc);
                assert(b as nat + 256 * (acc as nat) > u64::MAX) by (nonlinear_arith)
                    requires
                        acc > (u64::MAX - b as u64) / 256,
                ;
                lemma_le_value_suffix_grows(m@, (i - 1) as int);
            }
            return None;
        }
        acc = acc * 256 + b as u64;
        i = i - 1;
    }
    assert(m@.subrange(0, n as int) =~= m@);
    Some(acc)
}

proof fn lemma_le_value_suffix(m: Seq<u8>, i: int)
    requires
        0 <= i < m.len(),
    ensures
        le_value(m.subrange(i, m.len() as int)) == m[i] as nat + 256 * le_value(
            m.subrange(i + 1, m.len() as int),
        ),
{
    let t = m.subrange(i, m.len() as int);
    assert(t.subrange(1, t.len() as int) =~= m.subrange(i + 1, m.len() as int));
}

/// The value of a whole magnitude is at least that of any of its high parts.
proof fn lemma_le_value_suffix_grows(m: Seq<u8>, i: int)
    requires
        0 <= i <= m.len(),
    ensures
        le_value(m) >= le_value(m.subrange(i, m.len() as int)),
    decreases i,
{
    if i == 0 {
        assert(m.subrange(0, m.len() as int) =~= m);
    } else {
        lemma_le_value_suffix_grows(m, i - 1);
        lemma_le_value_suffix(m, i - 1);
    }
}

impl Term {
    /// The value of an integer term, when it fits an `i64`.
    pub fn to_i64(&self) -> (r: Option<i64>)
        ensures
            self matches Term::FixInteger(x) ==> r == Some(x.value as i64),
            self matches Term::BigInteger(x) ==> (r matches Some(v) ==> v as int == x.value()),
            self matches Term::BigInteger(x) ==> (r is None <==> !(i64::MIN <= x.value()
                <= i64::MAX)),
            !(self is FixInteger || self is BigInteger) ==> r is None,
    {
        match self {
            Term::FixInteger(x) => Some(x.value as i64),
            Term::BigInteger(x) => match magnitude_u64(&x.magnitude) {
                None => None,
                Some(m) => if x.negative {
                    if m <= 0x8000_0000_0000_0000u64 {
                        if m == 0x8000_0000_0000_0000u64 {
                            Some(i64::MIN)
                        } else {
                            Some(-(m as i64))
                        }
                    } else {
                        None
                    }
                } else if m <= i64::MAX as u64 {
                    Some(m as i64)
                } else {
                    None
                },
            },
            _ => None,
        }
    }

    /// The value of an integer term, when it fits a `u64`.
    pub fn to_u64(&self) -> (r: Option<u64>)
        ensures
            self matches Term::FixInteger(x) ==> (r is Some <==> x.value >= 0),
            self matches Term::FixInteger(x) ==> (r matches Some(v) ==> v as int == x.value),
            self matches Term::BigInteger(x) ==> (r matches Some(v) ==> v as int == x.value()),
            self matches Term::BigInteger(x) ==> (r is None <==> !(0 <= x.value() <= u64::MAX)),
            !(self is FixInteger || self is BigInteger) ==> r is None,
    {
        match self {
            Term::FixInteger(x) => if x.value >= 0 {
                Some(x.value as u64)
            } else {
                None
            },
            Term::BigInteger(x) => match magnitude_u64(&x.magnitude) {
                None => None,
                Some(m) => if x.negative && m != 0 {
                    None
                } else {
                    Some(m)
                },
            },
            _ => None,
        }
    }
}

} // verus!
