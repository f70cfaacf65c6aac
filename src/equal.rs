//! Structural equality of terms, as their views.
use vstd::prelude::*;
use crate::encode::{lemma_entry_views, lemma_views};
use crate::term::{entry_views, fun_view, views, Atom, InternalFun, Pid, Term};

verus! {

pub fn bytes_eq(a: &[u8], b: &[u8]) -> (r: bool)
    ensures
        r == (a@ == b@),
{
    if a.len() != b.len() {
        return false;
    }
    let mut i: usize = 0;
    while i < a.len()
        invariant
            a@.len() == b@.len(),
            i <= a@.len(),
            forall|j: int| 0 <= j < i ==> a@[j] == b@[j],
        decreases a@.len() - i,
    {
        if a[i] != b[i] {
            return false;
        }
        i = i + 1;
    }
    assert(a@ =~= b@);
    true
}

pub fn words_eq(a: &Vec<u32>, b: &Vec<u32>) -> (r: bool)
    ensures
        r == (a@ == b@),
{
    if a.len() != b.len() {
        return false;
    }
    let mut i: usize = 0;
    while i < a.len()
        invariant
            a@.len() == b@.len(),
            i <= a@.len(),
            forall|j: int| 0 <= j < i ==> a@[j] == b@[j],
        decreases a@.len() - i,
    {
        if a[i] != b[i] {
            return false;
        }
        i = i + 1;
    }
    assert(a@ =~= b@);
    true
}

fn atom_eq(a: &Atom, b: &Atom) -> (r: bool)
    ensures
        r == (a.name@ == b.name@),
{
    a.name == b.name
}

fn pid_eq(a: &Pid, b: &Pid) -> (r: bool)
    ensures
        r == (a.view() == b.view()),
{
    atom_eq(&a.node, &b.node) && a.id == b.id && a.serial == b.serial && a.creation == b.creation
}

/// Whether two vectors of terms have equal views.
pub fn terms_eq(a: &Vec<Term>, b: &Vec<Term>) -> (r: bool)
    ensures
        r == (views(a@) == views(b@)),
    decreases a, 0int,
{
    proof {
        lemma_views(a@);
        lemma_views(b@);
    }
    if a.len() != b.len() {
        return false;
    }
    let mut i: usize = 0;
    while i < a.len()
        invariant
            a@.len() == b@.len(),
            views(a@).len() == a@.len(),
            views(b@).len() == b@.len(),
            forall|j: int| 0 <= j < a@.len() ==> #[trigger] views(a@)[j] == a@[j]@,
            forall|j: int| 0 <= j < b@.len() ==> #[trigger] views(b@)[j] == b@[j]@,
            i <= a@.len(),
            forall|j: int| 0 <= j < i ==> views(a@)[j] == views(b@)[j],
        decreases a@.len() - i,
    {
        if !term_eq(&a[i], &b[i]) {
            assert(views(a@)[i as int] != views(b@)[i as int]);
            return false;
        }
        i = i + 1;
    }
    assert(views(a@) =~= views(b@));
    true
}

/// Whether two vectors of entries have equal views.
pub fn entries_eq(a: &Vec<(Term, Term)>, b: &Vec<(Term, Term)>) -> (r: bool)
    ensures
        r == (entry_views(a@) == entry_views(b@)),
    decreases a, 0int,
{
    proof {
        lemma_entry_views(a@);
        lemma_entry_views(b@);
    }
    if a.len() != b.len() {
        return false;
    }
    let mut i: usize = 0;
    while i < a.len()
        invariant
            a@.len() == b@.len(),
            entry_views(a@).len() == a@.len(),
            entry_views(b@).len() == b@.len(),
            forall|j: int|
                0 <= j < a@.len() ==> #[trigger] entry_views(a@)[j] == (a@[j].0@, a@[j].1@),
            forall|j: int|
                0 <= j < b@.len() ==> #[trigger] entry_views(b@)[j] == (b@[j].0@, b@[j].1@),
            i <= a@.len(),
            forall|j: int| 0 <= j < i ==> entry_views(a@)[j] == entry_views(b@)[j],
        decreases a@.len() - i,
    {
        if !entry_eq(&a[i], &b[i]) {
            assert(entry_views(a@)[i as int] != entry_views(b@)[i as int]);
            return false;
        }
        i = i + 1;
    }
    assert(entry_views(a@) =~= entry_views(b@));
    true
}

fn entry_eq(a: &(Term, Term), b: &(Term, Term)) -> (r: bool)
    ensures
        r == ((a.0@, a.1@) == (b.0@, b.1@)),
    decreases a, 0int,
{
    term_eq(&a.0, &b.0) && term_eq(&a.1, &b.1)
}

fn fun_eq(a: &InternalFun, b: &InternalFun) -> (r: bool)
    ensures
        r == (fun_view(*a) == fun_view(*b)),
    decreases a, 0int,
{
    match (a, b) {
        (
            InternalFun::Old { module: m1, pid: p1, free_vars: f1, index: i1, uniq: u1 },
            InternalFun::Old { module: m2, pid: p2, free_vars: f2, index: i2, uniq: u2 },
        ) => atom_eq(m1, m2) && pid_eq(p1, p2) && *i1 == *i2 && *u1 == *u2 && terms_eq(f1, f2),
        (
            InternalFun::New {
                module: m1,
                arity: a1,
                pid: p1,
                free_vars: f1,
                index: i1,
                uniq: u1,
                old_index: o1,
                old_uniq: q1,
            },
            InternalFun::New {
                module: m2,
                arity: a2,
                pid: p2,
                free_vars: f2,
                index: i2,
                uniq: u2,
                old_index: o2,
                old_uniq: q2,
            },
        ) => atom_eq(m1, m2) && *a1 == *a2 && pid_eq(p1, p2) && *i1 == *i2 && bytes_eq(
            u1.as_slice(),
            u2.as_slice(),
        ) && *o1 == *o2 && *q1 == *q2 && terms_eq(f1, f2),
        _ => false,
    }
}

/// Whether two terms are structurally equal.
pub fn term_eq(a: &Term, b: &Term) -> (r: bool)
    ensures
        r == (a@ == b@),
    decreases a, 0int,
{
    match (a, b) {
        (Term::Atom(x), Term::Atom(y)) => atom_eq(x, y),
        (Term::FixInteger(x), Term::FixInteger(y)) => x.value == y.value,
        (Term::BigInteger(x), Term::BigInteger(y)) => x.negative == y.negative && bytes_eq(
            x.magnitude.as_slice(),
            y.magnitude.as_slice(),
        ),
        (Term::Float(x), Term::Float(y)) => x.bits == y.bits,
        (Term::Pid(x), Term::Pid(y)) => pid_eq(x, y),
        (Term::Port(x), Term::Port(y)) => atom_eq(&x.node, &y.node) && x.id == y.id && x.creation
            == y.creation,
        (Term::Reference(x), Term::Reference(y)) => atom_eq(&x.node, &y.node) && words_eq(
            &x.id,
            &y.id,
        ) && x.creation == y.creation,
        (Term::ExternalFun(x), Term::ExternalFun(y)) => atom_eq(&x.module, &y.module) && atom_eq(
            &x.function,
            &y.function,
        ) && x.arity == y.arity,
        (Term::InternalFun(x), Term::InternalFun(y)) => fun_eq(x, y),
        (Term::Binary(x), Term::Binary(y)) => bytes_eq(x.bytes.as_slice(), y.bytes.as_slice()),
        (Term::BitBinary(x), Term::BitBinary(y)) => x.tail_bits_size == y.tail_bits_size
            && bytes_eq(x.bytes.as_slice(), y.bytes.as_slice()),
        (Term::List(x), Term::List(y)) => terms_eq(&x.elements, &y.elements),
        (Term::ImproperList(x), Term::ImproperList(y)) => terms_eq(&x.elements, &y.elements)
            && term_eq(&x.last, &y.last),
        (Term::Tuple(x), Term::Tuple(y)) => terms_eq(&x.elements, &y.elements),
        (Term::TermMap(x), Term::TermMap(y)) => entries_eq(&x.entries, &y.entries),
        _ => {
            proof {
                if let Term::InternalFun(f) = a {
                    assert(fun_view(*f) is OldFun || fun_view(*f) is NewFun);
                }
                if let Term::InternalFun(f) = b {
                    assert(fun_view(*f) is OldFun || fun_view(*f) is NewFun);
                }
            }
            false
        },
    }
}

} // verus!
