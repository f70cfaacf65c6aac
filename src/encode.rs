//! The encoder: writes the wire form of a term into a byte buffer.
use vstd::prelude::*;
use vstd::slice::{slice_subrange, slice_to_vec};
use vstd::utf8::*;
use crate::equal::term_eq;
use crate::error::{EncodeError, IoError, IoErrorKind};
use crate::term::{
    entry_views, fun_view, views, Atom, BigInteger, BitBinary, Binary, ExternalFun, FixInteger, Float,
    ImproperList, InternalFun, List, Pid, Port, Reference, Term, TermMap, TermV, Tuple,
};
use crate::wire::{
    bit_bytes, keys_distinct, canonical_magnitude, cat, strip_zeros, enc_atom, enc_big, enc_entries, enc_fix, enc_list, enc_message, enc_pid,
    enc_term, enc_terms, enc_port, enc_reference, enc_export, enc_binary, enc_bit_binary,
    enc_improper, enc_tuple, enc_map, enc_old_fun, enc_new_fun, lemma_enc_entries_step,
    lemma_enc_terms_step, sign_byte, tail_byte, u16_be, u32_be, u32_words, u64_be, all_bytes,
    byte_values, EncodeFault, Encoded, ATOM_EXT, ATOM_UTF8_EXT, BINARY_EXT, BIT_BINARY_EXT,
    EXPORT_EXT, FUN_EXT, INTEGER_EXT, LARGE_BIG_EXT, LARGE_TUPLE_EXT, LIST_EXT, MAP_EXT,
    NEWER_REFERENCE_EXT, NEW_FLOAT_EXT, NEW_FUN_EXT, NEW_PID_EXT, NEW_PORT_EXT, NIL_EXT,
    SMALL_BIG_EXT, SMALL_INTEGER_EXT, SMALL_TUPLE_EXT, STRING_EXT, V4_PORT_EXT, VERSION,
};

verus! {

/// `r` reports the outcome `e` of writing: on success `after` is `before`
/// followed by the encoding, on failure `r` names the same fault and carries the value
/// that could not be encoded.
pub open spec fn wrote(r: Result<(), EncodeError>, before: Seq<u8>, after: Seq<u8>, e: Encoded) -> bool {
    match e {
        Ok(b) => r is Ok && after == before + b,
        Err(f) => r matches Err(x) && x.fault() == f && x.carries_cause(),
    }
}

proof fn lemma_wrote_cat(
    r1: Result<(), EncodeError>,
    r2: Result<(), EncodeError>,
    s0: Seq<u8>,
    s1: Seq<u8>,
    s2: Seq<u8>,
    e1: Encoded,
    e2: Encoded,
)
    requires
        wrote(r1, s0, s1, e1),
        r1 is Ok,
        wrote(r2, s1, s2, e2),
    ensures
        wrote(r2, s0, s2, cat(e1, e2)),
{
    if let Ok(b1) = e1 {
        if let Ok(b2) = e2 {
            assert(s0 + (b1 + b2) =~= s0 + b1 + b2);
        }
    }
}

proof fn lemma_cat_ok_assoc(w: Seq<u8>, b: Seq<u8>, rest: Encoded)
    ensures
        cat(Ok(w), cat(Ok(b), rest)) == cat(Ok(w + b), rest),
{
    if let Ok(c) = rest {
        assert(w + (b + c) =~= w + b + c);
    }
}

/// The views of a vector of terms are the terms' views, in order.
pub proof fn lemma_views(ts: Seq<Term>)
    ensures
        views(ts).len() == ts.len(),
        forall|i: int| 0 <= i < ts.len() ==> #[trigger] views(ts)[i] == ts[i]@,
    decreases ts.len(),
{
    if ts.len() > 0 {
        lemma_views(ts.drop_last());
    }
}

/// A term's view is a fixed integer exactly when the term is one, with its value.
pub proof fn lemma_view_fix(t: Term)
    ensures
        (t@ is FixInteger) <==> (t is FixInteger),
        t matches Term::FixInteger(f) ==> t@ == TermV::FixInteger(f.value),
{
    if let Term::InternalFun(f) = t {
        assert(fun_view(f) is OldFun || fun_view(f) is NewFun);
    }
}

/// The views of a vector of entries are the entries' views, in order.
pub proof fn lemma_entry_views(es: Seq<(Term, Term)>)
    ensures
        entry_views(es).len() == es.len(),
        forall|i: int|
            0 <= i < es.len() ==> #[trigger] entry_views(es)[i] == (es[i].0@, es[i].1@),
    decreases es.len(),
{
    if es.len() > 0 {
        lemma_entry_views(es.drop_last());
    }
}

fn unrepresentable(what: &str) -> (r: EncodeError)
    ensures
        r.fault() == EncodeFault::Unrepresentable,
{
    EncodeError::Io(IoError { kind: IoErrorKind::InvalidData, message: what.to_string() })
}

pub fn write_u16(out: &mut Vec<u8>, v: u16)
    ensures
        final(out)@ == old(out)@ + u16_be(v),
{
    out.push((v >> 8u16) as u8);
    out.push(v as u8);
    assert(final(out)@ =~= old(out)@ + u16_be(v));
}

pub fn write_u32(out: &mut Vec<u8>, v: u32)
    ensures
        final(out)@ == old(out)@ + u32_be(v),
{
    out.push((v >> 24u32) as u8);
    out.push((v >> 16u32) as u8);
    out.push((v >> 8u32) as u8);
    out.push(v as u8);
    assert(final(out)@ =~= old(out)@ + u32_be(v));
}

pub fn write_u64(out: &mut Vec<u8>, v: u64)
    ensures
        final(out)@ == old(out)@ + u64_be(v),
{
    let ghost s0 = out@;
    write_u32(out, (v >> 32u64) as u32);
    write_u32(out, v as u32);
    assert(final(out)@ =~= s0 + u64_be(v));
}

pub fn write_bytes(out: &mut Vec<u8>, b: &[u8])
    ensures
        final(out)@ == old(out)@ + b@,
{
    let ghost s0 = out@;
    let mut i: usize = 0;
    while i < b.len()
        invariant
            i <= b@.len(),
            out@ == s0 + b@.subrange(0, i as int),
        decreases b@.len() - i,
    {
        out.push(b[i]);
        i = i + 1;
        assert(out@ =~= s0 + b@.subrange(0, i as int));
    }
    assert(b@.subrange(0, i as int) =~= b@);
}

pub fn encode_atom(out: &mut Vec<u8>, x: &Atom) -> (r: Result<(), EncodeError>)
    ensures
        wrote(r, old(out)@, final(out)@, enc_atom(x.name@)),
        r matches Err(e) ==> (e matches EncodeError::TooLongAtomName(a) && a.name@ == x.name@)
            && final(out)@ == old(out)@,
{
    let b = x.name.as_str().as_bytes();
    if b.len() > 0xFFFF {
        return Err(EncodeError::TooLongAtomName(Atom { name: x.name.clone() }));
    }
    let mut ascii = true;
    let mut i: usize = 0;
    while i < b.len()
        invariant
            i <= b@.len(),
            ascii == (forall|j: int| 0 <= j < i ==> b@[j] < 0x80),
        decreases b@.len() - i,
    {
        if b[i] >= 0x80 {
            ascii = false;
        }
        i = i + 1;
    }
    let ghost s0 = out@;
    if ascii {
        out.push(ATOM_EXT);
    } else {
        out.push(ATOM_UTF8_EXT);
    }
    write_u16(out, b.len() as u16);
    write_bytes(out, b);
    assert(out@ =~= s0 + (seq![if ascii { ATOM_EXT } else { ATOM_UTF8_EXT }] + u16_be(
        b@.len() as u16,
    ) + b@));
    Ok(())
}

pub fn encode_fix_integer(out: &mut Vec<u8>, x: &FixInteger)
    ensures
        final(out)@ == old(out)@ + enc_fix(x.value),
{
    let ghost s0 = out@;
    if 0 <= x.value && x.value <= 255 {
        out.push(SMALL_INTEGER_EXT);
        out.push(x.value as u8);
        assert(out@ =~= s0 + enc_fix(x.value));
    } else {
        out.push(INTEGER_EXT);
        write_u32(out, x.value as u32);
        assert(out@ =~= s0 + enc_fix(x.value));
    }
}

pub fn encode_big_integer(out: &mut Vec<u8>, x: &BigInteger) -> (r: Result<(), EncodeError>)
    ensures
        wrote(r, old(out)@, final(out)@, enc_big(x.negative, x.magnitude@)),
        r matches Err(e) ==> (e matches EncodeError::TooLargeInteger(b) && b.negative == x.negative
            && b.magnitude@ == x.magnitude@) && final(out)@ == old(out)@,
{
    let mut k = x.magnitude.len();
    assert(x.magnitude@.subrange(0, k as int) =~= x.magnitude@);
    while k > 0 && x.magnitude[k - 1] == 0
        invariant
            k <= x.magnitude@.len(),
            strip_zeros(x.magnitude@) == strip_zeros(x.magnitude@.subrange(0, k as int)),
        decreases k,
    {
        assert(x.magnitude@.subrange(0, k as int).drop_last() =~= x.magnitude@.subrange(
            0,
            k - 1,
        ));
        k = k - 1;
    }
    let ghost m = canonical_magnitude(x.magnitude@);
    proof {
        if k == 0 {
            assert(x.magnitude@.subrange(0, 0) =~= Seq::<u8>::empty());
        }
        assert(strip_zeros(x.magnitude@) == x.magnitude@.subrange(0, k as int));
    }
    let zero = k == 0;
    let n: usize = if zero { 1 } else { k };
    let sign: u8 = if x.negative && !zero { 1 } else { 0 };
    if n > 0xFFFF_FFFF {
        let magnitude = slice_to_vec(x.magnitude.as_slice());
        return Err(EncodeError::TooLargeInteger(BigInteger { negative: x.negative, magnitude }));
    }
    let ghost s0 = out@;
    let ghost head: Seq<u8>;
    if n <= 255 {
        out.push(SMALL_BIG_EXT);
        out.push(n as u8);
        out.push(sign);
        proof {
            head = seq![SMALL_BIG_EXT, n as u8, sign];
        }
    } else {
        out.push(LARGE_BIG_EXT);
        write_u32(out, n as u32);
        out.push(sign);
        proof {
            head = seq![LARGE_BIG_EXT] + u32_be(n as u32) + seq![sign];
        }
    }
    assert(out@ =~= s0 + head);
    let ghost s1 = out@;
    if zero {
        out.push(0);
        assert(out@ =~= s1 + m);
    } else {
        write_bytes(out, slice_subrange(x.magnitude.as_slice(), 0, k));
    }
    assert(out@ =~= s0 + (head + m));
    Ok(())
}

pub fn encode_float(out: &mut Vec<u8>, x: &Float)
    ensures
        final(out)@ == old(out)@ + (seq![NEW_FLOAT_EXT] + u64_be(x.bits)),
{
    let ghost s0 = out@;
    out.push(NEW_FLOAT_EXT);
    write_u64(out, x.bits);
    assert(out@ =~= s0 + (seq![NEW_FLOAT_EXT] + u64_be(x.bits)));
}

pub fn encode_pid(out: &mut Vec<u8>, x: &Pid) -> (r: Result<(), EncodeError>)
    ensures
        wrote(r, old(out)@, final(out)@, enc_pid(x.view())),
{
    let ghost s0 = out@;
    out.push(NEW_PID_EXT);
    let ghost s1 = out@;
    assert(s1 =~= s0 + seq![NEW_PID_EXT]);
    let r1 = encode_atom(out, &x.node);
    proof {
        lemma_wrote_cat(Ok(()), r1, s0, s1, out@, Ok(seq![NEW_PID_EXT]), enc_atom(x.node.name@));
    }
    r1?;
    let ghost s2 = out@;
    write_u32(out, x.id);
    write_u32(out, x.serial);
    write_u32(out, x.creation);
    assert(out@ =~= s2 + (u32_be(x.id) + u32_be(x.serial) + u32_be(x.creation)));
    proof {
        lemma_wrote_cat(
            r1,
            Ok(()),
            s0,
            s2,
            out@,
            cat(Ok(seq![NEW_PID_EXT]), enc_atom(x.node.name@)),
            Ok(u32_be(x.id) + u32_be(x.serial) + u32_be(x.creation)),
        );
    }
    Ok(())
}

pub fn encode_port(out: &mut Vec<u8>, x: &Port) -> (r: Result<(), EncodeError>)
    ensures
        wrote(
            r,
            old(out)@,
            final(out)@,
            enc_port(x.node.name@, x.id, x.creation),
        ),
{
    let ghost s0 = out@;
    let tag = if x.id <= 0xFFFF_FFFF { NEW_PORT_EXT } else { V4_PORT_EXT };
    out.push(tag);
    let ghost s1 = out@;
    assert(s1 =~= s0 + seq![tag]);
    let r1 = encode_atom(out, &x.node);
    proof {
        lemma_wrote_cat(Ok(()), r1, s0, s1, out@, Ok(seq![tag]), enc_atom(x.node.name@));
    }
    r1?;
    let ghost s2 = out@;
    let ghost tail: Seq<u8>;
    if x.id <= 0xFFFF_FFFF {
        write_u32(out, x.id as u32);
        proof {
            tail = u32_be(x.id as u32) + u32_be(x.creation);
        }
    } else {
        write_u64(out, x.id);
        proof {
            tail = u64_be(x.id) + u32_be(x.creation);
        }
    }
    write_u32(out, x.creation);
    assert(out@ =~= s2 + tail);
    proof {
        lemma_wrote_cat(
            r1,
            Ok(()),
            s0,
            s2,
            out@,
            cat(Ok(seq![tag]), enc_atom(x.node.name@)),
            Ok(tail),
        );
    }
    Ok(())
}

pub fn encode_reference(out: &mut Vec<u8>, x: &Reference) -> (r: Result<(), EncodeError>)
    ensures
        wrote(
            r,
            old(out)@,
            final(out)@,
            enc_reference(x.node.name@, x.id@, x.creation),
        ),
        x.id@.len() > 0xFFFF ==> (r matches Err(EncodeError::TooLargeReferenceId(y))
            && y.node.name@ == x.node.name@ && y.id@ == x.id@ && y.creation == x.creation)
            && final(out)@ == old(out)@,
{
    if x.id.len() > 0xFFFF {
        let node = Atom { name: x.node.name.clone() };
        let id = slice_to_vec(x.id.as_slice());
        return Err(EncodeError::TooLargeReferenceId(Reference { node, id, creation: x.creation }));
    }
    let ghost s0 = out@;
    out.push(NEWER_REFERENCE_EXT);
    write_u16(out, x.id.len() as u16);
    let ghost s1 = out@;
    assert(s1 =~= s0 + (seq![NEWER_REFERENCE_EXT] + u16_be(x.id@.len() as u16)));
    let r1 = encode_atom(out, &x.node);
    proof {
        lemma_wrote_cat(
            Ok(()),
            r1,
            s0,
            s1,
            out@,
            Ok(seq![NEWER_REFERENCE_EXT] + u16_be(x.id@.len() as u16)),
            enc_atom(x.node.name@),
        );
    }
    r1?;
    let ghost s2 = out@;
    write_u32(out, x.creation);
    let mut i: usize = 0;
    while i < x.id.len()
        invariant
            i <= x.id@.len(),
            out@ == s2 + u32_be(x.creation) + u32_words(x.id@.subrange(0, i as int)),
        decreases x.id@.len() - i,
    {
        let ghost before = out@;
        write_u32(out, x.id[i]);
        assert(x.id@.subrange(0, i + 1).drop_last() =~= x.id@.subrange(0, i as int));
        i = i + 1;
    }
    assert(x.id@.subrange(0, i as int) =~= x.id@);
    assert(out@ =~= s2 + (u32_be(x.creation) + u32_words(x.id@)));
    proof {
        lemma_wrote_cat(
            r1,
            Ok(()),
            s0,
            s2,
            out@,
            cat(Ok(seq![NEWER_REFERENCE_EXT] + u16_be(x.id@.len() as u16)), enc_atom(x.node.name@)),
            Ok(u32_be(x.creation) + u32_words(x.id@)),
        );
    }
    Ok(())
}

pub fn encode_external_fun(out: &mut Vec<u8>, x: &ExternalFun) -> (r: Result<(), EncodeError>)
    ensures
        wrote(
            r,
            old(out)@,
            final(out)@,
            enc_export(x.module.name@, x.function.name@, x.arity),
        ),
{
    let ghost s0 = out@;
    out.push(EXPORT_EXT);
    let ghost s1 = out@;
    assert(s1 =~= s0 + seq![EXPORT_EXT]);
    let r1 = encode_atom(out, &x.module);
    proof {
        lemma_wrote_cat(Ok(()), r1, s0, s1, out@, Ok(seq![EXPORT_EXT]), enc_atom(x.module.name@));
    }
    r1?;
    let ghost s2 = out@;
    let r2 = encode_atom(out, &x.function);
    proof {
        lemma_wrote_cat(
            r1,
            r2,
            s0,
            s2,
            out@,
            cat(Ok(seq![EXPORT_EXT]), enc_atom(x.module.name@)),
            enc_atom(x.function.name@),
        );
    }
    r2?;
    let ghost s3 = out@;
    encode_fix_integer(out, &FixInteger { value: x.arity as i32 });
    proof {
        lemma_wrote_cat(
            r2,
            Ok(()),
            s0,
            s3,
            out@,
            cat(cat(Ok(seq![EXPORT_EXT]), enc_atom(x.module.name@)), enc_atom(x.function.name@)),
            Ok(enc_fix(x.arity as i32)),
        );
    }
    Ok(())
}

pub fn encode_binary(out: &mut Vec<u8>, x: &Binary) -> (r: Result<(), EncodeError>)
    ensures
        wrote(r, old(out)@, final(out)@, enc_binary(x.bytes@)),
{
    if x.bytes.len() > 0xFFFF_FFFF {
        return Err(unrepresentable("binary too long"));
    }
    let ghost s0 = out@;
    out.push(BINARY_EXT);
    write_u32(out, x.bytes.len() as u32);
    write_bytes(out, x.bytes.as_slice());
    assert(out@ =~= s0 + (seq![BINARY_EXT] + u32_be(x.bytes@.len() as u32) + x.bytes@));
    Ok(())
}

pub fn encode_bit_binary(out: &mut Vec<u8>, x: &BitBinary) -> (r: Result<(), EncodeError>)
    ensures
        wrote(
            r,
            old(out)@,
            final(out)@,
            enc_bit_binary(x.bytes@, x.tail_bits_size),
        ),
{
    if x.bytes.len() > 0xFFFF_FFFF || x.tail_bits_size < 1 || x.tail_bits_size > 8 {
        return Err(unrepresentable("bit string too long or with a tail size outside 1..=8"));
    }
    let ghost s0 = out@;
    out.push(BIT_BINARY_EXT);
    write_u32(out, x.bytes.len() as u32);
    out.push(x.tail_bits_size);
    let ghost s1 = out@;
    let n = x.bytes.len();
    if n > 0 {
        let mut i: usize = 0;
        while i < n - 1
            invariant
                n == x.bytes@.len(),
                n > 0,
                i <= n - 1,
                out@ == s1 + x.bytes@.subrange(0, i as int),
            decreases n - 1 - i,
        {
            out.push(x.bytes[i]);
            i = i + 1;
            assert(out@ =~= s1 + x.bytes@.subrange(0, i as int));
        }
        let shift: u8 = 8 - x.tail_bits_size;
        let last: u8 = x.bytes[n - 1] << shift;
        out.push(last);
        assert(last == tail_byte(x.bytes@.last(), x.tail_bits_size));
        assert(out@ =~= s1 + bit_bytes(x.bytes@, x.tail_bits_size));
    } else {
        assert(out@ =~= s1 + bit_bytes(x.bytes@, x.tail_bits_size));
    }
    assert(out@ =~= s0 + (seq![BIT_BINARY_EXT] + u32_be(x.bytes@.len() as u32) + seq![
        x.tail_bits_size,
    ] + bit_bytes(x.bytes@, x.tail_bits_size)));
    Ok(())
}

proof fn lemma_cat_empty(e: Encoded)
    ensures
        cat(Ok(Seq::empty()), e) == e,
{
    if let Ok(b) = e {
        assert(Seq::<u8>::empty() + b =~= b);
    }
}

/// Writes the terms one after the other.
pub fn encode_terms(out: &mut Vec<u8>, ts: &Vec<Term>) -> (r: Result<(), EncodeError>)
    ensures
        wrote(r, old(out)@, final(out)@, enc_terms(views(ts@), 0)),
    decreases ts, 0int,
{
    let ghost vs = views(ts@);
    proof {
        lemma_views(ts@);
        lemma_cat_empty(enc_terms(vs, 0));
    }
    let ghost s0 = out@;
    let ghost mut written: Seq<u8> = Seq::empty();
    let mut i: usize = 0;
    while i < ts.len()
        invariant
            i <= ts@.len(),
            vs.len() == ts@.len(),
            forall|j: int| 0 <= j < ts@.len() ==> #[trigger] vs[j] == ts@[j]@,
            out@ == s0 + written,
            s0 == old(out)@,
            vs == views(ts@),
            enc_terms(vs, 0) == cat(Ok(written), enc_terms(vs, i as int)),
        decreases ts@.len() - i,
    {
        let ghost before = out@;
        let r1 = encode_term(out, &ts[i]);
        assert(vs[i as int] == ts@[i as int]@);
        proof {
            lemma_enc_terms_step(vs, i as int);
        }
        if r1.is_err() {
            proof {
                let f = r1->Err_0.fault();
                assert(enc_term(vs[i as int]) == Err::<Seq<u8>, EncodeFault>(f));
                assert(enc_terms(vs, i as int) == Err::<Seq<u8>, EncodeFault>(f));
                assert(enc_terms(vs, 0) == Err::<Seq<u8>, EncodeFault>(f));
                assert(wrote(r1, s0, out@, enc_terms(vs, 0)));
            }
            return r1;
        }
        proof {
            let b = enc_term(vs[i as int])->Ok_0;
            assert(out@ == before + b);
            lemma_cat_ok_assoc(written, b, enc_terms(vs, i + 1));
            assert(s0 + written + b =~= s0 + (written + b));
            written = written + b;
        }
        i = i + 1;
    }
    proof {
        lemma_enc_terms_step(vs, i as int);
        assert(written + Seq::<u8>::empty() =~= written);
    }
    Ok(())
}

/// Writes one entry, key then value.
pub fn encode_entry(out: &mut Vec<u8>, e: &(Term, Term)) -> (r: Result<(), EncodeError>)
    ensures
        wrote(r, old(out)@, final(out)@, cat(enc_term(e.0@), enc_term(e.1@))),
    decreases e, 0int,
{
    let ghost s0 = out@;
    let r1 = encode_term(out, &e.0);
    r1?;
    let ghost s1 = out@;
    let r2 = encode_term(out, &e.1);
    proof {
        lemma_wrote_cat(r1, r2, s0, s1, out@, enc_term(e.0@), enc_term(e.1@));
    }
    r2
}

/// Writes the entries one after the other, key then value.
pub fn encode_entries(out: &mut Vec<u8>, es: &Vec<(Term, Term)>) -> (r: Result<(), EncodeError>)
    ensures
        wrote(r, old(out)@, final(out)@, enc_entries(entry_views(es@), 0)),
    decreases es, 0int,
{
    let ghost vs = entry_views(es@);
    proof {
        lemma_entry_views(es@);
        lemma_cat_empty(enc_entries(vs, 0));
    }
    let ghost s0 = out@;
    let ghost mut written: Seq<u8> = Seq::empty();
    let mut i: usize = 0;
    while i < es.len()
        invariant
            i <= es@.len(),
            vs.len() == es@.len(),
            forall|j: int| 0 <= j < es@.len() ==> #[trigger] vs[j] == (es@[j].0@, es@[j].1@),
            out@ == s0 + written,
            s0 == old(out)@,
            vs == entry_views(es@),
            enc_entries(vs, 0) == cat(Ok(written), enc_entries(vs, i as int)),
        decreases es@.len() - i,
    {
        let ghost before = out@;
        assert(vs[i as int] == (es@[i as int].0@, es@[i as int].1@));
        proof {
            lemma_enc_entries_step(vs, i as int);
        }
        let r1 = encode_entry(out, &es[i]);
        if let Err(e) = r1 {
            assert(cat(enc_term(vs[i as int].0), enc_term(vs[i as int].1)) matches Err(f) && f
                == e.fault());
            assert(enc_entries(vs, i as int) == Err::<Seq<u8>, EncodeFault>(e.fault()));
            assert(enc_entries(vs, 0) == Err::<Seq<u8>, EncodeFault>(e.fault()));
            return Err(e);
        }
        proof {
            let a = cat(enc_term(vs[i as int].0), enc_term(vs[i as int].1))->Ok_0;
            assert(out@ == before + a);
            lemma_cat_ok_assoc(written, a, enc_entries(vs, i + 1));
            assert(s0 + written + a =~= s0 + (written + a));
            written = written + a;
        }
        i = i + 1;
    }
    proof {
        lemma_enc_entries_step(vs, i as int);
        assert(written + Seq::<u8>::empty() =~= written);
    }
    Ok(())
}

pub fn encode_list(out: &mut Vec<u8>, x: &List) -> (r: Result<(), EncodeError>)
    ensures
        wrote(r, old(out)@, final(out)@, enc_list(views(x.elements@))),
    decreases x, 0int,
{
    let ghost vs = views(x.elements@);
    proof {
        lemma_views(x.elements@);
    }
    let ghost s0 = out@;
    let n = x.elements.len();
    let mut all = 0 < n && n <= 0xFFFF;
    let mut i: usize = 0;
    while all && i < n
        invariant
            n == x.elements@.len(),
            vs.len() == n,
            forall|j: int| 0 <= j < n ==> #[trigger] vs[j] == x.elements@[j]@,
            i <= n,
            all ==> 0 < n <= 0xFFFF,
            all ==> forall|j: int|
                0 <= j < i ==> (#[trigger] vs[j] matches TermV::FixInteger(v) && 0 <= v < 256),
            !all ==> !(0 < n <= 0xFFFF && all_bytes(vs)),
        decreases n - i,
    {
        match &x.elements[i] {
            Term::FixInteger(f) => {
                assert(vs[i as int] == x.elements@[i as int]@);
                assert(vs[i as int] == TermV::FixInteger(f.value));
                if f.value < 0 || f.value >= 256 {
                    all = false;
                }
            },
            _ => {
                all = false;
                assert(vs[i as int] == x.elements@[i as int]@);
                proof {
                    lemma_view_fix(x.elements@[i as int]);
                }
            },
        }
        i = i + 1;
    }
    if all {
        assert(all_bytes(vs));
        out.push(STRING_EXT);
        write_u16(out, n as u16);
        let ghost s1 = out@;
        let mut k: usize = 0;
        while k < n
            invariant
                n == x.elements@.len(),
                vs.len() == n,
                forall|j: int| 0 <= j < n ==> #[trigger] vs[j] == x.elements@[j]@,
                all_bytes(vs),
                k <= n,
                out@ == s1 + byte_values(vs).subrange(0, k as int),
            decreases n - k,
        {
            assert(vs[k as int] == x.elements@[k as int]@);
            proof {
                lemma_view_fix(x.elements@[k as int]);
            }
            match &x.elements[k] {
                Term::FixInteger(f) => {
                    assert(vs[k as int] == TermV::FixInteger(f.value));
                    out.push(f.value as u8);
                },
                _ => {
                },
            }
            k = k + 1;
            assert(out@ =~= s1 + byte_values(vs).subrange(0, k as int));
        }
        assert(byte_values(vs).subrange(0, n as int) =~= byte_values(vs));
        assert(out@ =~= s0 + (seq![STRING_EXT] + u16_be(n as u16) + byte_values(vs)));
        Ok(())
    } else if n == 0 {
        out.push(NIL_EXT);
        assert(out@ =~= s0 + seq![NIL_EXT]);
        Ok(())
    } else if n > 0xFFFF_FFFF {
        Err(unrepresentable("list too long"))
    } else {
        out.push(LIST_EXT);
        write_u32(out, n as u32);
        let ghost s1 = out@;
        assert(s1 =~= s0 + (seq![LIST_EXT] + u32_be(n as u32)));
        let r1 = encode_terms(out, &x.elements);
        proof {
            lemma_wrote_cat(
                Ok(()),
                r1,
                s0,
                s1,
                out@,
                Ok(seq![LIST_EXT] + u32_be(n as u32)),
                enc_terms(vs, 0),
            );
        }
        r1?;
        let ghost s2 = out@;
        out.push(NIL_EXT);
        assert(out@ =~= s2 + seq![NIL_EXT]);
        proof {
            lemma_wrote_cat(
                r1,
                Ok(()),
                s0,
                s2,
                out@,
                cat(Ok(seq![LIST_EXT] + u32_be(n as u32)), enc_terms(vs, 0)),
                Ok(seq![NIL_EXT]),
            );
        }
        Ok(())
    }
}

pub fn encode_improper_list(out: &mut Vec<u8>, x: &ImproperList) -> (r: Result<(), EncodeError>)
    ensures
        wrote(r, old(out)@, final(out)@, enc_improper(term_of_improper(x))),
    decreases x, 0int,
{
    let ghost vs = views(x.elements@);
    proof {
        lemma_views(x.elements@);
    }
    let ghost s0 = out@;
    let n = x.elements.len();
    if n > 0xFFFF_FFFF {
        return Err(unrepresentable("list too long"));
    }
    out.push(LIST_EXT);
    write_u32(out, n as u32);
    let ghost s1 = out@;
    assert(s1 =~= s0 + (seq![LIST_EXT] + u32_be(n as u32)));
    let r1 = encode_terms(out, &x.elements);
    proof {
        lemma_wrote_cat(
            Ok(()),
            r1,
            s0,
            s1,
            out@,
            Ok(seq![LIST_EXT] + u32_be(n as u32)),
            enc_terms(vs, 0),
        );
    }
    r1?;
    let ghost s2 = out@;
    let r2 = encode_term(out, &x.last);
    proof {
        lemma_wrote_cat(
            r1,
            r2,
            s0,
            s2,
            out@,
            cat(Ok(seq![LIST_EXT] + u32_be(n as u32)), enc_terms(vs, 0)),
            enc_term((*x.last)@),
        );
    }
    r2
}

/// The view of an improper list as a term.
pub open spec fn term_of_improper(x: &ImproperList) -> TermV {
    TermV::ImproperList(views(x.elements@), Box::new((*x.last)@))
}

pub fn encode_tuple(out: &mut Vec<u8>, x: &Tuple) -> (r: Result<(), EncodeError>)
    ensures
        wrote(r, old(out)@, final(out)@, enc_tuple(views(x.elements@))),
    decreases x, 0int,
{
    let ghost vs = views(x.elements@);
    proof {
        lemma_views(x.elements@);
    }
    let ghost s0 = out@;
    let n = x.elements.len();
    let ghost head: Seq<u8>;
    if n < 0x100 {
        out.push(SMALL_TUPLE_EXT);
        out.push(n as u8);
        proof {
            head = seq![SMALL_TUPLE_EXT, n as u8];
        }
    } else if n > 0xFFFF_FFFF {
        return Err(unrepresentable("tuple too long"));
    } else {
        out.push(LARGE_TUPLE_EXT);
        write_u32(out, n as u32);
        proof {
            head = seq![LARGE_TUPLE_EXT] + u32_be(n as u32);
        }
    }
    let ghost s1 = out@;
    assert(s1 =~= s0 + head);
    let r1 = encode_terms(out, &x.elements);
    proof {
        lemma_wrote_cat(Ok(()), r1, s0, s1, out@, Ok(head), enc_terms(vs, 0));
    }
    r1
}

/// Whether no two entries have equal keys.
pub fn distinct_keys(es: &Vec<(Term, Term)>) -> (r: bool)
    ensures
        r == keys_distinct(entry_views(es@)),
{
    let ghost vs = entry_views(es@);
    proof {
        lemma_entry_views(es@);
    }
    let n = es.len();
    let mut i: usize = 0;
    while i < n
        invariant
            n == es@.len(),
            vs == entry_views(es@),
            vs.len() == n,
            forall|j: int| 0 <= j < n ==> #[trigger] vs[j] == (es@[j].0@, es@[j].1@),
            i <= n,
            forall|a: int, b: int| 0 <= a < i && a < b < n ==> vs[a].0 != vs[b].0,
        decreases n - i,
    {
        let mut j: usize = i + 1;
        while j < n
            invariant
                n == es@.len(),
                vs == entry_views(es@),
                vs.len() == n,
                forall|j: int| 0 <= j < n ==> #[trigger] vs[j] == (es@[j].0@, es@[j].1@),
                i < n,
                i + 1 <= j <= n,
                forall|a: int, b: int| 0 <= a < i && a < b < n ==> vs[a].0 != vs[b].0,
                forall|b: int| i < b < j ==> vs[i as int].0 != vs[b].0,
            decreases n - j,
        {
            assert(vs[i as int] == (es@[i as int].0@, es@[i as int].1@));
            assert(vs[j as int] == (es@[j as int].0@, es@[j as int].1@));
            if term_eq(&es[i].0, &es[j].0) {
                assert(vs[i as int].0 == vs[j as int].0);
                assert(!keys_distinct(vs));
                return false;
            }
            j = j + 1;
        }
        i = i + 1;
    }
    true
}

pub fn encode_map(out: &mut Vec<u8>, x: &TermMap) -> (r: Result<(), EncodeError>)
    ensures
        wrote(r, old(out)@, final(out)@, enc_map(entry_views(x.entries@))),
    decreases x, 0int,
{
    let ghost vs = entry_views(x.entries@);
    proof {
        lemma_entry_views(x.entries@);
    }
    let ghost s0 = out@;
    let n = x.entries.len();
    if n > 0xFFFF_FFFF {
        return Err(unrepresentable("map too large"));
    }
    if !distinct_keys(&x.entries) {
        return Err(unrepresentable("map with two equal keys"));
    }
    out.push(MAP_EXT);
    write_u32(out, n as u32);
    let ghost s1 = out@;
    assert(s1 =~= s0 + (seq![MAP_EXT] + u32_be(n as u32)));
    let r1 = encode_entries(out, &x.entries);
    proof {
        lemma_wrote_cat(
            Ok(()),
            r1,
            s0,
            s1,
            out@,
            Ok(seq![MAP_EXT] + u32_be(n as u32)),
            enc_entries(vs, 0),
        );
    }
    r1
}

/// Writes a term, without the version byte.
pub fn encode_term(out: &mut Vec<u8>, t: &Term) -> (r: Result<(), EncodeError>)
    ensures
        wrote(r, old(out)@, final(out)@, enc_term(t@)),
        (t is Atom && encode_utf8(t->Atom_0.name@).len() > 0xFFFF) ==> (r matches Err(
            EncodeError::TooLongAtomName(b),
        ) && b.name@ == t->Atom_0.name@),
    decreases t, 0int,
{
    match t {
        Term::Atom(x) => encode_atom(out, x),
        Term::FixInteger(x) => {
            encode_fix_integer(out, x);
            Ok(())
        },
        Term::BigInteger(x) => encode_big_integer(out, x),
        Term::Float(x) => {
            encode_float(out, x);
            Ok(())
        },
        Term::Pid(x) => encode_pid(out, x),
        Term::Port(x) => encode_port(out, x),
        Term::Reference(x) => encode_reference(out, x),
        Term::ExternalFun(x) => encode_external_fun(out, x),
        Term::InternalFun(x) => encode_internal_fun(out, x),
        Term::Binary(x) => encode_binary(out, x),
        Term::BitBinary(x) => encode_bit_binary(out, x),
        Term::List(x) => encode_list(out, x),
        Term::ImproperList(x) => encode_improper_list(out, x),
        Term::Tuple(x) => encode_tuple(out, x),
        Term::TermMap(x) => encode_map(out, x),
    }
}

pub fn encode_internal_fun(out: &mut Vec<u8>, x: &InternalFun) -> (r: Result<(), EncodeError>)
    ensures
        wrote(r, old(out)@, final(out)@, enc_term(fun_view(*x))),
    decreases x, 0int,
{
    match x {
        InternalFun::Old { module, pid, free_vars, index, uniq } => encode_old_fun(
            out,
            module,
            pid,
            free_vars,
            *index,
            *uniq,
        ),
        InternalFun::New { module, arity, pid, free_vars, index, uniq, old_index, old_uniq } =>
            encode_new_fun(out, module, *arity, pid, free_vars, *index, uniq, *old_index, *old_uniq),
    }
}

pub fn encode_old_fun(
    out: &mut Vec<u8>,
    module: &Atom,
    pid: &Pid,
    free_vars: &Vec<Term>,
    index: i32,
    uniq: i32,
) -> (r: Result<(), EncodeError>)
    ensures
        wrote(
            r,
            old(out)@,
            final(out)@,
            enc_old_fun(module.name@, pid.view(), views(free_vars@), index, uniq),
        ),
    decreases free_vars, 1int,
{
    let ghost vs = views(free_vars@);
    proof {
        lemma_views(free_vars@);
    }
    let n = free_vars.len();
    if n > 0xFFFF_FFFF {
        return Err(unrepresentable("too many free variables"));
    }
    let ghost s0 = out@;
    out.push(FUN_EXT);
    write_u32(out, n as u32);
    let ghost s1 = out@;
    let ghost e0: Encoded = Ok(seq![FUN_EXT] + u32_be(n as u32));
    assert(s1 =~= s0 + (seq![FUN_EXT] + u32_be(n as u32)));
    let r1 = encode_pid(out, pid);
    proof {
        lemma_wrote_cat(Ok(()), r1, s0, s1, out@, e0, enc_pid(pid.view()));
    }
    r1?;
    let ghost s2 = out@;
    let r2 = encode_atom(out, module);
    proof {
        lemma_wrote_cat(r1, r2, s0, s2, out@, cat(e0, enc_pid(pid.view())), enc_atom(module.name@));
    }
    r2?;
    let ghost s3 = out@;
    let ghost e2 = cat(cat(e0, enc_pid(pid.view())), enc_atom(module.name@));
    encode_fix_integer(out, &FixInteger { value: index });
    encode_fix_integer(out, &FixInteger { value: uniq });
    assert(out@ =~= s3 + (enc_fix(index) + enc_fix(uniq)));
    proof {
        lemma_wrote_cat(r2, Ok(()), s0, s3, out@, e2, Ok(enc_fix(index) + enc_fix(uniq)));
    }
    let ghost s4 = out@;
    let r4 = encode_terms(out, free_vars);
    proof {
        lemma_wrote_cat(
            Ok(()),
            r4,
            s0,
            s4,
            out@,
            cat(e2, Ok(enc_fix(index) + enc_fix(uniq))),
            enc_terms(vs, 0),
        );
    }
    r4

}

pub fn encode_new_fun(
    out: &mut Vec<u8>,
    module: &Atom,
    arity: u8,
    pid: &Pid,
    free_vars: &Vec<Term>,
    index: u32,
    uniq: &[u8; 16],
    old_index: i32,
    old_uniq: i32,
) -> (r: Result<(), EncodeError>)
    ensures
        wrote(
            r,
            old(out)@,
            final(out)@,
            enc_new_fun(
                module.name@,
                arity,
                pid.view(),
                views(free_vars@),
                index,
                uniq@,
                old_index,
                old_uniq,
            ),
        ),
    decreases free_vars, 1int,
{
    let ghost vs = views(free_vars@);
    proof {
        lemma_views(free_vars@);
    }
    let n = free_vars.len();
    if n > 0xFFFF_FFFF {
        return Err(unrepresentable("too many free variables"));
    }
    let mut buf: Vec<u8> = Vec::new();
    buf.push(arity);
    write_bytes(&mut buf, uniq.as_slice());
    write_u32(&mut buf, index);
    write_u32(&mut buf, n as u32);
    let ghost e0: Encoded = Ok(seq![arity] + uniq@ + u32_be(index) + u32_be(n as u32));
    let ghost s1 = buf@;
    assert(s1 =~= Seq::<u8>::empty() + (seq![arity] + uniq@ + u32_be(index) + u32_be(
        n as u32,
    )));
    let r1 = encode_atom(&mut buf, module);
    proof {
        lemma_wrote_cat(Ok(()), r1, Seq::empty(), s1, buf@, e0, enc_atom(module.name@));
    }
    r1?;
    let ghost e1 = cat(e0, enc_atom(module.name@));
    let ghost s2 = buf@;
    encode_fix_integer(&mut buf, &FixInteger { value: old_index });
    encode_fix_integer(&mut buf, &FixInteger { value: old_uniq });
    assert(buf@ =~= s2 + (enc_fix(old_index) + enc_fix(old_uniq)));
    proof {
        lemma_wrote_cat(
            r1,
            Ok(()),
            Seq::empty(),
            s2,
            buf@,
            e1,
            Ok(enc_fix(old_index) + enc_fix(old_uniq)),
        );
    }
    let ghost e2 = cat(e1, Ok(enc_fix(old_index) + enc_fix(old_uniq)));
    let ghost s3 = buf@;
    let r3 = encode_pid(&mut buf, pid);
    proof {
        lemma_wrote_cat(Ok(()), r3, Seq::empty(), s3, buf@, e2, enc_pid(pid.view()));
    }
    r3?;
    let ghost e3 = cat(e2, enc_pid(pid.view()));
    let ghost s4 = buf@;
    let r4 = encode_terms(&mut buf, free_vars);
    proof {
        lemma_wrote_cat(r3, r4, Seq::empty(), s4, buf@, e3, enc_terms(vs, 0));
    }
    r4?;
    assert(Seq::<u8>::empty() + buf@ =~= buf@);
    if buf.len() > 0xFFFF_FFFF - 4 {
        return Err(unrepresentable("fun too large"));
    }
    let ghost s0 = out@;
    out.push(NEW_FUN_EXT);
    write_u32(out, (buf.len() + 4) as u32);
    write_bytes(out, buf.as_slice());
    assert(out@ =~= s0 + (seq![NEW_FUN_EXT] + u32_be((buf@.len() + 4) as u32) + buf@));
    Ok(())

}

/// Writes whole messages: the version byte, then one term.
pub struct Encoder {
    writer: Vec<u8>,
}

impl Encoder {
    /// An encoder that appends to `writer`.
    pub fn new(writer: Vec<u8>) -> (r: Encoder)
        ensures
            r.output() == writer@,
    {
        Encoder { writer }
    }

    /// What the encoder has written so far.
    pub closed spec fn output(&self) -> Seq<u8> {
        self.writer@
    }

    /// Encodes `term` after the bytes already in the buffer and hands the buffer back.
    pub fn encode(self, term: &Term) -> (r: Result<Vec<u8>, EncodeError>)
        ensures
            match enc_message(term@) {
                Ok(b) => r matches Ok(v) && v@ == self.output() + b,
                Err(f) => r matches Err(e) && e.fault() == f && e.carries_cause(),
            },
            (term is Atom && encode_utf8(term->Atom_0.name@).len() > 0xFFFF) ==> (r matches Err(
                EncodeError::TooLongAtomName(b),
            ) && b.name@ == term->Atom_0.name@),
    {
        let mut out = self.writer;
        let ghost s0 = out@;
        out.push(VERSION);
        let ghost s1 = out@;
        assert(s1 =~= s0 + seq![VERSION]);
        let r1 = encode_term(&mut out, term);
        proof {
            lemma_wrote_cat(Ok(()), r1, s0, s1, out@, Ok(seq![VERSION]), enc_term(term@));
        }
        match r1 {
            Ok(()) => Ok(out),
            Err(e) => Err(e),
        }
    }
}

impl Term {
    /// Encodes the term as a whole message.
    pub fn encode(&self) -> (r: Result<Vec<u8>, EncodeError>)
        ensures
            match enc_message(self@) {
                Ok(b) => r matches Ok(v) && v@ == b,
                Err(f) => r matches Err(e) && e.fault() == f && e.carries_cause(),
            },
            (self is Atom && encode_utf8(self->Atom_0.name@).len() > 0xFFFF) ==> (r matches Err(
                EncodeError::TooLongAtomName(b),
            ) && b.name@ == self->Atom_0.name@),
    {
        let r = Encoder::new(Vec::new()).encode(self);
        proof {
            if let Ok(b) = enc_message(self@) {
                assert(Seq::<u8>::empty() + b =~= b);
            }
        }
        r
    }
}

} // verus!
