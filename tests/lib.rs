use eetf::{
    Atom, BigInteger, BitBinary, Binary, DecodeError, Decoder, EncodeError, ExternalFun,
    FixInteger, Float, ImproperList, InternalFun, IoErrorKind, List, Pid, Port, Reference, Term,
    TermMap, Tuple,
};

fn encode(term: Term) -> Vec<u8> {
    term.encode().unwrap()
}

fn decode(bytes: &[u8]) -> Term {
    Term::decode(bytes).unwrap()
}

fn into_atom(t: Term) -> Result<Atom, Term> {
    match t {
        Term::Atom(x) => Ok(x),
        t => Err(t),
    }
}

fn into_fix_integer(t: Term) -> Result<FixInteger, Term> {
    match t {
        Term::FixInteger(x) => Ok(x),
        t => Err(t),
    }
}

fn into_big_integer(t: Term) -> Result<BigInteger, Term> {
    match t {
        Term::BigInteger(x) => Ok(x),
        t => Err(t),
    }
}

fn into_float(t: Term) -> Result<Float, Term> {
    match t {
        Term::Float(x) => Ok(x),
        t => Err(t),
    }
}

fn into_pid(t: Term) -> Result<Pid, Term> {
    match t {
        Term::Pid(x) => Ok(x),
        t => Err(t),
    }
}

fn into_port(t: Term) -> Result<Port, Term> {
    match t {
        Term::Port(x) => Ok(x),
        t => Err(t),
    }
}

fn into_reference(t: Term) -> Result<Reference, Term> {
    match t {
        Term::Reference(x) => Ok(x),
        t => Err(t),
    }
}

fn into_external_fun(t: Term) -> Result<ExternalFun, Term> {
    match t {
        Term::ExternalFun(x) => Ok(x),
        t => Err(t),
    }
}

fn into_internal_fun(t: Term) -> Result<InternalFun, Term> {
    match t {
        Term::InternalFun(x) => Ok(x),
        t => Err(t),
    }
}

fn into_binary(t: Term) -> Result<Binary, Term> {
    match t {
        Term::Binary(x) => Ok(x),
        t => Err(t),
    }
}

fn into_bit_binary(t: Term) -> Result<BitBinary, Term> {
    match t {
        Term::BitBinary(x) => Ok(x),
        t => Err(t),
    }
}

fn into_list(t: Term) -> Result<List, Term> {
    match t {
        Term::List(x) => Ok(x),
        t => Err(t),
    }
}

fn into_improper_list(t: Term) -> Result<ImproperList, Term> {
    match t {
        Term::ImproperList(x) => Ok(x),
        t => Err(t),
    }
}

fn into_tuple(t: Term) -> Result<Tuple, Term> {
    match t {
        Term::Tuple(x) => Ok(x),
        t => Err(t),
    }
}

fn float(v: f64) -> Float {
    Float::from_bits(v.to_bits()).unwrap()
}

#[test]
fn atom_test() {
    // Decode
    assert_eq!(Ok(Atom::from("foo")), into_atom(decode(&[131, 100, 0, 3, 102, 111, 111]))); // ATOM_EXT
    assert_eq!(Ok(Atom::from("foo")), into_atom(decode(&[131, 115, 3, 102, 111, 111]))); // SMALL_ATOM_EXT
    assert_eq!(Ok(Atom::from("foo")), into_atom(decode(&[131, 118, 0, 3, 102, 111, 111]))); // ATOM_UTF8_EXT
    assert_eq!(Ok(Atom::from("foo")), into_atom(decode(&[131, 119, 3, 102, 111, 111]))); // SMALL_ATOM_UTF8_EXT

    // Encode
    assert_eq!(vec![131, 100, 0, 3, 102, 111, 111], encode(Term::from(Atom::from("foo"))));
}

#[test]
fn integer_test() {
    // Decode
    assert_eq!(Ok(FixInteger::from(10)), into_fix_integer(decode(&[131, 97, 10]))); // SMALL_INTEGER_EXT
    assert_eq!(Ok(FixInteger::from(1000)), into_fix_integer(decode(&[131, 98, 0, 0, 3, 232]))); // INTEGER_EXT
    assert_eq!(
        Ok(FixInteger::from(-1000)),
        into_fix_integer(decode(&[131, 98, 255, 255, 252, 24]))
    ); // INTEGER_EXT
    assert_eq!(Ok(BigInteger::from(0)), into_big_integer(decode(&[131, 110, 1, 0, 0]))); // SMALL_BIG_EXT
    assert_eq!(Ok(BigInteger::from(513)), into_big_integer(decode(&[131, 110, 2, 0, 1, 2]))); // SMALL_BIG_EXT
    assert_eq!(Ok(BigInteger::from(-513)), into_big_integer(decode(&[131, 110, 2, 1, 1, 2]))); // SMALL_BIG_EXT
    assert_eq!(
        Ok(BigInteger::from(513)),
        into_big_integer(decode(&[131, 111, 0, 0, 0, 2, 0, 1, 2]))
    ); // LARGE_BIG_EXT

    // Encode
    assert_eq!(vec![131, 97, 0], encode(Term::from(FixInteger::from(0))));
    assert_eq!(vec![131, 98, 255, 255, 255, 255], encode(Term::from(FixInteger::from(-1))));
    assert_eq!(vec![131, 98, 0, 0, 3, 232], encode(Term::from(FixInteger::from(1000))));
    assert_eq!(vec![131, 110, 1, 0, 0], encode(Term::from(BigInteger::from(0))));
    assert_eq!(vec![131, 110, 1, 1, 10], encode(Term::from(BigInteger::from(-10))));
    assert_eq!(
        vec![131, 110, 5, 0, 0, 228, 11, 84, 2],
        encode(Term::from(BigInteger::from(10000000000i64)))
    );
}

#[test]
fn float_test() {
    // Decode
    assert_eq!(
        Ok(float(123.456)),
        // NEW_FLOAT_EXT
        into_float(decode(&[131, 70, 64, 94, 221, 47, 26, 159, 190, 119]))
    );
    assert_eq!(
        Ok(float(-123.456)),
        // NEW_FLOAT_EXT
        into_float(decode(&[131, 70, 192, 94, 221, 47, 26, 159, 190, 119]))
    );
    // Encode
    assert_eq!(
        vec![131, 70, 64, 94, 221, 47, 26, 159, 190, 119],
        encode(Term::from(float(123.456)))
    );
}

#[test]
fn pid_test() {
    // Decode
    assert_eq!(
        Ok(Pid::from(("nonode@nohost", 49, 0))),
        into_pid(decode(&[
            131, 103, 100, 0, 13, 110, 111, 110, 111, 100, 101, 64, 110, 111, 104, 111, 115, 116,
            0, 0, 0, 49, 0, 0, 0, 0, 0
        ]))
    ); // PID_EXT

    // Encode: always the new pid form, with a four-byte creation
    assert_eq!(
        vec![
            131, 88, 100, 0, 13, 110, 111, 110, 111, 100, 101, 64, 110, 111, 104, 111, 115, 116, 0,
            0, 0, 49, 0, 0, 0, 0, 0, 0, 0, 0
        ],
        encode(Term::from(Pid::from(("nonode@nohost", 49, 0))))
    );
}

#[test]
fn port_test() {
    // Decode
    assert_eq!(
        Ok(Port::from(("nonode@nohost", 366))),
        into_port(decode(&[
            131, 102, 100, 0, 13, 110, 111, 110, 111, 100, 101, 64, 110, 111, 104, 111, 115, 116,
            0, 0, 1, 110, 0
        ]))
    ); // PORT_EXT

    // Encode: the new port form, as the id fits in 32 bits
    assert_eq!(
        vec![
            131, 89, 100, 0, 13, 110, 111, 110, 111, 100, 101, 64, 110, 111, 104, 111, 115, 116, 0,
            0, 1, 110, 0, 0, 0, 0
        ],
        encode(Term::from(Port::from(("nonode@nohost", 366))))
    );
}

#[test]
fn reference_test() {
    // Decode
    assert_eq!(
        Ok(Reference::from(("nonode@nohost", vec![138016, 262145, 0]))),
        into_reference(decode(&[
            131, 114, 0, 3, 100, 0, 13, 110, 111, 110, 111, 100, 101, 64, 110, 111, 104, 111, 115,
            116, 0, 0, 2, 27, 32, 0, 4, 0, 1, 0, 0, 0, 0
        ]))
    ); // NEW_REFERENCE_EXT
    assert_eq!(
        Ok(Reference::from(("foo", vec![2]))),
        // REFERENCE_EXT
        into_reference(decode(&[131, 101, 115, 3, 102, 111, 111, 0, 0, 0, 2, 0]))
    );

    // Encode: always the newer reference form, with a four-byte creation
    assert_eq!(
        vec![131, 90, 0, 1, 100, 0, 3, 102, 111, 111, 0, 0, 0, 0, 0, 0, 0, 123],
        encode(Term::from(Reference::from(("foo", 123))))
    );
}

#[test]
fn external_fun_test() {
    // Decode
    assert_eq!(
        Ok(ExternalFun::from(("foo", "bar", 3))),
        into_external_fun(decode(&[
            131, 113, 100, 0, 3, 102, 111, 111, 100, 0, 3, 98, 97, 114, 97, 3
        ]))
    );

    // Encode
    assert_eq!(
        vec![131, 113, 100, 0, 3, 102, 111, 111, 100, 0, 3, 98, 97, 114, 97, 3],
        encode(Term::from(ExternalFun::from(("foo", "bar", 3))))
    );
}

fn internal_fun() -> InternalFun {
    InternalFun::New {
        module: Atom::from("a"),
        arity: 1,
        pid: Pid::from(("nonode@nohost", 36, 0)),
        index: 0,
        uniq: [115, 60, 203, 97, 151, 228, 98, 75, 71, 169, 49, 166, 34, 126, 65, 11],
        old_index: 0,
        old_uniq: 60417627,
        free_vars: vec![Term::from(FixInteger::from(10))],
    }
}

#[test]
fn internal_fun_test() {
    let bytes = [
        131, 112, 0, 0, 0, 68, 1, 115, 60, 203, 97, 151, 228, 98, 75, 71, 169, 49, 166, 34, 126,
        65, 11, 0, 0, 0, 0, 0, 0, 0, 1, 100, 0, 1, 97, 97, 0, 98, 3, 153, 230, 91, 103, 100, 0,
        13, 110, 111, 110, 111, 100, 101, 64, 110, 111, 104, 111, 115, 116, 0, 0, 0, 36, 0, 0, 0,
        0, 0, 97, 10,
    ];
    // Decode
    assert_eq!(Ok(internal_fun()), into_internal_fun(decode(&bytes)));

    // Encode: the pid inside takes the new pid form, which makes the size 71
    let encoded = [
        131, 112, 0, 0, 0, 71, 1, 115, 60, 203, 97, 151, 228, 98, 75, 71, 169, 49, 166, 34, 126,
        65, 11, 0, 0, 0, 0, 0, 0, 0, 1, 100, 0, 1, 97, 97, 0, 98, 3, 153, 230, 91, 88, 100, 0, 13,
        110, 111, 110, 111, 100, 101, 64, 110, 111, 104, 111, 115, 116, 0, 0, 0, 36, 0, 0, 0, 0,
        0, 0, 0, 0, 97, 10,
    ];
    assert_eq!(Vec::from(&encoded[..]), encode(Term::from(internal_fun())));
}

#[test]
fn binary_test() {
    // Decode
    assert_eq!(
        Ok(Binary::from(vec![1, 2, 3])),
        into_binary(decode(&[131, 109, 0, 0, 0, 3, 1, 2, 3]))
    );

    // Encode
    assert_eq!(
        vec![131, 109, 0, 0, 0, 3, 1, 2, 3],
        encode(Term::from(Binary::from(vec![1, 2, 3])))
    );
}

#[test]
fn bit_binary_test() {
    // Decode
    assert_eq!(
        Ok(BitBinary::from((vec![1, 2, 3], 5))),
        into_bit_binary(decode(&[131, 77, 0, 0, 0, 3, 5, 1, 2, 24]))
    );

    // Encode
    assert_eq!(
        vec![131, 77, 0, 0, 0, 3, 5, 1, 2, 24],
        encode(Term::from(BitBinary::from((vec![1, 2, 3], 5))))
    );
}

#[test]
fn list_test() {
    // Decode
    assert_eq!(Ok(List::nil()), into_list(decode(&[131, 106]))); // NIL_EXT
    assert_eq!(
        Ok(List::from(vec![Term::from(FixInteger::from(1)), Term::from(FixInteger::from(2))])),
        into_list(decode(&[131, 107, 0, 2, 1, 2]))
    ); // STRING_EXT
    assert_eq!(
        Ok(List::from(vec![Term::from(Atom::from("a"))])),
        into_list(decode(&[131, 108, 0, 0, 0, 1, 100, 0, 1, 97, 106]))
    );

    // Encode
    assert_eq!(vec![131, 106], encode(Term::from(List::nil())));
    assert_eq!(
        vec![131, 107, 0, 2, 1, 2],
        encode(Term::from(List::from(vec![
            Term::from(FixInteger::from(1)),
            Term::from(FixInteger::from(2))
        ])))
    );
    assert_eq!(
        vec![131, 108, 0, 0, 0, 1, 100, 0, 1, 97, 106],
        encode(Term::from(List::from(vec![Term::from(Atom::from("a"))])))
    );
}

#[test]
fn improper_list_test() {
    // Decode
    assert_eq!(
        Ok(ImproperList::from((
            vec![Term::from(Atom::from("a"))],
            Term::from(FixInteger::from(1))
        ))),
        into_improper_list(decode(&[131, 108, 0, 0, 0, 1, 100, 0, 1, 97, 97, 1]))
    );

    // Encode
    assert_eq!(
        vec![131, 108, 0, 0, 0, 1, 100, 0, 1, 97, 97, 1],
        encode(Term::from(ImproperList::from((
            vec![Term::from(Atom::from("a"))],
            Term::from(FixInteger::from(1))
        ))))
    );
}

#[test]
fn tuple_test() {
    // Decode
    assert_eq!(
        Ok(Tuple::from(vec![Term::from(Atom::from("a")), Term::from(FixInteger::from(1))])),
        into_tuple(decode(&[131, 104, 2, 100, 0, 1, 97, 97, 1]))
    );

    // Encode
    assert_eq!(
        vec![131, 104, 2, 100, 0, 1, 97, 97, 1],
        encode(Term::from(Tuple::from(vec![
            Term::from(Atom::from("a")),
            Term::from(FixInteger::from(1))
        ])))
    );
}
