use eetf::pattern::Unmatch;
use eetf::{AsOption, TryAsRef};
use eetf::{
    latin1_bytes_to_string, Atom, BigInteger, BitBinary, Binary, DecodeError, Decoder,
    EncodeError, ExternalFun, FixInteger, Float, ImproperList, InternalFun, IoErrorKind, List,
    Pid, Port, Reference, Term, TermMap, Tuple,
};

fn round_trip(t: Term) {
    let bytes = t.encode().unwrap();
    assert_eq!(Term::decode(&bytes).unwrap(), t);
}

fn atom(name: &str) -> Term {
    Term::from(Atom::from(name))
}

fn fix(v: i32) -> Term {
    Term::from(FixInteger::from(v))
}

#[test]
fn round_trip_of_each_kind() {
    round_trip(atom("foo"));
    round_trip(atom("héllo"));
    round_trip(fix(0));
    round_trip(fix(255));
    round_trip(fix(256));
    round_trip(fix(-1));
    round_trip(fix(i32::MIN));
    round_trip(Term::from(BigInteger::from(i64::MIN)));
    round_trip(Term::from(BigInteger::from(u64::MAX)));
    round_trip(Term::from(Float::from_bits(1.5f64.to_bits()).unwrap()));
    round_trip(Term::from(Pid::new(Atom::from("n@h"), 1, 2, 3)));
    round_trip(Term::from(Port { node: Atom::from("n@h"), id: 7, creation: 9 }));
    round_trip(Term::from(Port { node: Atom::from("n@h"), id: 1 << 40, creation: 9 }));
    round_trip(Term::from(Reference::from(("n@h", vec![1, 2, 3]))));
    round_trip(Term::from(ExternalFun::from(("m", "f", 255))));
    round_trip(Term::from(InternalFun::Old {
        module: Atom::from("m"),
        pid: Pid::new(Atom::from("n@h"), 1, 2, 3),
        free_vars: vec![atom("x"), fix(-5)],
        index: 4,
        uniq: -7,
    }));
    round_trip(Term::from(Binary::from(vec![])));
    round_trip(Term::from(Binary::from(vec![0, 255])));
    round_trip(Term::from(BitBinary::from((vec![1, 2, 3], 5))));
    round_trip(Term::from(List::nil()));
    round_trip(Term::from(List::from(vec![fix(1), atom("a"), fix(300)])));
    round_trip(Term::from(ImproperList::from((vec![fix(1)], atom("t")))));
    round_trip(Term::from(Tuple::nil()));
    round_trip(Term::from(Tuple::from((0..300).map(fix).collect::<Vec<_>>())));
    round_trip(Term::from(TermMap::from(vec![
        (atom("k"), fix(1)),
        (fix(2), Term::from(List::from(vec![atom("v")]))),
    ])));
}

#[test]
fn empty_list_is_nil() {
    assert_eq!(vec![131, 106], Term::from(List::nil()).encode().unwrap());
}

#[test]
fn byte_list_takes_the_string_form() {
    let bytes: Vec<Term> = (1..=255).map(fix).collect();
    let encoded = Term::from(List::from(bytes)).encode().unwrap();
    assert_eq!(&encoded[..4], &[131, 107, 0, 255]);
    assert_eq!(encoded.len(), 4 + 255);
    assert_eq!(encoded[4], 1);
    assert_eq!(encoded[258], 255);
}

#[test]
fn list_with_a_large_integer_takes_the_list_form() {
    let encoded = Term::from(List::from(vec![fix(256)])).encode().unwrap();
    assert_eq!(vec![131, 108, 0, 0, 0, 1, 98, 0, 0, 1, 0, 106], encoded);
}

#[test]
fn atom_tag_choice() {
    assert_eq!(100, atom("foo").encode().unwrap()[1]);
    assert_eq!(vec![131, 118, 0, 2, 0xc3, 0xa9], atom("é").encode().unwrap());
}

#[test]
fn integer_tag_choice() {
    assert_eq!(vec![131, 97, 0], fix(0).encode().unwrap());
    assert_eq!(vec![131, 97, 255], fix(255).encode().unwrap());
    assert_eq!(vec![131, 98, 255, 255, 255, 255], fix(-1).encode().unwrap());
}

#[test]
fn bignum_round_trip() {
    let t = Term::from(BigInteger::from(10_000_000_000i64));
    let bytes = t.encode().unwrap();
    assert_eq!(vec![131, 110, 5, 0, 0, 228, 11, 84, 2], bytes);
    assert_eq!(t, Term::decode(&bytes).unwrap());
}

#[test]
fn bignum_decodes_to_canonical_form() {
    // high zero bytes are dropped, and negative zero is zero
    assert_eq!(
        Term::from(BigInteger::from(1)),
        Term::decode(&[131, 110, 3, 0, 1, 0, 0]).unwrap()
    );
    assert_eq!(Term::from(BigInteger::from(0)), Term::decode(&[131, 110, 2, 1, 0, 0]).unwrap());
    assert_eq!(Term::from(BigInteger::from(0)), Term::decode(&[131, 110, 0, 0]).unwrap());
}

#[test]
fn float_fidelity() {
    let t = Term::decode(&[131, 70, 64, 94, 221, 47, 26, 159, 190, 119]).unwrap();
    assert_eq!(Term::from(Float::from_bits(123.456f64.to_bits()).unwrap()), t);
    assert!(Float::from_bits(f64::NAN.to_bits()).is_none());
    assert!(Float::from_bits(f64::INFINITY.to_bits()).is_none());
    assert!(Float::from_bits(f64::NEG_INFINITY.to_bits()).is_none());
}

#[test]
fn non_finite_float_is_refused() {
    let r = Term::decode(&[131, 70, 127, 240, 0, 0, 0, 0, 0, 0]);
    assert!(matches!(r, Err(DecodeError::NonFiniteFloat)));
}

#[test]
fn bit_binary_tail_bits() {
    let t = Term::from(BitBinary::from((vec![1, 2, 3], 5)));
    let bytes = t.encode().unwrap();
    assert_eq!(vec![131, 77, 0, 0, 0, 3, 5, 1, 2, 24], bytes);
    assert_eq!(t, Term::decode(&bytes).unwrap());
}

#[test]
fn bit_binary_tail_size_out_of_range() {
    let r = Term::decode(&[131, 77, 0, 0, 0, 1, 9, 1]);
    assert!(matches!(r, Err(DecodeError::OutOfRange { value: 9, min: 1, max: 8 })));
    let e = Term::from(BitBinary::from((vec![1], 0))).encode();
    assert!(matches!(e, Err(EncodeError::Io(_))));
}

#[test]
fn truncated_input_is_an_io_error() {
    for bytes in [
        &[131u8][..],
        &[131, 100, 0, 3, 102, 111][..],
        &[131, 98, 0, 0][..],
        &[131, 104, 2, 97, 1][..],
        &[][..],
    ] {
        match Term::decode(bytes) {
            Err(DecodeError::Io(e)) => assert_eq!(e.kind, IoErrorKind::UnexpectedEof),
            other => panic!("unexpected result {:?}", other),
        }
    }
}

#[test]
fn unknown_tag() {
    assert!(matches!(Term::decode(&[131, 255]), Err(DecodeError::UnknownTag { tag: 255 })));
}

#[test]
fn unsupported_version() {
    assert!(matches!(
        Term::decode(&[130, 97, 1]),
        Err(DecodeError::UnsupportedVersion { version: 130 })
    ));
}

#[test]
fn too_long_atom_name() {
    let name = "a".repeat(70000);
    let r = Term::from(Atom::from(name.as_str())).encode();
    assert!(matches!(r, Err(EncodeError::TooLongAtomName(_))));
}

#[test]
fn too_large_reference_id() {
    let r = Term::from(Reference::from(("n", vec![0; 65536]))).encode();
    assert!(matches!(r, Err(EncodeError::TooLargeReferenceId(_))));
}

#[test]
fn compressed_term() {
    // the body [100, 0, 3, 102, 111, 111] deflated with zlib
    let bytes = [
        131, 80, 0, 0, 0, 6, 120, 156, 75, 97, 96, 78, 203, 207, 7, 0, 4, 233, 1, 172,
    ];
    let plain = atom("foo").encode().unwrap();
    assert_eq!(Term::decode(&bytes).unwrap(), Term::decode(&plain).unwrap());
}

#[test]
fn corrupt_compressed_term_is_an_io_error() {
    let bytes = [131, 80, 0, 0, 0, 6, 1, 2, 3];
    assert!(matches!(Term::decode(&bytes), Err(DecodeError::Io(_))));
    let r = Decoder::new(vec![131, 80, 0, 0, 0, 6, 120, 156, 75, 97, 96, 78, 203, 207, 7, 0, 4, 233, 1, 172])
        .with_max_layers(0)
        .decode();
    assert!(matches!(r, Err(DecodeError::Io(_))));
}

#[test]
fn map_keeps_the_last_value_of_a_key() {
    // #{a => 1, a => 2, b => 3}
    let bytes = [
        131, 116, 0, 0, 0, 3, 100, 0, 1, 97, 97, 1, 100, 0, 1, 97, 97, 2, 100, 0, 1, 98, 97, 3,
    ];
    let expected = Term::from(TermMap::from(vec![(atom("a"), fix(2)), (atom("b"), fix(3))]));
    assert_eq!(expected, Term::decode(&bytes).unwrap());
}

#[test]
fn unexpected_type_in_node_position() {
    // a pid whose node is an integer
    let r = Term::decode(&[131, 103, 97, 1, 0, 0, 0, 1, 0, 0, 0, 2, 0]);
    match r {
        Err(DecodeError::UnexpectedType { value, expected }) => {
            assert_eq!(value, fix(1));
            assert_eq!(expected, "Atom");
        },
        other => panic!("unexpected result {:?}", other),
    }
}

#[test]
fn export_arity_out_of_range() {
    let r = Term::decode(&[131, 113, 100, 0, 1, 109, 100, 0, 1, 102, 98, 0, 0, 1, 0]);
    assert!(matches!(r, Err(DecodeError::OutOfRange { value: 256, min: 0, max: 255 })));
}

#[test]
fn bad_sign_byte_is_invalid_data() {
    match Term::decode(&[131, 110, 1, 2, 5]) {
        Err(DecodeError::Io(e)) => assert_eq!(e.kind, IoErrorKind::InvalidData),
        other => panic!("unexpected result {:?}", other),
    }
}

#[test]
fn latin1_name_that_is_not_utf8() {
    let r = latin1_bytes_to_string(&[0xe9]);
    assert!(matches!(r, Err(e) if e.kind == IoErrorKind::Other));
    assert_eq!(latin1_bytes_to_string(b"foo").unwrap(), "foo");
}

#[test]
fn legacy_reference_and_port_forms() {
    assert_eq!(
        Term::from(Port { node: Atom::from("n"), id: 1 << 40, creation: 2 }),
        Term::decode(&[131, 120, 100, 0, 1, 110, 0, 0, 1, 0, 0, 0, 0, 0, 0, 0, 0, 2]).unwrap()
    );
    assert_eq!(
        Term::from(Reference { node: Atom::from("n"), id: vec![5], creation: 7 }),
        Term::decode(&[131, 90, 0, 1, 100, 0, 1, 110, 0, 0, 0, 7, 0, 0, 0, 5]).unwrap()
    );
}

#[test]
fn trailing_bytes_are_ignored() {
    assert_eq!(fix(1), Term::decode(&[131, 97, 1, 99, 99]).unwrap());
}

#[test]
fn borrowing_a_payload_by_kind() {
    let t = atom("foo");
    let a: Option<&Atom> = t.try_as_ref();
    assert_eq!(a, Some(&Atom::from("foo")));
    let f: Option<&FixInteger> = t.try_as_ref();
    assert!(f.is_none());
    assert_eq!(true.as_option(), Some(&true));
    assert_eq!(false.as_option(), None);
}

#[test]
fn unmatch_chain_depth() {
    let leaf = Unmatch { pattern: "leaf".to_string(), cause: None };
    let mid = Unmatch { pattern: "mid".to_string(), cause: None }.cause(leaf);
    assert_eq!(mid.depth(), 1);
    let top = Unmatch { pattern: "top".to_string(), cause: None }.cause(mid);
    assert_eq!(top.depth(), 2);
    let other = Unmatch { pattern: "other".to_string(), cause: None };
    assert_eq!(other.max_depth(top).pattern, "top");
}

#[test]
fn integer_terms_as_machine_integers() {
    assert_eq!(fix(-5).to_i64(), Some(-5));
    assert_eq!(fix(-5).to_u64(), None);
    assert_eq!(fix(7).to_u64(), Some(7));
    assert_eq!(Term::from(BigInteger::from(i64::MIN)).to_i64(), Some(i64::MIN));
    assert_eq!(Term::from(BigInteger::from(u64::MAX)).to_i64(), None);
    assert_eq!(Term::from(BigInteger::from(u64::MAX)).to_u64(), Some(u64::MAX));
    assert_eq!(Term::from(BigInteger::from(-1)).to_u64(), None);
    // 2^64 does not fit
    let big = Term::decode(&[131, 110, 9, 0, 0, 0, 0, 0, 0, 0, 0, 0, 1]).unwrap();
    assert_eq!(big.to_u64(), None);
    assert_eq!(big.to_i64(), None);
    assert_eq!(atom("a").to_i64(), None);
}

#[test]
fn big_integer_is_encoded_in_canonical_form() {
    let high_zero = Term::from(BigInteger { negative: false, magnitude: vec![5, 0] });
    assert_eq!(vec![131, 110, 1, 0, 5], high_zero.encode().unwrap());
    let negative_zero = Term::from(BigInteger { negative: true, magnitude: vec![0] });
    assert_eq!(vec![131, 110, 1, 0, 0], negative_zero.encode().unwrap());
    let empty = Term::from(BigInteger { negative: true, magnitude: vec![] });
    assert_eq!(vec![131, 110, 1, 0, 0], empty.encode().unwrap());
    assert_eq!(
        Term::from(BigInteger::from(5)),
        Term::decode(&high_zero.encode().unwrap()).unwrap()
    );
}

#[test]
fn refused_atom_is_carried_by_the_error() {
    let name = "b".repeat(70000);
    match Term::from(Atom::from(name.as_str())).encode() {
        Err(EncodeError::TooLongAtomName(a)) => assert_eq!(a.name, name),
        other => panic!("unexpected result {:?}", other),
    }
}

#[test]
fn map_with_equal_keys_is_refused() {
    let m = Term::from(TermMap::from(vec![(atom("a"), fix(1)), (atom("a"), fix(2))]));
    assert!(matches!(m.encode(), Err(EncodeError::Io(_))));
}

#[test]
fn legacy_text_float_is_invalid_data() {
    let mut bytes = vec![131, 99];
    bytes.extend_from_slice(b"1.00000000000000000000e+00");
    bytes.resize(2 + 31, 0);
    match Term::decode(&bytes) {
        Err(DecodeError::Io(e)) => assert_eq!(e.kind, IoErrorKind::InvalidData),
        other => panic!("unexpected result {:?}", other),
    }
}
