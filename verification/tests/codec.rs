use io_drivers::noun::{noun_from_bytes, noun_to_bytes, Noun};

#[test]
fn noun_codec_round_trip() {
    let n = Noun::cell(
        Noun::atom_u64(1),
        Noun::cell(
            Noun::atom(b"hello".to_vec()),
            Noun::cell(Noun::atom(Vec::new()), Noun::atom_u64(0xdead_beef)),
        ),
    );
    let bytes = noun_to_bytes(&n);
    let back = noun_from_bytes(&bytes).expect("decode");
    assert!(back.deep_eq(&n));
}

#[test]
fn noun_codec_rejects_malformed() {
    // An unknown tag byte.
    assert!(noun_from_bytes(&[7]).is_none());
    // An atom cut off inside its length field.
    assert!(noun_from_bytes(&[0, 5, 0]).is_none());
    // An atom cut off inside its data.
    assert!(noun_from_bytes(&[0, 5, 0, 0, 0, 0, 0, 0, 0, b'a']).is_none());
    // Trailing bytes after a whole value.
    let mut bytes = noun_to_bytes(&Noun::atom_u64(1));
    bytes.push(0);
    assert!(noun_from_bytes(&bytes).is_none());
    // An empty payload.
    assert!(noun_from_bytes(&[]).is_none());
}

#[test]
fn atom_u64_round_trip() {
    assert_eq!(Noun::atom_u64(0xdead).as_u64(), Some(0xdead));
    assert_eq!(Noun::atom_u64(0).as_u64(), Some(0));
    assert_eq!(Noun::atom_u64(u64::MAX).as_u64(), Some(u64::MAX));
    // An atom wider than eight bytes does not fit.
    assert_eq!(Noun::atom(vec![1, 0, 0, 0, 0, 0, 0, 0, 0]).as_u64(), None);
    // A pair is not a number.
    assert_eq!(Noun::cell(Noun::atom_u64(1), Noun::atom_u64(2)).as_u64(), None);
}
