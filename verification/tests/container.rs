use salfa::codec::{matrix_encode, sixteen_to_eight};
use salfa::container::{assemble, parse, passkey_from_slice};
use salfa::error::{Error, ErrorKind};

const KEY: [u8; 4] = [127, 97, 112, 128];

fn sample(len: usize) -> Vec<u8> {
    (0..len).map(|i| (i * 7 % 256) as u8).collect()
}

#[test]
fn assemble_lays_out_header_and_payload() {
    let text = sample(64);
    let bytes = assemble(&KEY, &text).unwrap();
    assert_eq!(bytes.len(), 144);
    assert_eq!(&bytes[0..4], &[3, 3, 4, 21]);
    assert_eq!(&bytes[4..8], &[7, 23, 10, 8]);
    assert_eq!(&bytes[8..12], &KEY);
    assert_eq!(&bytes[12..16], &[25, 0, 0, 3]);
    assert_eq!(&bytes[16..], &sixteen_to_eight(&matrix_encode(&KEY, &text).unwrap())[..]);
}

#[test]
fn assemble_small_exact_bytes() {
    let bytes = assemble(&[2, 1, 1, 1], &[7, 9]).unwrap();
    assert_eq!(bytes, vec![3, 3, 4, 21, 7, 23, 10, 8, 2, 1, 1, 1, 25, 0, 0, 3, 0, 23, 0, 16]);
}

#[test]
fn assemble_refuses_bad_passkey() {
    assert!(matches!(assemble(&[1, 1, 1, 1], &sample(64)), Err(Error::PasskeyNotPositive)));
    assert!(matches!(assemble(&[130, 1, 1, 1], &sample(64)), Err(Error::PasskeyTooBig)));
}

#[test]
fn parse_inverts_assemble() {
    for len in [64usize, 66, 100, 256] {
        let text = sample(len);
        let bytes = assemble(&KEY, &text).unwrap();
        let (key, back) = parse(&bytes).unwrap();
        assert_eq!(key, KEY);
        assert_eq!(back, text);
    }
}

#[test]
fn parse_of_odd_plaintext_appends_zero() {
    let text = sample(65);
    let bytes = assemble(&KEY, &text).unwrap();
    let (key, back) = parse(&bytes).unwrap();
    assert_eq!(key, KEY);
    let mut want = text.clone();
    want.push(0);
    assert_eq!(back, want);
}

#[test]
fn parse_refuses_short_input() {
    let bytes = assemble(&KEY, &sample(64)).unwrap();
    let e = parse(&bytes[..143]).unwrap_err();
    assert!(matches!(e, Error::TooShort));
    assert_eq!(e.kind(), ErrorKind::InvalidInput);
    assert!(matches!(parse(&[]), Err(Error::TooShort)));
}

#[test]
fn parse_refuses_each_altered_magic_byte() {
    let bytes = assemble(&KEY, &sample(64)).unwrap();
    for at in 0..8 {
        let mut changed = bytes.clone();
        changed[at] ^= 0x40;
        let e = parse(&changed).unwrap_err();
        assert!(matches!(e, Error::WrongFileType));
        assert_eq!(e.kind(), ErrorKind::Unsupported);
    }
}

#[test]
fn parse_refuses_when_only_one_magic_part_is_wrong() {
    let mut first = assemble(&KEY, &sample(64)).unwrap();
    first[3] = 22;
    assert!(matches!(parse(&first), Err(Error::WrongFileType)));
    let mut second = assemble(&KEY, &sample(64)).unwrap();
    second[4] = 8;
    assert!(matches!(parse(&second), Err(Error::WrongFileType)));
}

#[test]
fn parse_ignores_trailer_content() {
    let text = sample(64);
    let mut bytes = assemble(&KEY, &text).unwrap();
    bytes[12] = 0;
    bytes[15] = 99;
    assert_eq!(parse(&bytes).unwrap(), (KEY, text));
}

#[test]
fn parse_length_comes_before_magic() {
    let mut bytes = assemble(&KEY, &sample(64)).unwrap();
    bytes[0] = 0;
    assert!(matches!(parse(&bytes[..100]), Err(Error::TooShort)));
}

#[test]
fn parse_refuses_bad_passkey_in_header() {
    let mut bytes = assemble(&KEY, &sample(64)).unwrap();
    bytes[8] = 200;
    assert!(matches!(parse(&bytes), Err(Error::PasskeyTooBig)));
    bytes[8] = 0;
    assert!(matches!(parse(&bytes), Err(Error::PasskeyNotPositive)));
}

#[test]
fn parse_refuses_odd_word_count() {
    let mut bytes = assemble(&KEY, &sample(64)).unwrap();
    bytes.push(1);
    assert_eq!(bytes.len(), 145);
    assert!(matches!(parse(&bytes), Err(Error::OddWordCount)));
    bytes.push(2);
    assert!(matches!(parse(&bytes), Err(Error::OddWordCount)));
    bytes.push(3);
    assert_eq!(parse(&bytes).unwrap().1.len(), 66);
}

#[test]
fn passkey_slice_must_be_four_bytes() {
    assert_eq!(passkey_from_slice(&[1, 2, 3, 4]).unwrap(), [1, 2, 3, 4]);
    let e = passkey_from_slice(&[1, 2, 3]).unwrap_err();
    assert!(matches!(e, Error::WrongPasskeyType));
    assert_eq!(e.kind(), ErrorKind::Unsupported);
    assert!(matches!(passkey_from_slice(&[1, 2, 3, 4, 5]), Err(Error::WrongPasskeyType)));
}
