use salfa::container::{assemble, Container};
use salfa::error::Error;
use salfa::protocol::{is_complete, is_same_name, reaches, Framing};
use salfa::sal_file::CloudFile;

#[test]
fn single_chunk_is_always_enough() {
    assert!(is_complete(Framing::Single, b""));
    assert!(is_complete(Framing::Single, b"HTTP/1.1 200 OK\r\nContent-Length: 99\r\n\r\n"));
}

#[test]
fn complete_waits_for_end_of_head() {
    assert!(!is_complete(Framing::Complete, b""));
    assert!(!is_complete(Framing::Complete, b"HTTP/1.1 200 OK\r\nHost: a\r\n"));
    assert!(is_complete(Framing::Complete, b"HTTP/1.1 200 OK\r\nHost: a\r\n\r\n"));
    assert!(is_complete(Framing::Complete, b"\r\n\r\n"));
}

#[test]
fn complete_waits_for_stated_length() {
    let head = "HTTP/1.1 200 OK\r\ncontent-LENGTH:  5 \r\nX: y\r\n\r\n";
    assert!(!is_complete(Framing::Complete, head.as_bytes()));
    assert!(!is_complete(Framing::Complete, format!("{head}1234").as_bytes()));
    assert!(is_complete(Framing::Complete, format!("{head}12345").as_bytes()));
    assert!(is_complete(Framing::Complete, format!("{head}123456").as_bytes()));
}

#[test]
fn complete_ignores_length_that_is_no_number() {
    assert!(is_complete(Framing::Complete, b"H\r\nContent-Length: five\r\n\r\n"));
    assert!(is_complete(Framing::Complete, b"H\r\nContent-Length:\r\n\r\n"));
    assert!(is_complete(Framing::Complete, b"H\r\nContent-Length: -1\r\n\r\n"));
}

#[test]
fn complete_takes_first_length_and_skips_first_line() {
    assert!(is_complete(
        Framing::Complete,
        b"Content-Length: 9\r\nContent-Length: 1\r\nContent-Length: 7\r\n\r\nx"
    ));
    assert!(!is_complete(Framing::Complete, b"H\r\nContent-Length: 2\r\nContent-Length: 1\r\n\r\nx"));
}

#[test]
fn complete_never_reaches_a_length_beyond_the_machine() {
    assert!(!is_complete(
        Framing::Complete,
        b"H\r\nContent-Length: 99999999999999999999999999999999\r\n\r\nbody"
    ));
}

#[test]
fn reaches_compares_with_written_number() {
    assert_eq!(reaches(5, b"5"), Some(true));
    assert_eq!(reaches(5, b"6"), Some(false));
    assert_eq!(reaches(0, b"0"), Some(true));
    assert_eq!(reaches(7, b"007"), Some(true));
    assert_eq!(reaches(usize::MAX, format!("{}", usize::MAX).as_bytes()), Some(true));
    assert_eq!(reaches(usize::MAX, format!("{}0", usize::MAX).as_bytes()), Some(false));
    assert_eq!(reaches(5, b""), None);
    assert_eq!(reaches(5, b"5x"), None);
    assert_eq!(reaches(5, b"99999999999999999999999999x"), None);
}

#[test]
fn names_compare_without_case() {
    assert!(is_same_name(b"Content-Length", b"content-length"));
    assert!(is_same_name(b"CONTENT-LENGTH", b"content-length"));
    assert!(!is_same_name(b"Content_Length", b"content-length"));
    assert!(!is_same_name(b"Content-Lengt", b"content-length"));
    assert!(!is_same_name(b"@", b"`"));
}

#[test]
fn session_waits_for_whole_answers_by_default() {
    let mut cloud = CloudFile::new(vec![], vec![], vec![], &[2, 1, 1, 1]).unwrap();
    assert_eq!(cloud.framing(), Framing::Complete);
    assert_eq!(Framing::default(), Framing::Complete);
    assert!(!cloud.answered(b"HTTP/1.1 200 OK\r\n"));
    cloud.set_framing(Framing::Single);
    assert_eq!(cloud.framing(), Framing::Single);
    assert!(cloud.answered(b"HTTP/1.1 200 OK\r\n"));
}

#[test]
fn container_owns_its_passkey() {
    let text = vec![7u8; 64];
    let mut c = Container::new(&[5, 2, 3, 4], &text).unwrap();
    assert_eq!(c.passkey(), [5, 2, 3, 4]);
    assert_eq!(c.as_ref(), &assemble(&[5, 2, 3, 4], &text).unwrap()[..]);
    let other = vec![9u8; 80];
    c.rebuild(&other).unwrap();
    assert_eq!(c.passkey(), [5, 2, 3, 4]);
    assert_eq!(c.as_ref(), &assemble(&[5, 2, 3, 4], &other).unwrap()[..]);
}

#[test]
fn container_refuses_what_would_not_parse() {
    assert!(matches!(Container::new(&[5, 2, 3, 4], &[1; 63]), Err(Error::TooShort)));
    assert!(matches!(Container::new(&[1, 1, 1, 1], &[1; 64]), Err(Error::PasskeyNotPositive)));
    assert!(matches!(Container::new(&[1, 1, 1, 1], &[1; 3]), Err(Error::PasskeyNotPositive)));
    let mut c = Container::new(&[5, 2, 3, 4], &[1; 64]).unwrap();
    let before = c.as_ref().to_vec();
    assert!(matches!(c.rebuild(&[1; 10]), Err(Error::TooShort)));
    assert_eq!(c.as_ref(), &before[..]);
}

#[test]
fn container_from_raw_gives_plaintext() {
    let text: Vec<u8> = (0..64u8).collect();
    let raw = assemble(&[5, 2, 3, 4], &text).unwrap();
    let (c, back) = Container::from_raw(&raw).unwrap();
    assert_eq!(back, text);
    assert_eq!(c.as_ref(), &raw[..]);
    assert!(matches!(Container::from_raw(&raw[..20]), Err(Error::TooShort)));
}
