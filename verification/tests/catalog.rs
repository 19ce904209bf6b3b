use salfa::container::{assemble, parse};
use salfa::error::{Error, ErrorKind};
use salfa::container::reserialize;
use salfa::sal_file::{credentials, list_files, plain, CloudFile, Stream};

const KEY: [u8; 4] = [127, 97, 112, 128];

fn base(text: &[u8]) -> Vec<u8> {
    let mut out = text.to_vec();
    while out.len() < 64 {
        out.push(0);
    }
    out
}

fn pair(name: &str, id: &str) -> (Vec<u8>, Vec<u8>) {
    (name.as_bytes().to_vec(), id.as_bytes().to_vec())
}

fn with_list(list: &[u8]) -> Vec<u8> {
    let mut text = base(b"u\x1bt\x1bd");
    text.extend_from_slice(list);
    assemble(&KEY, &text).unwrap()
}

fn even(mut text: Vec<u8>) -> Vec<u8> {
    if text.len() % 2 == 1 {
        text.push(0);
    }
    text
}

fn credentials_of(cloud: &CloudFile) -> (Vec<u8>, Vec<u8>, Vec<u8>) {
    (cloud.uid().to_vec(), cloud.token().to_vec(), cloud.dirid().to_vec())
}

#[test]
fn plain_pads_base_to_64_and_joins_entries() {
    let text = plain(b"uid", b"tok", b"dir", &[pair("a", "1"), pair("bc", "23")]);
    let mut want = base(b"uid\x1btok\x1bdir");
    want.extend_from_slice(b"a\x1a1\x1bbc\x1a23");
    assert_eq!(text, want);
}

#[test]
fn plain_keeps_long_base_unpadded() {
    let uid = vec![b'x'; 70];
    let text = plain(&uid, b"t", b"", &[]);
    let mut want = uid.clone();
    want.extend_from_slice(b"\x1bt\x1b");
    assert_eq!(text, want);
}

#[test]
fn new_catalog_is_empty_and_serialized() {
    let cloud = CloudFile::new(b"29".to_vec(), b"b8".to_vec(), b"94".to_vec(), &KEY).unwrap();
    assert_eq!(cloud.get_filemap().len(), 0);
    assert_eq!(cloud.stream(), Stream::Disconnected);
    assert_eq!(credentials_of(&cloud), (b"29".to_vec(), b"b8".to_vec(), b"94".to_vec()));
    assert_eq!(cloud.as_ref().len(), 144);
    assert_eq!(cloud.as_ref(), &assemble(&KEY, &base(b"29\x1bb8\x1b94")).unwrap()[..]);
}

#[test]
fn new_refuses_bad_passkey() {
    let e = CloudFile::new(vec![], vec![], vec![], &[1, 2, 3, 4]).unwrap_err();
    assert!(matches!(e, Error::PasskeyNotPositive));
    let e = CloudFile::new(vec![], vec![], vec![], &[255, 0, 0, 1]).unwrap_err();
    assert!(matches!(e, Error::PasskeyTooBig));
}

#[test]
fn load_of_new_keeps_padding_in_last_field() {
    let cloud = CloudFile::new(b"29".to_vec(), b"b8".to_vec(), b"94".to_vec(), &KEY).unwrap();
    let back = CloudFile::from_raw(cloud.as_ref()).unwrap();
    assert_eq!(back.uid(), b"29");
    assert_eq!(back.token(), b"b8");
    let mut dirid = b"94".to_vec();
    dirid.resize(64 - 6, 0);
    assert_eq!(back.dirid(), &dirid[..]);
    assert_eq!(back.get_filemap().len(), 0);
    assert_eq!(back.as_ref(), cloud.as_ref());
    assert_eq!(back.stream(), Stream::Disconnected);
}

#[test]
fn load_reads_entries_in_order() {
    let raw = with_list(b"a.txt\x1aid1\x1bb.txt\x1aid2\x1bc\x1aid3\x1axy");
    let cloud = CloudFile::from_raw(&raw).unwrap();
    assert_eq!(
        cloud.get_filemap(),
        &[pair("a.txt", "id1"), pair("b.txt", "id2"), pair("c", "id3\x1axy")][..]
    );
    assert_eq!(cloud.as_ref(), &raw[..]);
}

#[test]
fn load_of_odd_list_region_gains_a_zero_byte() {
    let cloud = CloudFile::from_raw(&with_list(b"a\x1a1\x1bb\x1a2")).unwrap();
    assert_eq!(cloud.get_filemap(), &[pair("a", "1"), pair("b", "2\0")][..]);
}

#[test]
fn load_trims_white_space_of_fields() {
    let mut text = base(b" u \x1b\tt\n\x1bd\r\n");
    text.extend_from_slice(b"n\x1ai ");
    let cloud = CloudFile::from_raw(&assemble(&KEY, &text).unwrap()).unwrap();
    assert_eq!(cloud.uid(), b"u");
    assert_eq!(cloud.token(), b"t");
    assert_eq!(&cloud.dirid()[..4], b"d\r\n\0");
    assert_eq!(cloud.get_filemap(), &[pair("n", "i ")][..]);
}

#[test]
fn load_trims_unicode_white_space_of_fields() {
    let text = base("\u{3000}u\u{a0}\x1b\u{2003}t\x1bd".as_bytes());
    let cloud = CloudFile::from_raw(&assemble(&KEY, &text).unwrap()).unwrap();
    assert_eq!(cloud.uid(), b"u");
    assert_eq!(cloud.token(), b"t");
    assert_eq!(cloud.dirid()[0], b'd');
}

#[test]
fn load_refuses_entry_without_separator() {
    let e = CloudFile::from_raw(&with_list(b"a\x1a1\x1bnosep")).unwrap_err();
    assert!(matches!(e, Error::WrongFileData));
    assert_eq!(e.kind(), ErrorKind::InvalidData);
    assert!(matches!(CloudFile::from_raw(&with_list(b"a\x1a1\x1b")), Err(Error::WrongFileData)));
}

#[test]
fn load_refuses_base_without_two_separators() {
    let raw = assemble(&KEY, &base(b"only\x1bone")).unwrap();
    let e = CloudFile::from_raw(&raw).unwrap_err();
    assert!(matches!(e, Error::WrongBaseData));
    assert_eq!(e.kind(), ErrorKind::InvalidData);
    assert!(matches!(
        CloudFile::from_raw(&assemble(&KEY, &base(b"")).unwrap()),
        Err(Error::WrongBaseData)
    ));
}

#[test]
fn load_passes_on_container_faults() {
    assert!(matches!(CloudFile::from_raw(&[0; 10]), Err(Error::TooShort)));
    let mut raw = with_list(b"");
    raw[0] = 9;
    assert!(matches!(CloudFile::from_raw(&raw), Err(Error::WrongFileType)));
}

#[test]
fn credentials_reads_three_fields() {
    let (u, t, d) = credentials(b"a\x1bb\x1bc\x1bd").unwrap();
    assert_eq!((u, t, d), (b"a".to_vec(), b"b".to_vec(), b"c\x1bd".to_vec()));
    assert!(credentials(b"a\x1bb").is_none());
}

#[test]
fn list_files_of_empty_region() {
    assert_eq!(list_files(b"").unwrap(), vec![]);
    assert_eq!(list_files(b"\x1a").unwrap(), vec![pair("", "")]);
    assert!(list_files(b"\x1b").is_none());
}

#[test]
fn merge_appends_in_order_and_keeps_credentials() {
    let mut a = CloudFile::from_raw(&with_list(b"a1\x1ai1\x1ba22\x1ai2")).unwrap();
    let b = {
        let mut text = base(b"other\x1bcreds\x1bhere");
        text.extend_from_slice(b"b12\x1aj1\x1ba1\x1ai1");
        CloudFile::from_raw(&assemble(&[2, 1, 1, 1], &text).unwrap()).unwrap()
    };
    let before = credentials_of(&a);
    a.merge(&b);
    assert_eq!(
        a.get_filemap(),
        &[pair("a1", "i1"), pair("a22", "i2"), pair("b12", "j1"), pair("a1", "i1")][..]
    );
    assert_eq!(b.get_filemap(), &[pair("b12", "j1"), pair("a1", "i1")][..]);
    assert_eq!(credentials_of(&a), before);
    let (key, text) = parse(a.as_ref()).unwrap();
    assert_eq!(key, KEY);
    assert_eq!(text, even(plain(a.uid(), a.token(), a.dirid(), a.get_filemap())));
}

#[test]
fn merge_of_empty_changes_no_entry() {
    let mut a = CloudFile::from_raw(&with_list(b"a\x1a12")).unwrap();
    let b = CloudFile::new(vec![], vec![], vec![], &KEY).unwrap();
    a.merge(&b);
    assert_eq!(a.get_filemap(), &[pair("a", "12")][..]);
}

#[test]
fn extend_from_raw_appends_loaded_entries() {
    let mut a = CloudFile::new(b"u".to_vec(), b"t".to_vec(), b"d".to_vec(), &KEY).unwrap();
    a.extend_from_raw(&with_list(b"x\x1a1\x1by\x1a22")).unwrap();
    a.extend_from_raw(&with_list(b"z\x1a33")).unwrap();
    assert_eq!(a.get_filemap(), &[pair("x", "1"), pair("y", "22"), pair("z", "33")][..]);
    assert_eq!(credentials_of(&a), (b"u".to_vec(), b"t".to_vec(), b"d".to_vec()));
    let reloaded = CloudFile::from_raw(a.as_ref()).unwrap();
    assert_eq!(
        reloaded.get_filemap(),
        &[pair("x", "1"), pair("y", "22"), pair("z", "33\0")][..]
    );
}

#[test]
fn extend_from_raw_failure_changes_nothing() {
    let mut a = CloudFile::from_raw(&with_list(b"x\x1a11")).unwrap();
    let raw = a.as_ref().to_vec();
    assert!(matches!(a.extend_from_raw(&[1, 2, 3]), Err(Error::TooShort)));
    assert!(matches!(a.extend_from_raw(&with_list(b"bad")), Err(Error::WrongFileData)));
    assert_eq!(a.get_filemap(), &[pair("x", "11")][..]);
    assert_eq!(a.as_ref(), &raw[..]);
}

#[test]
fn passkey_is_inherited_on_reserialization() {
    let other: [u8; 4] = [5, 2, 3, 4];
    let mut text = base(b"u\x1bt\x1bd");
    text.extend_from_slice(b"n\x1ai1");
    let mut a = CloudFile::from_raw(&assemble(&other, &text).unwrap()).unwrap();
    a.extend_from_raw(&with_list(b"m\x1ai2")).unwrap();
    assert_eq!(&a.as_ref()[8..12], &other);
    assert_eq!(parse(a.as_ref()).unwrap().0, other);
}

#[test]
fn reserialize_uses_header_passkey() {
    let current = assemble(&KEY, &base(b"a\x1bb\x1bc")).unwrap();
    let text = base(b"x\x1by\x1bz");
    assert_eq!(reserialize(&current, &text).unwrap(), assemble(&KEY, &text).unwrap());
}

#[test]
fn reserialize_refuses_short_container() {
    assert!(matches!(reserialize(&[3, 3, 4, 21], &base(b"")), Err(Error::TooShort)));
    let mut current = assemble(&KEY, &base(b"")).unwrap();
    current[11] = 0;
    assert!(matches!(reserialize(&current, &base(b"")), Err(Error::PasskeyNotPositive)));
}

#[test]
fn set_stream_records_the_host() {
    let mut a = CloudFile::new(vec![], vec![], vec![], &KEY).unwrap();
    let raw = a.as_ref().to_vec();
    a.set_stream(Stream::Scan);
    assert_eq!(a.stream(), Stream::Scan);
    a.set_stream(Stream::Link);
    assert_eq!(a.stream(), Stream::Link);
    a.set_stream(Stream::Disconnected);
    assert_eq!(a.stream(), Stream::Disconnected);
    assert_eq!(a.as_ref(), &raw[..]);
}
