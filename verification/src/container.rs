//! The container: a header of sixteen bytes, then the encoded payload.
//!
//! | offset | length | content                          |
//! |--------|--------|----------------------------------|
//! | 0      | 4      | magic, first part: 3, 3, 4, 21   |
//! | 4      | 4      | magic, second part: 7, 23, 10, 8 |
//! | 8      | 4      | the passkey                      |
//! | 12     | 4      | trailer: 25, 0, 0, 3             |
//! | 16     | rest   | the encoded words, packed        |

use vstd::prelude::*;
use crate::codec::{
    decode, decode_fault, eight_to_sixteen, encode, lemma_decode_encode,
    lemma_pack8to16_pack16to8, matrix_decode, matrix_encode, pack16to8, pack8to16, padded_even,
    passkey_fault, sixteen_to_eight, valid_passkey,
};
use crate::error::{Error, Fault};
use vstd::slice::slice_to_vec;
use crate::text::append;

verus! {

/// The length of the header.
pub const HEADER_LEN: usize = 16;

/// The least length of a container: the header and the encoding of the 64
/// bytes of a base region.
pub const MIN_LEN: usize = 144;

/// The first part of the magic.
pub open spec fn magic_a() -> Seq<u8> {
    seq![3u8, 3u8, 4u8, 21u8]
}

/// The second part of the magic.
pub open spec fn magic_b() -> Seq<u8> {
    seq![7u8, 23u8, 10u8, 8u8]
}

/// The four bytes that end the header.
pub open spec fn trailer() -> Seq<u8> {
    seq![25u8, 0u8, 0u8, 3u8]
}

/// The header of a container under `key`.
pub open spec fn header(key: [u8; 4]) -> Seq<u8> {
    magic_a() + magic_b() + key@ + trailer()
}

/// The container that holds `plaintext` under `key`.
pub open spec fn container(key: [u8; 4], plaintext: Seq<u8>) -> Seq<u8> {
    header(key) + pack16to8(encode(key, plaintext))
}

/// Both parts of the magic stand at the head of `bytes`.
pub open spec fn has_magic(bytes: Seq<u8>) -> bool {
    bytes.len() >= 8 && bytes.subrange(0, 4) == magic_a() && bytes.subrange(4, 8) == magic_b()
}

/// The passkey in the header of `bytes`.
pub open spec fn passkey_of(bytes: Seq<u8>) -> [u8; 4] {
    [bytes[8], bytes[9], bytes[10], bytes[11]]
}

/// The words that follow the header of `bytes`.
pub open spec fn payload_of(bytes: Seq<u8>) -> Seq<u16> {
    pack8to16(bytes.skip(16))
}

/// What parsing `bytes` gives: the passkey and the plaintext, or the first
/// fault found. The length is looked at first, then the magic, then the
/// passkey, then the number of words.
pub open spec fn parsed(bytes: Seq<u8>) -> Result<([u8; 4], Seq<u8>), Fault> {
    if bytes.len() < 144 {
        Err(Fault::TooShort)
    } else if !has_magic(bytes) {
        Err(Fault::WrongFileType)
    } else {
        match decode_fault(passkey_of(bytes), payload_of(bytes)) {
            Some(e) => Err(e),
            None => Ok((passkey_of(bytes), decode(passkey_of(bytes), payload_of(bytes)))),
        }
    }
}

/// Reads a passkey off a slice, which has to be four bytes long.
pub fn passkey_from_slice(bytes: &[u8]) -> (res: Result<[u8; 4], Error>)
    ensures
        res is Ok <==> bytes@.len() == 4,
        res matches Ok(key) ==> key@ == bytes@,
        res matches Err(e) ==> e@ == Fault::WrongPasskeyType,
{
    if bytes.len() != 4 {
        return Err(Error::WrongPasskeyType);
    }
    let key: [u8; 4] = [bytes[0], bytes[1], bytes[2], bytes[3]];
    assert(key@ =~= bytes@);
    Ok(key)
}

/// Builds the container that holds `plaintext` under `passwd`. Fails on a key
/// that is not valid, and on nothing else.
pub fn assemble(passwd: &[u8; 4], plaintext: &[u8]) -> (res: Result<Vec<u8>, Error>)
    ensures
        res is Ok <==> valid_passkey(*passwd),
        res matches Ok(bytes) ==> bytes@ == container(*passwd, plaintext@),
        res matches Err(e) ==> passkey_fault(*passwd) == Some(e@),
{
    let words = match matrix_encode(passwd, plaintext) {
        Ok(words) => words,
        Err(e) => {
            return Err(e);
        },
    };
    let payload = sixteen_to_eight(words.as_slice());
    let mut inner: Vec<u8> = Vec::new();
    inner.push(3);
    inner.push(3);
    inner.push(4);
    inner.push(21);
    inner.push(7);
    inner.push(23);
    inner.push(10);
    inner.push(8);
    assert(inner@ =~= magic_a() + magic_b());
    append(&mut inner, passwd.as_slice());
    inner.push(25);
    inner.push(0);
    inner.push(0);
    inner.push(3);
    assert(inner@ =~= header(*passwd));
    append(&mut inner, payload.as_slice());
    Ok(inner)
}

/// Takes a container apart: the passkey from its header, and the plaintext that
/// its payload decodes to. Fails on fewer than 144 bytes, on a magic of which
/// either part differs from the format's, on a passkey that is not valid and on
/// a payload that packs to an odd number of words. Nothing in a container
/// vouches for its content: bytes that parse need not be bytes that this
/// library wrote.
pub fn parse(container: &[u8]) -> (res: Result<([u8; 4], Vec<u8>), Error>)
    ensures
        match res {
            Ok((key, plaintext)) => parsed(container@) == Ok::<([u8; 4], Seq<u8>), Fault>(
                (key, plaintext@),
            ),
            Err(e) => parsed(container@) == Err::<([u8; 4], Seq<u8>), Fault>(e@),
        },
{
    if container.len() < MIN_LEN {
        return Err(Error::TooShort);
    }
    let ghost bytes = container@;
    let ok_a = container[0] == 3 && container[1] == 3 && container[2] == 4 && container[3] == 21;
    let ok_b = container[4] == 7 && container[5] == 23 && container[6] == 10 && container[7]
        == 8;
    proof {
        let a = bytes.subrange(0, 4);
        let b = bytes.subrange(4, 8);
        if ok_a {
            assert(a =~= magic_a());
        } else {
            assert(a[0] == bytes[0] && a[1] == bytes[1] && a[2] == bytes[2] && a[3] == bytes[3]);
        }
        if ok_b {
            assert(b =~= magic_b());
        } else {
            assert(b[0] == bytes[4] && b[1] == bytes[5] && b[2] == bytes[6] && b[3] == bytes[7]);
        }
    }
    if !ok_a || !ok_b {
        return Err(Error::WrongFileType);
    }
    let passwd = match passkey_from_slice(&container[8..12]) {
        Ok(key) => key,
        Err(e) => {
            return Err(e);
        },
    };
    proof {
        assert(passwd@ =~= passkey_of(bytes)@);
        assert(passwd == passkey_of(bytes));
        assert(bytes.subrange(16, bytes.len() as int) =~= bytes.skip(16));
    }
    let words = eight_to_sixteen(&container[HEADER_LEN..container.len()]);
    match matrix_decode(&passwd, words.as_slice()) {
        Ok(plaintext) => Ok((passwd, plaintext)),
        Err(e) => Err(e),
    }
}

/// Builds the container anew from the one there is: the passkey is read off the
/// header of `current`, and `text` is encoded under it. Fails on a `current`
/// of fewer than 144 bytes, and on a passkey in it that is not valid.
pub fn reserialize(current: &[u8], text: &[u8]) -> (res: Result<Vec<u8>, Error>)
    ensures
        res is Ok <==> sound(current@),
        res matches Ok(bytes) ==> bytes@ == container(passkey_of(current@), text@),
        res matches Err(e) ==> e@ == (if current@.len() < 144 {
            Fault::TooShort
        } else {
            passkey_fault(passkey_of(current@))->0
        }),
{
    if current.len() < MIN_LEN {
        return Err(Error::TooShort);
    }
    let passwd = match passkey_from_slice(&current[8..12]) {
        Ok(key) => key,
        Err(e) => {
            return Err(e);
        },
    };
    proof {
        assert(passwd@ =~= passkey_of(current@)@);
        assert(passwd == passkey_of(current@));
    }
    assemble(&passwd, text)
}

/// What holds of the bytes of every `Container`: they are long enough for a
/// header and a base region, and the passkey in the header is valid.
pub open spec fn sound(bytes: Seq<u8>) -> bool {
    bytes.len() >= 144 && valid_passkey(passkey_of(bytes))
}

/// The bytes of a container, known to be sound. The passkey is part of them:
/// it is set when the container is made and stays through every rebuilding.
#[derive(Debug)]
pub struct Container {
    bytes: Vec<u8>,
}

impl View for Container {
    type V = Seq<u8>;

    closed spec fn view(&self) -> Seq<u8> {
        self.bytes@
    }
}

impl Container {
    #[verifier::type_invariant]
    spec fn wf(&self) -> bool {
        sound(self.bytes@)
    }

    /// The container that holds `text` under `passwd`. Fails on a passkey that
    /// is not valid, and on a `text` shorter than the 64 bytes of a base
    /// region.
    pub fn new(passwd: &[u8; 4], text: &[u8]) -> (res: Result<Container, Error>)
        ensures
            res is Ok <==> valid_passkey(*passwd) && text@.len() >= 64,
            res matches Ok(c) ==> c@ == container(*passwd, text@),
            res matches Err(e) ==> e@ == (if passkey_fault(*passwd) is Some {
                passkey_fault(*passwd)->0
            } else {
                Fault::TooShort
            }),
    {
        let bytes = match assemble(passwd, text) {
            Ok(bytes) => bytes,
            Err(e) => {
                return Err(e);
            },
        };
        if text.len() < 64 {
            return Err(Error::TooShort);
        }
        proof {
            lemma_container_parts(*passwd, text@);
        }
        Ok(Container { bytes })
    }

    /// The container that is `raw`, and the plaintext it holds. Fails as
    /// `parsed` says.
    pub fn from_raw(raw: &[u8]) -> (res: Result<(Container, Vec<u8>), Error>)
        ensures
            match res {
                Ok((c, text)) => c@ == raw@ && parsed(raw@) == Ok::<([u8; 4], Seq<u8>), Fault>(
                    (passkey_of(raw@), text@),
                ),
                Err(e) => parsed(raw@) == Err::<([u8; 4], Seq<u8>), Fault>(e@),
            },
    {
        match parse(raw) {
            Ok((_, text)) => Ok((Container { bytes: slice_to_vec(raw) }, text)),
            Err(e) => Err(e),
        }
    }

    /// The bytes. They are sound, as those of every container.
    pub fn as_ref(&self) -> (res: &[u8])
        ensures
            res@ == self@,
            sound(self@),
    {
        proof {
            use_type_invariant(self);
        }
        self.bytes.as_slice()
    }

    /// The passkey in the header.
    pub fn passkey(&self) -> (res: [u8; 4])
        ensures
            res == passkey_of(self@),
            valid_passkey(res),
    {
        proof {
            use_type_invariant(self);
        }
        let key: [u8; 4] = [self.bytes[8], self.bytes[9], self.bytes[10], self.bytes[11]];
        assert(key@ =~= passkey_of(self@)@);
        key
    }

    /// Puts `text` in place of what the container holds, under the passkey it
    /// has. A `text` shorter than the 64 bytes of a base region is refused,
    /// and the container stays as it is.
    pub fn rebuild(&mut self, text: &[u8]) -> (res: Result<(), Error>)
        ensures
            res is Ok <==> text@.len() >= 64,
            res is Ok ==> final(self)@ == container(passkey_of(old(self)@), text@),
            res matches Err(e) ==> e@ == Fault::TooShort && final(self)@ == old(self)@,
            passkey_of(final(self)@) == passkey_of(old(self)@),
    {
        proof {
            use_type_invariant(&*self);
        }
        if text.len() < 64 {
            return Err(Error::TooShort);
        }
        match reserialize(self.bytes.as_slice(), text) {
            Ok(bytes) => {
                proof {
                    lemma_container_parts(passkey_of(self.bytes@), text@);
                }
                self.bytes = bytes;
                Ok(())
            },
            Err(e) => Err(e),
        }
    }
}

/// The first sixteen bytes of a container under `key` are its header, and what
/// follows them are the packed words.
pub proof fn lemma_container_parts(key: [u8; 4], plaintext: Seq<u8>)
    ensures
        container(key, plaintext).len() == 16 + 2 * encode(key, plaintext).len(),
        has_magic(container(key, plaintext)),
        passkey_of(container(key, plaintext)) == key,
        container(key, plaintext).skip(16) == pack16to8(encode(key, plaintext)),
        payload_of(container(key, plaintext)) == encode(key, plaintext),
{
    let c = container(key, plaintext);
    assert(header(key).len() == 16);
    assert(c.subrange(0, 4) =~= magic_a());
    assert(c.subrange(4, 8) =~= magic_b());
    assert(passkey_of(c)@ =~= key@);
    assert(passkey_of(c) == key);
    assert(c.skip(16) =~= pack16to8(encode(key, plaintext)));
    lemma_pack8to16_pack16to8(encode(key, plaintext));
}

/// Parsing what was assembled gives the passkey and the plaintext back, for
/// every valid key and every plaintext of at least 64 bytes and of even length.
/// For an odd length the plaintext comes back with one zero byte after it.
pub proof fn lemma_parse_assemble(key: [u8; 4], plaintext: Seq<u8>)
    requires
        valid_passkey(key),
        plaintext.len() >= 64,
    ensures
        parsed(container(key, plaintext)) == Ok::<([u8; 4], Seq<u8>), Fault>(
            (key, padded_even(plaintext)),
        ),
        plaintext.len() % 2 == 0 ==> parsed(container(key, plaintext)) == Ok::<
            ([u8; 4], Seq<u8>),
            Fault,
        >((key, plaintext)),
{
    lemma_container_parts(key, plaintext);
    lemma_decode_encode(key, plaintext);
}

/// A container in which a byte of either part of the magic is changed is
/// refused as of the wrong type, whatever else it holds.
pub proof fn lemma_altered_magic(bytes: Seq<u8>, at: int, to: u8)
    requires
        bytes.len() >= 144,
        has_magic(bytes),
        0 <= at < 8,
        to != bytes[at],
    ensures
        parsed(bytes.update(at, to)) == Err::<([u8; 4], Seq<u8>), Fault>(Fault::WrongFileType),
{
    let changed = bytes.update(at, to);
    if at < 4 {
        assert(changed.subrange(0, 4)[at] == to);
        assert(bytes.subrange(0, 4)[at] == bytes[at]);
    } else {
        assert(changed.subrange(4, 8)[at - 4] == to);
        assert(bytes.subrange(4, 8)[at - 4] == bytes[at]);
    }
}

/// A container of full length is refused as of the wrong type exactly when one
/// of the two parts of its magic is not the format's.
pub proof fn lemma_magic_rejected(bytes: Seq<u8>)
    requires
        bytes.len() >= 144,
    ensures
        (bytes.subrange(0, 4) != magic_a() || bytes.subrange(4, 8) != magic_b()) <==> parsed(bytes)
            == Err::<([u8; 4], Seq<u8>), Fault>(Fault::WrongFileType),
{
}

} // verus!
