//! The cipher: a 2x2 integer matrix applied to byte pairs, and the packing of
//! 16-bit words into bytes and back.

use vstd::prelude::*;
use crate::error::{Error, Fault};

verus! {

/// The largest value a passkey component may take.
pub const PASSKEY_MAX: u8 = 128;

/// Every component of the key is at most 128.
pub open spec fn passkey_in_range(key: [u8; 4]) -> bool {
    forall|i: int| 0 <= i < 4 ==> key[i] <= 128
}

/// The determinant `a*d - b*c` of the key read as the matrix `[[a, b], [c, d]]`.
pub open spec fn determinant(key: [u8; 4]) -> int {
    key[0] * key[3] - key[1] * key[2]
}

/// A key the cipher accepts: components in range and a positive determinant.
pub open spec fn valid_passkey(key: [u8; 4]) -> bool {
    passkey_in_range(key) && determinant(key) > 0
}

/// The byte at `i`, or zero past the end: an odd-length input is encoded as if
/// one zero byte followed it.
pub open spec fn byte_or_zero(data: Seq<u8>, i: int) -> int {
    if 0 <= i < data.len() {
        data[i] as int
    } else {
        0
    }
}

/// The word at position `i` of the encoding: the first or the second row of the
/// matrix applied to the pair that `i` falls in.
pub open spec fn encoded_word(key: [u8; 4], data: Seq<u8>, i: int) -> int {
    let first = byte_or_zero(data, i / 2 * 2);
    let second = byte_or_zero(data, i / 2 * 2 + 1);
    if i % 2 == 0 {
        key[0] * first + key[1] * second
    } else {
        key[2] * first + key[3] * second
    }
}

/// The encoding of `data` under `key`: two words for every pair of bytes, and
/// two for a trailing single byte.
pub open spec fn encode(key: [u8; 4], data: Seq<u8>) -> Seq<u16> {
    Seq::new(
        ((data.len() + 1) / 2 * 2) as nat,
        |i: int| encoded_word(key, data, i) as u16,
    )
}

/// A difference as 32-bit unsigned arithmetic gives it.
pub open spec fn wrap32(x: int) -> int {
    x % 0x1_0000_0000
}

/// The byte at position `i` of the decoding. On words that `encode` produced the
/// division is exact; on others the difference wraps and the quotient is cut to
/// its low eight bits.
pub open spec fn decoded_byte(key: [u8; 4], words: Seq<u16>, i: int) -> u8 {
    let w0 = words[i / 2 * 2] as int;
    let w1 = words[i / 2 * 2 + 1] as int;
    let num = if i % 2 == 0 {
        wrap32(key[3] * w0 - key[1] * w1)
    } else {
        wrap32(key[0] * w1 - key[2] * w0)
    };
    ((num / determinant(key)) % 256) as u8
}

/// The decoding of an even number of words under `key`: one byte per word.
pub open spec fn decode(key: [u8; 4], words: Seq<u16>) -> Seq<u8> {
    Seq::new(words.len(), |i: int| decoded_byte(key, words, i))
}

/// High and low byte of every word, in order.
pub open spec fn pack16to8(words: Seq<u16>) -> Seq<u8> {
    Seq::new(
        2 * words.len(),
        |i: int|
            if i % 2 == 0 {
                (words[i / 2] / 256) as u8
            } else {
                (words[i / 2] % 256) as u8
            },
    )
}

/// Byte pairs joined big-endian; a trailing single byte is a word by itself,
/// with the byte as its value.
pub open spec fn pack8to16(bytes: Seq<u8>) -> Seq<u16> {
    Seq::new(
        ((bytes.len() + 1) / 2) as nat,
        |i: int|
            if 2 * i + 1 < bytes.len() {
                (256 * bytes[2 * i] + bytes[2 * i + 1]) as u16
            } else {
                bytes[2 * i] as u16
            },
    )
}

/// What checking a key answers: nothing for a valid key, else the reason. The
/// range of the components is looked at before the determinant.
pub open spec fn passkey_fault(key: [u8; 4]) -> Option<Fault> {
    if !passkey_in_range(key) {
        Some(Fault::PasskeyTooBig)
    } else if determinant(key) <= 0 {
        Some(Fault::PasskeyNotPositive)
    } else {
        None
    }
}

/// Checks a key as the cipher does before it encodes or decodes.
pub fn check_passkey(passwd: &[u8; 4]) -> (res: Result<(), Error>)
    ensures
        res is Ok <==> valid_passkey(*passwd),
        res matches Err(e) ==> passkey_fault(*passwd) == Some(e@),
{
    let mut i: usize = 0;
    while i < 4
        invariant
            i <= 4,
            forall|j: int| 0 <= j < i ==> passwd[j] <= 128,
        decreases 4 - i,
    {
        if passwd[i] > PASSKEY_MAX {
            return Err(Error::PasskeyTooBig);
        }
        i += 1;
    }
    let a: u16 = passwd[0] as u16;
    let b: u16 = passwd[1] as u16;
    let c: u16 = passwd[2] as u16;
    let d: u16 = passwd[3] as u16;
    assert(a * d <= 128 * 128 && b * c <= 128 * 128) by (nonlinear_arith)
        requires
            a <= 128,
            b <= 128,
            c <= 128,
            d <= 128,
    ;
    if a * d <= b * c {
        return Err(Error::PasskeyNotPositive);
    }
    Ok(())
}

/// A product of a key component and a byte stays below 2^15.
proof fn lemma_product_bound(k: int, p: int)
    requires
        0 <= k <= 128,
        0 <= p <= 255,
    ensures
        0 <= k * p <= 32640,
{
    assert(0 <= k * p <= 32640) by (nonlinear_arith)
        requires
            0 <= k <= 128,
            0 <= p <= 255,
    ;
}

/// Encodes `data` under `passwd`. Fails on a key with a component above 128 or
/// with a determinant that is not positive, and on nothing else.
pub fn matrix_encode(passwd: &[u8; 4], data: &[u8]) -> (res: Result<Vec<u16>, Error>)
    ensures
        res is Ok <==> valid_passkey(*passwd),
        res matches Ok(words) ==> words@ == encode(*passwd, data@),
        res matches Err(e) ==> passkey_fault(*passwd) == Some(e@),
{
    match check_passkey(passwd) {
        Err(e) => {
            return Err(e);
        },
        Ok(()) => {},
    }
    let a: u16 = passwd[0] as u16;
    let b: u16 = passwd[1] as u16;
    let c: u16 = passwd[2] as u16;
    let d: u16 = passwd[3] as u16;
    let len: usize = data.len();
    let max: usize = len / 2;
    let mut res: Vec<u16> = Vec::new();
    let mut i: usize = 0;
    while i < max
        invariant
            i <= max,
            max == len / 2,
            len == data@.len(),
            a == passwd[0] && b == passwd[1] && c == passwd[2] && d == passwd[3],
            a <= 128 && b <= 128 && c <= 128 && d <= 128,
            res@.len() == 2 * i,
            forall|j: int| 0 <= j < 2 * i ==> res@[j] == encoded_word(*passwd, data@, j) as u16,
        decreases max - i,
    {
        let first: u16 = data[2 * i] as u16;
        let second: u16 = data[2 * i + 1] as u16;
        proof {
            lemma_product_bound(a as int, first as int);
            lemma_product_bound(b as int, second as int);
            lemma_product_bound(c as int, first as int);
            lemma_product_bound(d as int, second as int);
        }
        res.push(a * first + b * second);
        res.push(c * first + d * second);
        i += 1;
    }
    if len % 2 == 1 {
        let p: u16 = data[len - 1] as u16;
        proof {
            lemma_product_bound(a as int, p as int);
            lemma_product_bound(c as int, p as int);
            assert(b * 0 == 0 && d * 0 == 0);
        }
        res.push(a * p);
        res.push(c * p);
    }
    assert(res@ =~= encode(*passwd, data@));
    Ok(res)
}

/// What `matrix_decode` answers on a word count that is odd or a key that is
/// not valid; the key is looked at first.
pub open spec fn decode_fault(key: [u8; 4], words: Seq<u16>) -> Option<Fault> {
    if passkey_fault(key) is Some {
        passkey_fault(key)
    } else if words.len() % 2 == 1 {
        Some(Fault::OddWordCount)
    } else {
        None
    }
}

/// One numerator of the inverse transform, as 32-bit unsigned arithmetic gives
/// it, divided by the determinant and cut to a byte.
fn decode_one(x: u32, y: u32, det: u32) -> (res: u8)
    requires
        x <= 128 * 65535,
        y <= 128 * 65535,
        det > 0,
    ensures
        res == ((wrap32(x - y) / (det as int)) % 256) as u8,
{
    let num: u64 = if x >= y {
        (x - y) as u64
    } else {
        x as u64 + 0x1_0000_0000u64 - y as u64
    };
    let q: u64 = num / (det as u64);
    (q % 256) as u8
}

/// Decodes `data` under `passwd`, one byte for every word. Fails on a key that
/// is not valid and on an odd number of words, and on nothing else. Words that
/// no encoding under this key produced are decoded all the same, to bytes that
/// mean nothing.
pub fn matrix_decode(passwd: &[u8; 4], data: &[u16]) -> (res: Result<Vec<u8>, Error>)
    ensures
        res is Ok <==> valid_passkey(*passwd) && data@.len() % 2 == 0,
        res matches Ok(bytes) ==> bytes@ == decode(*passwd, data@),
        res matches Err(e) ==> decode_fault(*passwd, data@) == Some(e@),
{
    match check_passkey(passwd) {
        Err(e) => {
            return Err(e);
        },
        Ok(()) => {},
    }
    if data.len() % 2 == 1 {
        return Err(Error::OddWordCount);
    }
    let a: u32 = passwd[0] as u32;
    let b: u32 = passwd[1] as u32;
    let c: u32 = passwd[2] as u32;
    let d: u32 = passwd[3] as u32;
    assert(a * d <= 128 * 128 && b * c <= 128 * 128) by (nonlinear_arith)
        requires
            a <= 128,
            b <= 128,
            c <= 128,
            d <= 128,
    ;
    let val: u32 = a * d - b * c;
    let len: usize = data.len();
    let max: usize = len / 2;
    let mut res: Vec<u8> = Vec::new();
    let mut i: usize = 0;
    while i < max
        invariant
            i <= max,
            max == len / 2,
            len == data@.len(),
            len % 2 == 0,
            a == passwd[0] && b == passwd[1] && c == passwd[2] && d == passwd[3],
            a <= 128 && b <= 128 && c <= 128 && d <= 128,
            val == determinant(*passwd),
            val > 0,
            res@.len() == 2 * i,
            forall|j: int| 0 <= j < 2 * i ==> res@[j] == decoded_byte(*passwd, data@, j),
        decreases max - i,
    {
        let w0: u32 = data[2 * i] as u32;
        let w1: u32 = data[2 * i + 1] as u32;
        proof {
            lemma_word_product_bound(d as int, w0 as int);
            lemma_word_product_bound(b as int, w1 as int);
            lemma_word_product_bound(a as int, w1 as int);
            lemma_word_product_bound(c as int, w0 as int);
        }
        res.push(decode_one(d * w0, b * w1, val));
        res.push(decode_one(a * w1, c * w0, val));
        i += 1;
    }
    assert(res@ =~= decode(*passwd, data@));
    Ok(res)
}

/// A product of a key component and a word stays below 2^23.
proof fn lemma_word_product_bound(k: int, w: int)
    requires
        0 <= k <= 128,
        0 <= w <= 65535,
    ensures
        0 <= k * w <= 128 * 65535,
{
    assert(0 <= k * w <= 128 * 65535) by (nonlinear_arith)
        requires
            0 <= k <= 128,
            0 <= w <= 65535,
    ;
}

/// Splits each word into its high and its low byte. A word count that is odd
/// changes nothing: every word gives two bytes.
pub fn sixteen_to_eight(from: &[u16]) -> (res: Vec<u8>)
    ensures
        res@ == pack16to8(from@),
{
    let mut res: Vec<u8> = Vec::new();
    let mut i: usize = 0;
    while i < from.len()
        invariant
            i <= from@.len(),
            res@.len() == 2 * i,
            forall|j: int| 0 <= j < 2 * i ==> res@[j] == pack16to8(from@)[j],
        decreases from@.len() - i,
    {
        let w: u16 = from[i];
        res.push((w / 256) as u8);
        res.push((w % 256) as u8);
        i += 1;
    }
    assert(res@ =~= pack16to8(from@));
    res
}

/// Joins byte pairs into words, the first byte high. A trailing single byte
/// becomes a word of its own whose value is that byte.
pub fn eight_to_sixteen(from: &[u8]) -> (res: Vec<u16>)
    ensures
        res@ == pack8to16(from@),
{
    let mut res: Vec<u16> = Vec::new();
    let len: usize = from.len();
    let max: usize = len / 2;
    let mut i: usize = 0;
    while i < max
        invariant
            i <= max,
            max == len / 2,
            len == from@.len(),
            res@.len() == i,
            forall|j: int| 0 <= j < i ==> res@[j] == pack8to16(from@)[j],
        decreases max - i,
    {
        res.push(256 * (from[2 * i] as u16) + from[2 * i + 1] as u16);
        i += 1;
    }
    if len % 2 == 1 {
        res.push(from[len - 1] as u16);
    }
    assert(res@ =~= pack8to16(from@));
    res
}

/// `data`, with one zero byte appended where its length is odd.
pub open spec fn padded_even(data: Seq<u8>) -> Seq<u8> {
    if data.len() % 2 == 1 {
        data.push(0u8)
    } else {
        data
    }
}

/// The inverse transform undoes the matrix on one pair: the numerators are the
/// determinant times the bytes.
proof fn lemma_pair_inverse(a: int, b: int, c: int, d: int, first: int, second: int)
    requires
        0 <= a <= 128,
        0 <= b <= 128,
        0 <= c <= 128,
        0 <= d <= 128,
        a * d - b * c > 0,
        0 <= first <= 255,
        0 <= second <= 255,
    ensures
        0 <= a * first + b * second <= 65535,
        0 <= c * first + d * second <= 65535,
        wrap32(d * (a * first + b * second) - b * (c * first + d * second)) / (a * d - b * c)
            % 256 == first,
        wrap32(a * (c * first + d * second) - c * (a * first + b * second)) / (a * d - b * c)
            % 256 == second,
{
    let det = a * d - b * c;
    lemma_product_bound(a, first);
    lemma_product_bound(b, second);
    lemma_product_bound(c, first);
    lemma_product_bound(d, second);
    assert(d * (a * first + b * second) - b * (c * first + d * second) == det * first) by (
        nonlinear_arith)
        requires
            det == a * d - b * c,
    ;
    assert(a * (c * first + d * second) - c * (a * first + b * second) == det * second) by (
        nonlinear_arith)
        requires
            det == a * d - b * c,
    ;
    assert(det <= 128 * 128) by (nonlinear_arith)
        requires
            det == a * d - b * c,
            0 <= a <= 128,
            0 <= b <= 128,
            0 <= c <= 128,
            0 <= d <= 128,
    ;
    assert(0 <= det * first <= 128 * 128 * 255 && (det * first) / det == first) by (
        nonlinear_arith)
        requires
            0 < det <= 128 * 128,
            0 <= first <= 255,
    ;
    assert(0 <= det * second <= 128 * 128 * 255 && (det * second) / det == second) by (
        nonlinear_arith)
        requires
            0 < det <= 128 * 128,
            0 <= second <= 255,
    ;
}

/// Decoding what was encoded gives the data back, for every valid key and every
/// sequence of bytes of even length. For an odd length the result is the data
/// with one zero byte after it: the encoder treats the last byte as a pair with
/// zero, and the decoder returns the pair.
pub proof fn lemma_decode_encode(key: [u8; 4], data: Seq<u8>)
    requires
        valid_passkey(key),
    ensures
        encode(key, data).len() % 2 == 0,
        decode(key, encode(key, data)) == padded_even(data),
        data.len() % 2 == 0 ==> decode(key, encode(key, data)) == data,
{
    let words = encode(key, data);
    let back = decode(key, words);
    let want = padded_even(data);
    assert(back.len() == want.len());
    assert forall|i: int| 0 <= i < back.len() implies back[i] == want[i] by {
        let k = i / 2 * 2;
        let first = byte_or_zero(data, k);
        let second = byte_or_zero(data, k + 1);
        lemma_pair_inverse(
            key[0] as int,
            key[1] as int,
            key[2] as int,
            key[3] as int,
            first,
            second,
        );
        assert(k / 2 * 2 == k && (k + 1) / 2 * 2 == k);
        assert(words[k] == encoded_word(key, data, k) as u16);
        assert(words[k + 1] == encoded_word(key, data, k + 1) as u16);
        assert(words[k] as int == key[0] * first + key[1] * second);
        assert(words[k + 1] as int == key[2] * first + key[3] * second);
        if i % 2 == 0 {
            assert(i == k);
            assert(back[i] as int == first);
        } else {
            assert(i == k + 1);
            assert(back[i] as int == second);
        }
    }
    assert(back =~= want);
}

/// Packing words into bytes and the bytes into words again gives the words
/// back, whatever their number.
pub proof fn lemma_pack8to16_pack16to8(words: Seq<u16>)
    ensures
        pack8to16(pack16to8(words)) == words,
{
    let bytes = pack16to8(words);
    let back = pack8to16(bytes);
    assert(back.len() == words.len());
    assert forall|i: int| 0 <= i < words.len() implies back[i] == words[i] by {
        assert(bytes[2 * i] == (words[i] / 256) as u8);
        assert(bytes[2 * i + 1] == (words[i] % 256) as u8);
    }
    assert(back =~= words);
}

/// What packing bytes into words and the words into bytes again gives: the
/// bytes themselves where their number is even; where it is odd, the last byte
/// comes back as two, a zero and the byte.
pub open spec fn repacked(bytes: Seq<u8>) -> Seq<u8> {
    if bytes.len() % 2 == 1 {
        bytes.drop_last().push(0u8).push(bytes.last())
    } else {
        bytes
    }
}

/// The two packings are not inverse on an odd number of bytes: the trailing
/// byte becomes one word, and the word two bytes. On an even number they are.
pub proof fn lemma_pack16to8_pack8to16(bytes: Seq<u8>)
    ensures
        pack16to8(pack8to16(bytes)) == repacked(bytes),
        bytes.len() % 2 == 0 ==> pack16to8(pack8to16(bytes)) == bytes,
        bytes.len() % 2 == 1 ==> pack16to8(pack8to16(bytes)).len() == bytes.len() + 1,
{
    let words = pack8to16(bytes);
    let back = pack16to8(words);
    let want = repacked(bytes);
    assert(back.len() == want.len());
    assert forall|i: int| 0 <= i < back.len() implies back[i] == want[i] by {
        let k = i / 2;
        if 2 * k + 1 < bytes.len() {
            assert(words[k] as int == 256 * bytes[2 * k] + bytes[2 * k + 1]);
        } else {
            assert(words[k] as int == bytes[2 * k] as int);
        }
    }
    assert(back =~= want);
}

} // verus!
