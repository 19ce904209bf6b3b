//! Searching, cutting and trimming byte strings: what the formats and the
//! protocol are read with.
//!
//! A search finds the first occurrence, and a cut is made there. White space
//! is what Unicode marks as such, in its UTF-8 form: the blank and the five
//! bytes from tab to carriage return, two characters of two bytes and fifteen
//! of three. A zero byte is none.

use vstd::prelude::*;
use vstd::slice::slice_to_vec;

verus! {

/// `needle` stands in `hay` at index `i`.
pub open spec fn occurs_at(hay: Seq<u8>, needle: Seq<u8>, i: int) -> bool {
    0 <= i && i + needle.len() <= hay.len() && hay.subrange(i, i + needle.len()) == needle
}

/// The least index at or after `from` at which `needle` stands in `hay`.
pub open spec fn find_from(hay: Seq<u8>, needle: Seq<u8>, from: int) -> Option<int>
    decreases hay.len() + 1 - from,
{
    if from < 0 || from + needle.len() > hay.len() {
        None
    } else if occurs_at(hay, needle, from) {
        Some(from)
    } else {
        find_from(hay, needle, from + 1)
    }
}

/// The index of the first occurrence of `needle` in `hay`.
pub open spec fn find_first(hay: Seq<u8>, needle: Seq<u8>) -> Option<int> {
    find_from(hay, needle, 0)
}

/// `needle` occurs somewhere in `hay`.
pub open spec fn occurs(hay: Seq<u8>, needle: Seq<u8>) -> bool {
    find_first(hay, needle) is Some
}

/// What stands before the first occurrence of `needle` and what stands after
/// it.
pub open spec fn cut(hay: Seq<u8>, needle: Seq<u8>) -> Option<(Seq<u8>, Seq<u8>)> {
    match find_first(hay, needle) {
        Some(i) => Some((hay.take(i), hay.skip(i + needle.len()))),
        None => None,
    }
}

/// `hay` cut at every occurrence of a non-empty `needle`, from the left, the
/// occurrences not overlapping. There is always at least one piece.
pub open spec fn pieces(hay: Seq<u8>, needle: Seq<u8>) -> Seq<Seq<u8>>
    decreases hay.len(),
{
    if needle.len() == 0 {
        seq![hay]
    } else {
        match find_first(hay, needle) {
            Some(i) => {
                proof {
                    lemma_find_from(hay, needle, 0);
                }
                seq![hay.take(i)] + pieces(hay.skip(i + needle.len()), needle)
            },
            None => seq![hay],
        }
    }
}

/// White space of one byte: the blank, and tab to carriage return.
pub open spec fn is_space(b: u8) -> bool {
    b == 32 || 9 <= b <= 13
}

/// White space of two bytes: next line (U+0085) and the blank that does not
/// break (U+00A0).
pub open spec fn is_space2(a: u8, b: u8) -> bool {
    a == 0xC2 && (b == 0x85 || b == 0xA0)
}

/// White space of three bytes: U+1680, U+2000 to U+200A, U+2028, U+2029,
/// U+202F, U+205F and U+3000.
pub open spec fn is_space3(a: u8, b: u8, c: u8) -> bool {
    ||| a == 0xE1 && b == 0x9A && c == 0x80
    ||| a == 0xE2 && b == 0x80 && (0x80 <= c <= 0x8A || c == 0xA8 || c == 0xA9 || c == 0xAF)
    ||| a == 0xE2 && b == 0x81 && c == 0x9F
    ||| a == 0xE3 && b == 0x80 && c == 0x80
}

/// The number of bytes of the white space character that `s` begins with; 0
/// where it begins with none.
pub open spec fn space_at(s: Seq<u8>) -> int {
    if s.len() >= 1 && is_space(s[0]) {
        1
    } else if s.len() >= 2 && is_space2(s[0], s[1]) {
        2
    } else if s.len() >= 3 && is_space3(s[0], s[1], s[2]) {
        3
    } else {
        0
    }
}

/// The number of bytes of the white space character that `s` ends with; 0
/// where it ends with none.
pub open spec fn space_end(s: Seq<u8>) -> int {
    let n = s.len() as int;
    if n >= 1 && is_space(s[n - 1]) {
        1
    } else if n >= 2 && is_space2(s[n - 2], s[n - 1]) {
        2
    } else if n >= 3 && is_space3(s[n - 3], s[n - 2], s[n - 1]) {
        3
    } else {
        0
    }
}

/// `s` without the white space it begins with.
pub open spec fn trim_start(s: Seq<u8>) -> Seq<u8>
    decreases s.len(),
{
    if space_at(s) > 0 {
        trim_start(s.skip(space_at(s)))
    } else {
        s
    }
}

/// `s` without the white space it ends with.
pub open spec fn trim_end(s: Seq<u8>) -> Seq<u8>
    decreases s.len(),
{
    if space_end(s) > 0 {
        trim_end(s.take(s.len() - space_end(s)))
    } else {
        s
    }
}

/// Neither end of `s` is white space: trimming leaves it as it is.
pub open spec fn trim_free(s: Seq<u8>) -> bool {
    space_at(s) == 0 && space_end(s) == 0
}

/// `s` without white space at either end.
pub open spec fn trimmed(s: Seq<u8>) -> Seq<u8> {
    trim_end(trim_start(s))
}

/// `s` without the bytes equal to `b`.
pub open spec fn without(s: Seq<u8>, b: u8) -> Seq<u8> {
    s.filter(|x: u8| x != b)
}

/// The items, with `sep` between each two of them.
pub open spec fn joined(items: Seq<Seq<u8>>, sep: Seq<u8>) -> Seq<u8>
    decreases items.len(),
{
    if items.len() == 0 {
        Seq::empty()
    } else if items.len() == 1 {
        items[0]
    } else {
        joined(items.drop_last(), sep) + sep + items.last()
    }
}

/// The pairs of a list of pairs of byte strings as sequences.
pub open spec fn pairs_view(items: Seq<(Vec<u8>, Vec<u8>)>) -> Seq<(Seq<u8>, Seq<u8>)> {
    items.map_values(|item: (Vec<u8>, Vec<u8>)| (item.0@, item.1@))
}

/// The items of a list of byte strings as sequences.
pub open spec fn views(items: Seq<Vec<u8>>) -> Seq<Seq<u8>> {
    items.map_values(|item: Vec<u8>| item@)
}

/// `line` without the carriage return it may end with.
pub open spec fn without_cr(line: Seq<u8>) -> Seq<u8> {
    if line.len() > 0 && line.last() == 13u8 {
        line.drop_last()
    } else {
        line
    }
}

/// The lines of `text`. A line ends with a line feed, before which one carriage
/// return is dropped; what follows the last line feed is a line if it is not
/// empty, and keeps a carriage return at its end.
pub open spec fn lines_of(text: Seq<u8>) -> Seq<Seq<u8>>
    decreases text.len(),
{
    if text.len() == 0 {
        Seq::empty()
    } else {
        match find_first(text, seq![10u8]) {
            Some(at) => {
                proof {
                    lemma_find_from(text, seq![10u8], 0);
                }
                seq![without_cr(text.take(at))] + lines_of(text.skip(at + 1))
            },
            None => seq![text],
        }
    }
}

/// How many bytes `s` begins with before white space begins.
pub open spec fn word_len(s: Seq<u8>) -> int
    decreases s.len(),
{
    if s.len() == 0 || space_at(s) > 0 {
        0
    } else {
        1 + word_len(s.skip(1))
    }
}

/// The words of `s`: the longest runs of bytes without white space.
pub open spec fn words_of(s: Seq<u8>) -> Seq<Seq<u8>>
    decreases s.len(),
{
    let rest = trim_start(s);
    if rest.len() == 0 {
        Seq::empty()
    } else {
        proof {
            lemma_trim_start(s);
            lemma_word_len(rest);
        }
        seq![rest.take(word_len(rest))] + words_of(rest.skip(word_len(rest)))
    }
}

/// The decimal digits of `n`, as characters.
pub open spec fn digits(n: nat) -> Seq<u8>
    decreases n,
{
    if n < 10 {
        seq![(48 + n) as u8]
    } else {
        digits(n / 10).push((48 + n % 10) as u8)
    }
}

/// What trimming at the start leaves is a tail of the string and does not
/// begin with white space.
pub proof fn lemma_trim_start(s: Seq<u8>)
    ensures
        trim_start(s).len() <= s.len(),
        trim_start(s) == s.skip(s.len() - trim_start(s).len()),
        space_at(trim_start(s)) == 0,
    decreases s.len(),
{
    let n = space_at(s);
    if n > 0 {
        lemma_trim_start(s.skip(n));
        let t = trim_start(s.skip(n));
        assert(s.skip(n).skip(s.skip(n).len() - t.len()) =~= s.skip(s.len() - t.len()));
    } else {
        assert(s.skip(0) =~= s);
    }
}

/// A word is no longer than the string it begins, and is not empty where the
/// string is not and begins with no white space.
pub proof fn lemma_word_len(s: Seq<u8>)
    ensures
        0 <= word_len(s) <= s.len(),
        s.len() > 0 && space_at(s) == 0 ==> word_len(s) > 0,
    decreases s.len(),
{
    if s.len() == 0 || space_at(s) > 0 {
    } else {
        lemma_word_len(s.skip(1));
    }
}

/// `find_from` returns the least index from `from` on at which the needle
/// stands, and nothing exactly when it stands at none.
pub proof fn lemma_find_from(hay: Seq<u8>, needle: Seq<u8>, from: int)
    requires
        0 <= from,
    ensures
        match find_from(hay, needle, from) {
            Some(i) => from <= i && occurs_at(hay, needle, i) && forall|j: int|
                from <= j < i ==> !occurs_at(hay, needle, j),
            None => forall|j: int| from <= j ==> !occurs_at(hay, needle, j),
        },
    decreases hay.len() + 1 - from,
{
    if from + needle.len() > hay.len() {
    } else if occurs_at(hay, needle, from) {
    } else {
        lemma_find_from(hay, needle, from + 1);
    }
}

/// Where `sep` is no byte of `a`, the first cut of `a`, `sep`, `b` at `sep`
/// falls between `a` and `b`.
pub proof fn lemma_cut_joint(a: Seq<u8>, sep: u8, b: Seq<u8>)
    requires
        !a.contains(sep),
    ensures
        find_first(a + seq![sep] + b, seq![sep]) == Some(a.len() as int),
        cut(a + seq![sep] + b, seq![sep]) == Some((a, b)),
{
    let s = a + seq![sep] + b;
    let n = a.len() as int;
    lemma_find_from(s, seq![sep], 0);
    assert(s.subrange(n, n + 1) =~= seq![sep]);
    assert(occurs_at(s, seq![sep], n));
    assert forall|j: int| 0 <= j < n implies !occurs_at(s, seq![sep], j) by {
        if occurs_at(s, seq![sep], j) {
            assert(s.subrange(j, j + 1)[0] == sep);
            assert(a[j] == sep);
            assert(a.contains(sep));
        }
    }
    assert(s.take(n) =~= a);
    assert(s.skip(n + 1) =~= b);
}

/// A string without the byte `sep` is cut nowhere: it is its own single piece.
pub proof fn lemma_pieces_single(a: Seq<u8>, sep: u8)
    requires
        !a.contains(sep),
    ensures
        find_first(a, seq![sep]) is None,
        pieces(a, seq![sep]) == seq![a],
{
    lemma_find_from(a, seq![sep], 0);
    match find_first(a, seq![sep]) {
        Some(i) => {
            assert(a.subrange(i, i + 1)[0] == sep);
            assert(a[i] == sep);
            assert(a.contains(sep));
        },
        None => {},
    }
}

/// Joined items begin with the first item; where there are more, the
/// separator and the others joined follow.
pub proof fn lemma_joined_first(items: Seq<Seq<u8>>, sep: Seq<u8>)
    requires
        items.len() >= 2,
    ensures
        joined(items, sep) == items[0] + sep + joined(items.skip(1), sep),
    decreases items.len(),
{
    if items.len() == 2 {
        assert(items.drop_last() =~= seq![items[0]]);
        assert(items.skip(1) =~= seq![items[1]]);
        assert(joined(items.drop_last(), sep) == items[0]);
        assert(joined(items.skip(1), sep) == items[1]);
    } else {
        lemma_joined_first(items.drop_last(), sep);
        assert(items.drop_last().skip(1) =~= items.skip(1).drop_last());
        assert(items.drop_last()[0] == items[0]);
        assert(items.skip(1).last() == items.last());
        assert(joined(items, sep) =~= items[0] + sep + joined(items.skip(1), sep));
    }
}

/// Cutting undoes joining: items of which none holds the byte `sep`, joined
/// with it, are cut at it into the same items.
pub proof fn lemma_pieces_joined(items: Seq<Seq<u8>>, sep: u8)
    requires
        items.len() > 0,
        forall|i: int| 0 <= i < items.len() ==> !(#[trigger] items[i]).contains(sep),
    ensures
        pieces(joined(items, seq![sep]), seq![sep]) == items,
    decreases items.len(),
{
    if items.len() == 1 {
        lemma_pieces_single(items[0], sep);
        assert(items =~= seq![items[0]]);
    } else {
        let rest = items.skip(1);
        lemma_joined_first(items, seq![sep]);
        assert forall|i: int| 0 <= i < rest.len() implies !(#[trigger] rest[i]).contains(sep) by {
            assert(rest[i] == items[i + 1]);
        }
        lemma_pieces_joined(rest, sep);
        lemma_cut_joint(items[0], sep, joined(rest, seq![sep]));
        let s = joined(items, seq![sep]);
        assert(s.take(items[0].len() as int) =~= items[0]);
        assert(s.skip(items[0].len() as int + 1) =~= joined(rest, seq![sep]));
        assert(pieces(s, seq![sep]) =~= seq![items[0]] + rest);
        assert(seq![items[0]] + rest =~= items);
    }
}

/// Trimming leaves a string as it is where it neither begins nor ends with
/// white space.
pub proof fn lemma_trimmed_clean(s: Seq<u8>)
    requires
        trim_free(s),
    ensures
        trimmed(s) == s,
{
}

/// Zero bytes after a string are no white space, and make none with the bytes
/// before them: a string that trimming leaves as it is stays so with zero
/// bytes after it.
pub proof fn lemma_trim_free_padded(s: Seq<u8>, pad: Seq<u8>)
    requires
        trim_free(s),
        forall|i: int| 0 <= i < pad.len() ==> pad[i] == 0u8,
    ensures
        trim_free(s + pad),
{
    let t = s + pad;
    let n = t.len() as int;
    if pad.len() == 0 {
        assert(t =~= s);
    } else {
        assert(t[n - 1] == 0u8);
        assert(space_end(t) == 0);
        if t.len() >= 1 && s.len() >= 1 {
            assert(t[0] == s[0]);
        }
        if t.len() >= 2 && s.len() >= 2 {
            assert(t[1] == s[1]);
        }
        if t.len() >= 3 && s.len() >= 3 {
            assert(t[2] == s[2]);
        }
        if t.len() >= 1 && s.len() < 1 {
            assert(t[0] == 0u8);
        }
        if t.len() >= 2 && s.len() < 2 {
            assert(t[1] == 0u8);
        }
        if t.len() >= 3 && s.len() < 3 {
            assert(t[2] == 0u8);
        }
        assert(space_at(t) == 0);
    }
}

/// Appends `src` to `dst`.
pub fn append(dst: &mut Vec<u8>, src: &[u8])
    ensures
        final(dst)@ == old(dst)@ + src@,
{
    let mut i: usize = 0;
    while i < src.len()
        invariant
            i <= src@.len(),
            dst@ == old(dst)@ + src@.take(i as int),
        decreases src@.len() - i,
    {
        dst.push(src[i]);
        i += 1;
        assert(src@.take(i as int) =~= src@.take(i - 1).push(src@[i - 1]));
        assert(dst@ =~= old(dst)@ + src@.take(i as int));
    }
    assert(src@.take(i as int) =~= src@);
}

/// Whether `needle` stands in `hay` at index `i`.
pub fn matches_at(hay: &[u8], needle: &[u8], i: usize) -> (res: bool)
    ensures
        res == occurs_at(hay@, needle@, i as int),
{
    let end: usize = hay.len();
    if i > end || needle.len() > end - i {
        return false;
    }
    let mut k: usize = 0;
    while k < needle.len()
        invariant
            k <= needle@.len(),
            i + needle@.len() <= hay@.len(),
            end == hay@.len(),
            forall|j: int| 0 <= j < k ==> hay@[i + j] == needle@[j],
        decreases needle@.len() - k,
    {
        if hay[i + k] != needle[k] {
            assert(hay@.subrange(i as int, i + needle@.len())[k as int] != needle@[k as int]);
            return false;
        }
        k += 1;
    }
    assert(hay@.subrange(i as int, i + needle@.len()) =~= needle@);
    true
}

/// The index of the first occurrence of `needle` in `hay`, if there is one. An
/// empty needle is found at index 0.
pub fn find(hay: &[u8], needle: &[u8]) -> (res: Option<usize>)
    ensures
        match res {
            Some(i) => find_first(hay@, needle@) == Some(i as int) && i + needle@.len()
                <= hay@.len(),
            None => find_first(hay@, needle@) is None,
        },
{
    if needle.len() > hay.len() {
        return None;
    }
    let last: usize = hay.len() - needle.len();
    let mut i: usize = 0;
    loop
        invariant
            i <= last,
            last == hay@.len() - needle@.len(),
            find_from(hay@, needle@, i as int) == find_first(hay@, needle@),
        decreases last - i,
    {
        if matches_at(hay, needle, i) {
            return Some(i);
        }
        if i == last {
            assert(find_from(hay@, needle@, i + 1) is None);
            return None;
        }
        i += 1;
    }
}

/// Whether `needle` occurs in `hay`.
pub fn contains(hay: &[u8], needle: &[u8]) -> (res: bool)
    ensures
        res == occurs(hay@, needle@),
{
    find(hay, needle).is_some()
}

/// Cuts `hay` at the first occurrence of `needle`: what stands before it and
/// what stands after it, or nothing where it does not occur.
pub fn split_once<'a>(hay: &'a [u8], needle: &[u8]) -> (res: Option<(&'a [u8], &'a [u8])>)
    ensures
        match res {
            Some((head, tail)) => cut(hay@, needle@) == Some((head@, tail@)),
            None => cut(hay@, needle@) is None,
        },
{
    match find(hay, needle) {
        Some(i) => {
            let end: usize = hay.len();
            let head: &[u8] = &hay[0..i];
            let tail: &[u8] = &hay[i + needle.len()..end];
            Some((head, tail))
        },
        None => None,
    }
}

/// Cuts `hay` at every occurrence of `needle`, as `pieces` says. An empty
/// needle cuts nowhere.
pub fn split<'a>(hay: &'a [u8], needle: &[u8]) -> (res: Vec<&'a [u8]>)
    ensures
        res@.len() == pieces(hay@, needle@).len(),
        forall|k: int| 0 <= k < res@.len() ==> (#[trigger] res@[k])@ == pieces(hay@, needle@)[k],
{
    let mut res: Vec<&'a [u8]> = Vec::new();
    if needle.len() == 0 {
        res.push(hay);
        return res;
    }
    let mut rest: &'a [u8] = hay;
    let ghost mut done: Seq<Seq<u8>> = Seq::empty();
    loop
        invariant
            needle@.len() > 0,
            done.len() == res@.len(),
            forall|k: int| 0 <= k < res@.len() ==> (#[trigger] res@[k])@ == done[k],
            pieces(hay@, needle@) == done + pieces(rest@, needle@),
        decreases rest@.len(),
    {
        match split_once(rest, needle) {
            Some((head, tail)) => {
                proof {
                    lemma_find_from(rest@, needle@, 0);
                    assert(done + (seq![head@] + pieces(tail@, needle@)) =~= done.push(head@)
                        + pieces(tail@, needle@));
                    done = done.push(head@);
                }
                res.push(head);
                rest = tail;
            },
            None => {
                proof {
                    done = done.push(rest@);
                    assert(pieces(hay@, needle@) =~= done);
                }
                res.push(rest);
                return res;
            },
        }
    }
}

/// Whether `b` is white space of one byte.
pub fn is_whitespace(b: u8) -> (res: bool)
    ensures
        res == is_space(b),
{
    b == 32 || (9 <= b && b <= 13)
}

/// Whether `a`, `b` are white space of two bytes.
pub fn is_whitespace2(a: u8, b: u8) -> (res: bool)
    ensures
        res == is_space2(a, b),
{
    a == 0xC2 && (b == 0x85 || b == 0xA0)
}

/// Whether `a`, `b`, `c` are white space of three bytes.
pub fn is_whitespace3(a: u8, b: u8, c: u8) -> (res: bool)
    ensures
        res == is_space3(a, b, c),
{
    (a == 0xE1 && b == 0x9A && c == 0x80) || (a == 0xE2 && b == 0x80 && ((0x80 <= c && c
        <= 0x8A) || c == 0xA8 || c == 0xA9 || c == 0xAF)) || (a == 0xE2 && b == 0x81 && c
        == 0x9F) || (a == 0xE3 && b == 0x80 && c == 0x80)
}

/// The number of bytes of the white space character that begins at `from` and
/// ends at or before `to`; 0 where none does, and where `from` and `to` are no
/// range of `s`.
pub fn space_len(s: &[u8], from: usize, to: usize) -> (res: usize)
    ensures
        res == if from <= to <= s@.len() {
            space_at(s@.subrange(from as int, to as int))
        } else {
            0
        },
        from <= to ==> res <= to - from,
{
    if from > to || to > s.len() {
        return 0;
    }
    let room: usize = to - from;
    if room >= 1 && is_whitespace(s[from]) {
        1
    } else if room >= 2 && is_whitespace2(s[from], s[from + 1]) {
        2
    } else if room >= 3 && is_whitespace3(s[from], s[from + 1], s[from + 2]) {
        3
    } else {
        0
    }
}

/// The number of bytes of the white space character that begins at or after
/// `from` and ends at `to`; 0 where none does, and where `from` and `to` are no
/// range of `s`.
pub fn space_len_back(s: &[u8], from: usize, to: usize) -> (res: usize)
    ensures
        res == if from <= to <= s@.len() {
            space_end(s@.subrange(from as int, to as int))
        } else {
            0
        },
        from <= to ==> res <= to - from,
{
    if from > to || to > s.len() {
        return 0;
    }
    let room: usize = to - from;
    if room >= 1 && is_whitespace(s[to - 1]) {
        1
    } else if room >= 2 && is_whitespace2(s[to - 2], s[to - 1]) {
        2
    } else if room >= 3 && is_whitespace3(s[to - 3], s[to - 2], s[to - 1]) {
        3
    } else {
        0
    }
}

/// `s` without the white space at its two ends.
pub fn trim(s: &[u8]) -> (res: &[u8])
    ensures
        res@ == trimmed(s@),
{
    let end: usize = s.len();
    let mut lo: usize = 0;
    let mut n: usize = space_len(s, lo, end);
    assert(s@.subrange(0, end as int) =~= s@);
    while n > 0
        invariant
            lo <= end,
            end == s@.len(),
            n == space_at(s@.subrange(lo as int, end as int)),
            n <= end - lo,
            trim_start(s@) == trim_start(s@.subrange(lo as int, end as int)),
        decreases end - lo,
    {
        assert(s@.subrange(lo as int, end as int).skip(n as int) =~= s@.subrange(
            lo + n,
            end as int,
        ));
        lo += n;
        n = space_len(s, lo, end);
    }
    assert(trim_start(s@) == s@.subrange(lo as int, end as int));
    let mut hi: usize = end;
    let mut m: usize = space_len_back(s, lo, hi);
    while m > 0
        invariant
            lo <= hi <= end,
            end == s@.len(),
            m == space_end(s@.subrange(lo as int, hi as int)),
            m <= hi - lo,
            trim_end(s@.subrange(lo as int, end as int)) == trim_end(
                s@.subrange(lo as int, hi as int),
            ),
        decreases hi - lo,
    {
        assert(s@.subrange(lo as int, hi as int).take(hi - lo - m) =~= s@.subrange(
            lo as int,
            hi - m,
        ));
        hi -= m;
        m = space_len_back(s, lo, hi);
    }
    &s[lo..hi]
}

/// A copy of `s` without the bytes equal to `b`.
pub fn without_byte(s: &[u8], b: u8) -> (res: Vec<u8>)
    ensures
        res@ == without(s@, b),
{
    let mut res: Vec<u8> = Vec::new();
    let mut i: usize = 0;
    while i < s.len()
        invariant
            i <= s@.len(),
            res@ == without(s@.take(i as int), b),
        decreases s@.len() - i,
    {
        proof {
            assert(s@.take(i + 1).drop_last() =~= s@.take(i as int));
            reveal(Seq::filter);
        }
        if s[i] != b {
            res.push(s[i]);
        }
        i += 1;
    }
    assert(s@.take(i as int) =~= s@);
    res
}

/// The items of `items` in one string, with `sep` between each two of them.
pub fn join(items: &[Vec<u8>], sep: &[u8]) -> (res: Vec<u8>)
    ensures
        res@ == joined(views(items@), sep@),
{
    let mut res: Vec<u8> = Vec::new();
    let ghost all = views(items@);
    let mut i: usize = 0;
    while i < items.len()
        invariant
            i <= items@.len(),
            all == views(items@),
            res@ == joined(all.take(i as int), sep@),
        decreases items@.len() - i,
    {
        if i > 0 {
            append(&mut res, sep);
        }
        append(&mut res, items[i].as_slice());
        proof {
            let now = all.take(i + 1);
            assert(now.drop_last() =~= all.take(i as int));
            assert(now.last() == items@[i as int]@);
            assert(res@ =~= joined(now, sep@));
        }
        i += 1;
    }
    assert(all.take(i as int) =~= all);
    res
}

/// Whether two byte strings are the same.
pub fn same(a: &[u8], b: &[u8]) -> (res: bool)
    ensures
        res == (a@ == b@),
{
    if a.len() != b.len() {
        return false;
    }
    let res = matches_at(a, b, 0);
    assert(a@.subrange(0, a@.len() as int) =~= a@);
    res
}

/// Whether `s` begins with `prefix`.
pub fn starts_with(s: &[u8], prefix: &[u8]) -> (res: bool)
    ensures
        res == occurs_at(s@, prefix@, 0),
{
    matches_at(s, prefix, 0)
}

/// The lines of `text`, as `lines_of` says.
pub fn lines<'a>(text: &'a [u8]) -> (res: Vec<&'a [u8]>)
    ensures
        res@.len() == lines_of(text@).len(),
        forall|k: int| 0 <= k < res@.len() ==> (#[trigger] res@[k])@ == lines_of(text@)[k],
{
    let feed: [u8; 1] = [10];
    assert(feed@ =~= seq![10u8]);
    let mut res: Vec<&'a [u8]> = Vec::new();
    let mut rest: &'a [u8] = text;
    let ghost mut done: Seq<Seq<u8>> = Seq::empty();
    loop
        invariant
            feed@ == seq![10u8],
            done.len() == res@.len(),
            forall|k: int| 0 <= k < res@.len() ==> (#[trigger] res@[k])@ == done[k],
            lines_of(text@) == done + lines_of(rest@),
        decreases rest@.len(),
    {
        if rest.len() == 0 {
            assert(lines_of(text@) =~= done);
            return res;
        }
        match split_once(rest, feed.as_slice()) {
            Some((head, tail)) => {
                let n: usize = head.len();
                let line: &'a [u8] = if n > 0 && head[n - 1] == 13 {
                    &head[0..n - 1]
                } else {
                    head
                };
                proof {
                    lemma_find_from(rest@, seq![10u8], 0);
                    assert(line@ =~= without_cr(head@));
                    assert(done + (seq![line@] + lines_of(tail@)) =~= done.push(line@) + lines_of(
                        tail@,
                    ));
                    done = done.push(line@);
                }
                res.push(line);
                rest = tail;
            },
            None => {
                proof {
                    done = done.push(rest@);
                    assert(lines_of(text@) =~= done);
                }
                res.push(rest);
                return res;
            },
        }
    }
}

/// The words of `s`, as `words_of` says.
pub fn words<'a>(s: &'a [u8]) -> (res: Vec<&'a [u8]>)
    ensures
        res@.len() == words_of(s@).len(),
        forall|k: int| 0 <= k < res@.len() ==> (#[trigger] res@[k])@ == words_of(s@)[k],
{
    let mut res: Vec<&'a [u8]> = Vec::new();
    let end: usize = s.len();
    let mut at: usize = 0;
    let ghost mut done: Seq<Seq<u8>> = Seq::empty();
    assert(s@.subrange(0, end as int) =~= s@);
    loop
        invariant
            at <= end,
            end == s@.len(),
            done.len() == res@.len(),
            forall|k: int| 0 <= k < res@.len() ==> (#[trigger] res@[k])@ == done[k],
            words_of(s@) == done + words_of(s@.subrange(at as int, end as int)),
        decreases end - at,
    {
        let ghost from = at;
        let mut n: usize = space_len(s, at, end);
        while n > 0
            invariant
                from <= at <= end,
                end == s@.len(),
                n == space_at(s@.subrange(at as int, end as int)),
                n <= end - at,
                trim_start(s@.subrange(from as int, end as int)) == trim_start(
                    s@.subrange(at as int, end as int),
                ),
            decreases end - at,
        {
            assert(s@.subrange(at as int, end as int).skip(n as int) =~= s@.subrange(
                at + n,
                end as int,
            ));
            at += n;
            n = space_len(s, at, end);
        }
        let ghost rest = s@.subrange(at as int, end as int);
        assert(trim_start(s@.subrange(from as int, end as int)) == rest);
        if at == end {
            assert(words_of(s@) =~= done);
            return res;
        }
        let start: usize = at;
        while at < end && space_len(s, at, end) == 0
            invariant
                start <= at <= end,
                end == s@.len(),
                rest == s@.subrange(start as int, end as int),
                word_len(rest) == (at - start) + word_len(s@.subrange(at as int, end as int)),
            decreases end - at,
        {
            assert(s@.subrange(at as int, end as int).skip(1) =~= s@.subrange(
                at + 1,
                end as int,
            ));
            at += 1;
        }
        let word: &'a [u8] = &s[start..at];
        proof {
            assert(word_len(rest) == at - start);
            assert(word@ =~= rest.take(word_len(rest)));
            assert(rest.skip(word_len(rest)) =~= s@.subrange(at as int, end as int));
            assert(done + (seq![word@] + words_of(s@.subrange(at as int, end as int)))
                =~= done.push(word@) + words_of(s@.subrange(at as int, end as int)));
            done = done.push(word@);
        }
        res.push(word);
    }
}

/// The decimal digits of `n`.
pub fn decimal(n: usize) -> (res: Vec<u8>)
    ensures
        res@ == digits(n as nat),
    decreases n,
{
    if n < 10 {
        let mut res: Vec<u8> = Vec::new();
        res.push(48 + n as u8);
        assert(res@ =~= digits(n as nat));
        res
    } else {
        let mut res = decimal(n / 10);
        res.push(48 + (n % 10) as u8);
        res
    }
}

/// Appends a copy of each of `src` to `dst`.
pub fn copy_pairs(dst: &mut Vec<(Vec<u8>, Vec<u8>)>, src: &[(Vec<u8>, Vec<u8>)])
    ensures
        pairs_view(final(dst)@) == pairs_view(old(dst)@) + pairs_view(src@),
{
    let ghost added = pairs_view(src@);
    let mut i: usize = 0;
    assert(added.take(0) =~= Seq::empty());
    assert(pairs_view(dst@) =~= pairs_view(old(dst)@) + added.take(0));
    while i < src.len()
        invariant
            i <= src@.len(),
            added == pairs_view(src@),
            pairs_view(dst@) == pairs_view(old(dst)@) + added.take(i as int),
        decreases src@.len() - i,
    {
        let ghost before = pairs_view(dst@);
        let first = slice_to_vec(src[i].0.as_slice());
        let second = slice_to_vec(src[i].1.as_slice());
        dst.push((first, second));
        proof {
            assert(pairs_view(dst@) =~= before.push(added[i as int]));
            assert(added.take(i + 1) =~= added.take(i as int).push(added[i as int]));
            assert(pairs_view(old(dst)@) + added.take(i + 1) =~= (pairs_view(old(dst)@)
                + added.take(i as int)).push(added[i as int]));
        }
        i += 1;
    }
    assert(added.take(i as int) =~= added);
}

} // verus!
