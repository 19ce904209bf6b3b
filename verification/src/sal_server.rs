//! The server's side of a request: the reading of what a client sent, and the
//! answer that reports a request that could not be served.

use vstd::prelude::*;
use vstd::slice::slice_to_vec;
use vstd::string::StringSliceAdditionalSpecFns;
use crate::sal_http::{collected, Head};
use crate::text::{
    append, cut, lines, lines_of, pairs_view, split_once, trim, trimmed, words, words_of,
};

verus! {

/// A request as contracts speak of it.
pub struct Asked {
    pub method: Seq<u8>,
    pub path: Seq<u8>,
    pub head: Seq<(Seq<u8>, Seq<u8>)>,
    pub body: Seq<u8>,
}

/// What a client asked: the method and the path of its first line, the header
/// fields and the body.
#[derive(Clone, Debug, PartialEq, Eq)]
pub struct Request {
    pub method: Vec<u8>,
    pub path: Vec<u8>,
    pub head: Head,
    pub body: Vec<u8>,
}

impl View for Request {
    type V = Asked;

    open spec fn view(&self) -> Asked {
        Asked {
            method: self.method@,
            path: self.path@,
            head: self.head@,
            body: self.body@,
        }
    }
}

/// The answer that reports `reason`.
pub open spec fn error_answer(reason: Seq<u8>) -> Seq<u8> {
    "HTTP/1.1 520 LOVE YOU\r\nContent-Type: text/plain; charset=utf-8\r\nConnection: close\r\n\r\nPlease Reload:\r\n".spec_bytes()
        + reason
}

/// What is reported of a request that is not of the form asked for.
pub open spec fn non_standard() -> Seq<u8> {
    "Non-Standard HTTP Structure!".spec_bytes()
}

/// What is reported of a request without a byte.
pub open spec fn empty_buffer() -> Seq<u8> {
    "Empty Buffer!".spec_bytes()
}

/// The header fields that lines hold: of each line with a colon, what stands
/// before the first colon and what stands after it, both trimmed. A line
/// without a colon holds none.
pub open spec fn colon_pairs(lines: Seq<Seq<u8>>) -> Seq<(Seq<u8>, Seq<u8>)>
    decreases lines.len(),
{
    if lines.len() == 0 {
        Seq::empty()
    } else {
        match cut(lines.last(), seq![58u8]) {
            Some((name, value)) => colon_pairs(lines.drop_last()).push(
                (trimmed(name), trimmed(value)),
            ),
            None => colon_pairs(lines.drop_last()),
        }
    }
}

/// The request that `buffer` holds: a head, a blank line and a body, the head
/// with a first line of exactly three words. Nothing where it is not of that
/// form.
pub open spec fn request_of(buffer: Seq<u8>) -> Option<Asked> {
    match cut(buffer, "\r\n\r\n".spec_bytes()) {
        None => None,
        Some((top, body)) => if lines_of(top).len() == 0 || words_of(lines_of(top)[0]).len()
            != 3 {
            None
        } else {
            Some(
                Asked {
                    method: words_of(lines_of(top)[0])[0],
                    path: words_of(lines_of(top)[0])[1],
                    head: collected(colon_pairs(lines_of(top).skip(1))),
                    body,
                },
            )
        },
    }
}

/// Builds the answer that reports `err`.
pub fn return_error(err: &[u8]) -> (res: Vec<u8>)
    ensures
        res@ == error_answer(err@),
{
    let mut res: Vec<u8> = Vec::new();
    append(
        &mut res,
        "HTTP/1.1 520 LOVE YOU\r\nContent-Type: text/plain; charset=utf-8\r\nConnection: close\r\n\r\nPlease Reload:\r\n".as_bytes(),
    );
    append(&mut res, err);
    res
}

/// Reads the name and the value off each of the lines that has a colon, in
/// their order. A line without a colon is passed over.
pub fn read_fields(lines: &[&[u8]]) -> (res: Vec<(Vec<u8>, Vec<u8>)>)
    ensures
        pairs_view(res@) == colon_pairs(lines@.map_values(|line: &[u8]| line@)),
{
    let colon: [u8; 1] = [58];
    assert(colon@ =~= seq![58u8]);
    let mut head: Vec<(Vec<u8>, Vec<u8>)> = Vec::new();
    let ghost all = lines@.map_values(|line: &[u8]| line@);
    let mut i: usize = 0;
    assert(all.take(0) =~= Seq::empty());
    assert(pairs_view(head@) =~= colon_pairs(all.take(0)));
    while i < lines.len()
        invariant
            i <= lines@.len(),
            colon@ == seq![58u8],
            all == lines@.map_values(|line: &[u8]| line@),
            pairs_view(head@) == colon_pairs(all.take(i as int)),
        decreases lines@.len() - i,
    {
        proof {
            assert(all.take(i + 1).drop_last() =~= all.take(i as int));
            assert(all.take(i + 1).last() == lines@[i as int]@);
        }
        match split_once(lines[i], colon.as_slice()) {
            Some((name, value)) => {
                let ghost before = pairs_view(head@);
                let name = slice_to_vec(trim(name));
                let value = slice_to_vec(trim(value));
                let ghost pair = (name@, value@);
                head.push((name, value));
                assert(pairs_view(head@) =~= before.push(pair));
            },
            None => {},
        }
        i += 1;
    }
    assert(all.take(i as int) =~= all);
    head
}

/// Reads a request. One that is not of the form asked for gives the answer
/// that says so, to be sent in place of the route's.
pub fn handler(buffer: &[u8]) -> (res: Result<Request, Vec<u8>>)
    ensures
        match res {
            Ok(request) => request_of(buffer@) == Some(request@),
            Err(answer) => request_of(buffer@) is None && answer@ == error_answer(
                non_standard(),
            ),
        },
{
    let (top, body) = match split_once(buffer, "\r\n\r\n".as_bytes()) {
        Some(pair) => pair,
        None => {
            return Err(return_error("Non-Standard HTTP Structure!".as_bytes()));
        },
    };
    let all = lines(top);
    if all.len() == 0 {
        return Err(return_error("Non-Standard HTTP Structure!".as_bytes()));
    }
    let first = words(all[0]);
    if first.len() != 3 {
        return Err(return_error("Non-Standard HTTP Structure!".as_bytes()));
    }
    let count: usize = all.len();
    let after: &[&[u8]] = &all.as_slice()[1..count];
    proof {
        assert(all@.map_values(|line: &[u8]| line@) =~= lines_of(top@));
        assert(after@.map_values(|line: &[u8]| line@) =~= lines_of(top@).skip(1));
    }
    Ok(
        Request {
            method: slice_to_vec(first[0]),
            path: slice_to_vec(first[1]),
            head: Head::collect(read_fields(after).as_slice()),
            body: slice_to_vec(body),
        },
    )
}

/// Looks at a request that goes to the route as it came: the answer that
/// reports an empty one, or nothing where there is something to route.
pub fn handler_pro(buffer: &[u8]) -> (res: Option<Vec<u8>>)
    ensures
        res is Some <==> buffer@.len() == 0,
        res matches Some(answer) ==> answer@ == error_answer(empty_buffer()),
{
    if buffer.len() == 0 {
        Some(return_error("Empty Buffer!".as_bytes()))
    } else {
        None
    }
}

} // verus!
