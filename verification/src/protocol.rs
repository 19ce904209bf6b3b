//! The requests sent to the two hosts and the reading of their answers. An
//! answer is a head, a blank line and a body. The body is searched for the
//! fields by name; no more of its form is asked for than the search needs.
//! `complete` says when the bytes that have come so far are a whole answer.

use vstd::prelude::*;
use vstd::slice::slice_to_vec;
use vstd::string::StringSliceAdditionalSpecFns;
use crate::error::{Error, Fault};
use crate::sal_http::{header_pair, read_header};
use crate::text::{
    append, contains, cut, find, find_first, join, joined, lines, lines_of, occurs, pieces,
    split, split_once, views, without, without_byte,
};

verus! {

/// The blank line between the head of an answer and its body.
pub open spec fn head_end() -> Seq<u8> {
    "\r\n\r\n".spec_bytes()
}

/// What a body holds where the server did as asked.
pub open spec fn result_true() -> Seq<u8> {
    "\"result\":true".spec_bytes()
}

/// What a listing holds where the directory has nothing left.
pub open spec fn data_empty() -> Seq<u8> {
    "\"data\":[],".spec_bytes()
}

/// What opens the list of records.
pub open spec fn list_open() -> Seq<u8> {
    "[{".spec_bytes()
}

/// What closes the list of records.
pub open spec fn list_close() -> Seq<u8> {
    "}]".spec_bytes()
}

/// What stands between two records.
pub open spec fn record_sep() -> Seq<u8> {
    "},{".spec_bytes()
}

/// What ends the value of a field.
pub open spec fn value_end() -> Seq<u8> {
    "\",\"".spec_bytes()
}

/// The label of the object id.
pub open spec fn label_objid() -> Seq<u8> {
    "\"objectId\"".spec_bytes()
}

/// The label of the display name.
pub open spec fn label_name() -> Seq<u8> {
    "\"name\"".spec_bytes()
}

/// The label of the residual id.
pub open spec fn label_resid() -> Seq<u8> {
    "\"residstr\"".spec_bytes()
}

/// What a deletion answers where it did not delete.
pub open spec fn success_false() -> Seq<u8> {
    "\"success\":false".spec_bytes()
}

/// What precedes the download address, blanks removed.
pub open spec fn url_open() -> Seq<u8> {
    "vardownloadUrl='".spec_bytes()
}

/// What follows the download address: the quote and the semicolon that end
/// the assignment.
pub open spec fn url_close() -> Seq<u8> {
    "';".spec_bytes()
}

/// What the download host answers where it has no address for the object.
pub open spec fn not_found_marker() -> Seq<u8> {
    "\u{83b7}\u{53d6}\u{4e0b}\u{8f7d}\u{5730}\u{5740}\u{5931}\u{8d25}".spec_bytes()
}

/// The request for the first four entries of a directory.
pub open spec fn listing_request(uid: Seq<u8>, token: Seq<u8>, dirid: Seq<u8>) -> Seq<u8> {
    "GET /api/getMyDirAndFiles?puid=".spec_bytes() + uid + "&_token=".spec_bytes() + token
        + "&fldid=".spec_bytes() + dirid
        + "&page=1&size=4 HTTP/1.1\r\nHost: pan-yz.chaoxing.com\r\n\r\n".spec_bytes()
}

/// The request that acknowledges records by their residual ids.
pub open spec fn deletion_request(uid: Seq<u8>, token: Seq<u8>, resids: Seq<Seq<u8>>) -> Seq<
    u8,
> {
    "GET /api/delete?puid=".spec_bytes() + uid + "&_token=".spec_bytes() + token
        + "&resids=".spec_bytes() + joined(resids, ",".spec_bytes())
        + " HTTP/1.1\r\nHost: pan-yz.chaoxing.com\r\n\r\n".spec_bytes()
}

/// The request for the download address of an object.
pub open spec fn download_request(objid: Seq<u8>) -> Seq<u8> {
    "GET /share/download/".spec_bytes() + objid
        + " HTTP/1.1\r\nHost: sharewh.xuexi365.com\r\n\r\n".spec_bytes()
}

/// One record of a listing as contracts speak of it.
pub struct Record {
    pub name: Seq<u8>,
    pub objid: Seq<u8>,
    pub resid: Seq<u8>,
}

/// The value of the field `label` in `record`: what stands between the label,
/// the two bytes after it, and the next end of a value. Nothing where the
/// label, the two bytes or the end is missing.
pub open spec fn field(record: Seq<u8>, label: Seq<u8>) -> Option<Seq<u8>> {
    match find_first(record, label) {
        None => None,
        Some(at) => if at + label.len() + 2 > record.len() {
            None
        } else {
            match cut(record.skip(at + label.len() + 2), value_end()) {
                Some((value, _)) => Some(value),
                None => None,
            }
        },
    }
}

/// The record that a piece of the list holds, where it has all three fields.
pub open spec fn record(piece: Seq<u8>) -> Option<Record> {
    match (field(piece, label_objid()), field(piece, label_name()), field(piece, label_resid())) {
        (Some(objid), Some(name), Some(resid)) => Some(Record { name, objid, resid }),
        _ => None,
    }
}

/// The records that the pieces hold, where every piece holds one.
pub open spec fn records_in(parts: Seq<Seq<u8>>) -> Option<Seq<Record>>
    decreases parts.len(),
{
    if parts.len() == 0 {
        Some(Seq::empty())
    } else {
        match (records_in(parts.drop_last()), record(parts.last())) {
            (Some(records), Some(one)) => Some(records.push(one)),
            _ => None,
        }
    }
}

/// The records between the opening and the closing of the list in `body`.
pub open spec fn listed(body: Seq<u8>) -> Result<Seq<Record>, Fault> {
    match (find_first(body, list_open()), find_first(body, list_close())) {
        (Some(from), Some(to)) => if from + list_open().len() > to {
            Err(Fault::InvalidReply)
        } else {
            match records_in(pieces(body.subrange(from + list_open().len(), to), record_sep())) {
                Some(records) => Ok(records),
                None => Err(Fault::InvalidReply),
            }
        },
        _ => Err(Fault::InvalidReply),
    }
}

/// What the answer to a listing request holds: the records, none where the
/// server says there are none, or the fault in the answer.
pub open spec fn listing(reply: Seq<u8>) -> Result<Seq<Record>, Fault> {
    match cut(reply, head_end()) {
        None => Err(Fault::NoBody),
        Some((_, body)) => if !occurs(body, result_true()) {
            Err(Fault::Refused(body))
        } else if occurs(body, data_empty()) {
            Ok(Seq::empty())
        } else {
            listed(body)
        },
    }
}

/// What the answer to a deletion request holds: whether the server deleted, or
/// the fault in the answer.
pub open spec fn deletion(reply: Seq<u8>) -> Result<bool, Fault> {
    match cut(reply, head_end()) {
        None => Err(Fault::InvalidReply),
        Some((_, body)) => if occurs(body, result_true()) {
            Ok(!occurs(body, success_false()))
        } else {
            Err(Fault::Refused(body))
        },
    }
}

/// What the answer to a download request holds: the address, or why there is
/// none. The address and the marker are looked for in the answer without its
/// blanks, so the address comes without blanks too; it ends where the
/// assignment ends. An answer that holds neither is unrecognized, and its
/// body is carried as it was received.
pub open spec fn download(reply: Seq<u8>) -> Result<Seq<u8>, Fault> {
    let data = without(reply, 32u8);
    match find_first(data, url_open()) {
        Some(at) => match cut(data.skip(at + url_open().len()), url_close()) {
            Some((url, _)) => Ok(url),
            None => Err(Fault::InvalidReply),
        },
        None => if occurs(data, not_found_marker()) {
            Err(Fault::LinkNotFound)
        } else {
            match cut(reply, head_end()) {
                None => Err(Fault::NoBody),
                Some((_, body)) => Err(Fault::Unrecognized(body)),
            }
        },
    }
}

/// How much of an answer is waited for before it is read.
#[derive(Clone, Copy, Debug, PartialEq, Eq, Structural)]
pub enum Framing {
    /// Until the head has ended and, where the head states a length, the body
    /// has that many bytes.
    Complete,
    /// One chunk, whatever it holds. An answer that comes in several chunks is
    /// cut short: this is for a peer that is known to answer in one.
    Single,
}

impl Default for Framing {
    fn default() -> (res: Framing)
        ensures
            res == Framing::Complete,
    {
        Framing::Complete
    }
}

/// The number that decimal digits write; none for no digits and for anything
/// but digits.
pub open spec fn number(digits: Seq<u8>) -> Option<nat>
    decreases digits.len(),
{
    if digits.len() == 0 || !(48 <= digits.last() <= 57) {
        None
    } else if digits.len() == 1 {
        Some((digits.last() - 48) as nat)
    } else {
        match number(digits.drop_last()) {
            Some(n) => Some((n * 10 + digits.last() - 48) as nat),
            None => None,
        }
    }
}

/// A letter in lower case; any other byte as it is.
pub open spec fn lower(b: u8) -> u8 {
    if 65 <= b <= 90 {
        (b + 32) as u8
    } else {
        b
    }
}

/// Two names are the same but for the case of their letters.
pub open spec fn same_name(a: Seq<u8>, b: Seq<u8>) -> bool {
    a.len() == b.len() && forall|i: int| 0 <= i < a.len() ==> lower(a[i]) == lower(b[i])
}

/// The name of the header field that states the length of the body.
pub open spec fn length_name() -> Seq<u8> {
    "content-length".spec_bytes()
}

/// The length that the lines of a head state for the body: the number in the
/// first field of that name. None where no line has the name, or where the
/// first that has it holds no number.
pub open spec fn stated_length(lines: Seq<Seq<u8>>) -> Option<nat>
    decreases lines.len(),
{
    if lines.len() == 0 {
        None
    } else if same_name(header_pair(lines[0]).0, length_name()) {
        number(header_pair(lines[0]).1)
    } else {
        stated_length(lines.skip(1))
    }
}

/// The length that a head states for the body, in a line after its first.
pub open spec fn head_length(head: Seq<u8>) -> Option<nat> {
    if lines_of(head).len() == 0 {
        None
    } else {
        stated_length(lines_of(head).skip(1))
    }
}

/// Whether what has come of an answer is all of it. One chunk is, where no
/// more is asked for. Else the head has to have ended; and where it states a
/// length, the body has to be that long.
pub open spec fn complete(framing: Framing, buffer: Seq<u8>) -> bool {
    match framing {
        Framing::Single => true,
        Framing::Complete => match cut(buffer, head_end()) {
            None => false,
            Some((head, body)) => match head_length(head) {
                Some(n) => body.len() >= n,
                None => true,
            },
        },
    }
}

/// Whether two names are the same but for the case of their letters.
pub fn is_same_name(a: &[u8], b: &[u8]) -> (res: bool)
    ensures
        res == same_name(a@, b@),
{
    if a.len() != b.len() {
        return false;
    }
    let mut i: usize = 0;
    while i < a.len()
        invariant
            i <= a@.len(),
            a@.len() == b@.len(),
            forall|k: int| 0 <= k < i ==> lower(a@[k]) == lower(b@[k]),
        decreases a@.len() - i,
    {
        let x: u8 = if 65 <= a[i] && a[i] <= 90 {
            a[i] + 32
        } else {
            a[i]
        };
        let y: u8 = if 65 <= b[i] && b[i] <= 90 {
            b[i] + 32
        } else {
            b[i]
        };
        if x != y {
            return false;
        }
        i += 1;
    }
    true
}

/// Whether `have` reaches the number that `digits` write; nothing where they
/// write none. A number too large for the machine is not reached.
pub fn reaches(have: usize, digits: &[u8]) -> (res: Option<bool>)
    ensures
        match number(digits@) {
            Some(n) => res == Some(have >= n),
            None => res is None,
        },
{
    if digits.len() == 0 {
        return None;
    }
    let mut value: usize = 0;
    let mut beyond: bool = false;
    let mut i: usize = 0;
    while i < digits.len()
        invariant
            i <= digits@.len(),
            digits@.len() > 0,
            i > 0 ==> match number(digits@.take(i as int)) {
                Some(n) => if beyond {
                    n > usize::MAX
                } else {
                    n == value
                },
                None => false,
            },
            i == 0 ==> value == 0 && !beyond,
        decreases digits@.len() - i,
    {
        let d: u8 = digits[i];
        proof {
            assert(digits@.take(i + 1).drop_last() =~= digits@.take(i as int));
            assert(digits@.take(i + 1).last() == d);
        }
        if d < 48 || d > 57 {
            proof {
                lemma_number_prefix(digits@, i + 1);
            }
            return None;
        }
        let digit: usize = (d - 48) as usize;
        if !beyond {
            match value.checked_mul(10) {
                Some(tens) => match tens.checked_add(digit) {
                    Some(next) => {
                        value = next;
                    },
                    None => {
                        beyond = true;
                    },
                },
                None => {
                    beyond = true;
                },
            }
        }
        i += 1;
    }
    assert(digits@.take(i as int) =~= digits@);
    if beyond {
        Some(false)
    } else {
        Some(have >= value)
    }
}

/// Where the first `n` bytes write no number, the bytes write none.
pub proof fn lemma_number_prefix(digits: Seq<u8>, n: int)
    requires
        0 < n <= digits.len(),
        number(digits.take(n)) is None,
    ensures
        number(digits) is None,
    decreases digits.len() - n,
{
    if n < digits.len() {
        assert(digits.take(n + 1).drop_last() =~= digits.take(n));
        lemma_number_prefix(digits, n + 1);
    } else {
        assert(digits.take(n) =~= digits);
    }
}

/// Whether `have` reaches the length that the lines state; true where they
/// state none.
pub fn reaches_stated(have: usize, lines: &[&[u8]]) -> (res: bool)
    ensures
        res == match stated_length(lines@.map_values(|line: &[u8]| line@)) {
            Some(n) => have >= n,
            None => true,
        },
{
    let ghost all = lines@.map_values(|line: &[u8]| line@);
    let mut i: usize = 0;
    assert(all.skip(0) =~= all);
    while i < lines.len()
        invariant
            i <= lines@.len(),
            all == lines@.map_values(|line: &[u8]| line@),
            stated_length(all) == stated_length(all.skip(i as int)),
        decreases lines@.len() - i,
    {
        let ghost rest = all.skip(i as int);
        proof {
            assert(rest[0] == lines@[i as int]@);
            assert(rest.skip(1) =~= all.skip(i + 1));
        }
        let (name, value) = read_header(lines[i]);
        if is_same_name(name.as_slice(), "content-length".as_bytes()) {
            return match reaches(have, value.as_slice()) {
                Some(enough) => enough,
                None => true,
            };
        }
        i += 1;
    }
    assert(all.skip(i as int) =~= Seq::<Seq<u8>>::empty());
    true
}

/// Whether the bytes that have come of an answer are all of it.
pub fn is_complete(framing: Framing, buffer: &[u8]) -> (res: bool)
    ensures
        res == complete(framing, buffer@),
{
    match framing {
        Framing::Single => true,
        Framing::Complete => match split_once(buffer, "\r\n\r\n".as_bytes()) {
            None => false,
            Some((head, body)) => {
                let all = lines(head);
                let count: usize = all.len();
                if count == 0 {
                    return true;
                }
                let after: &[&[u8]] = &all.as_slice()[1..count];
                proof {
                    assert(all@.map_values(|line: &[u8]| line@) =~= lines_of(head@));
                    assert(after@.map_values(|line: &[u8]| line@) =~= lines_of(head@).skip(1));
                }
                reaches_stated(body.len(), after)
            },
        },
    }
}

/// One record of a listing.
#[derive(Clone, Debug, PartialEq, Eq)]
pub struct Found {
    pub name: Vec<u8>,
    pub objid: Vec<u8>,
    pub resid: Vec<u8>,
}

impl View for Found {
    type V = Record;

    open spec fn view(&self) -> Record {
        Record { name: self.name@, objid: self.objid@, resid: self.resid@ }
    }
}

/// The records of a list as contracts speak of them.
pub open spec fn records_view(found: Seq<Found>) -> Seq<Record> {
    found.map_values(|one: Found| one@)
}

/// Builds the request for the first four entries of a directory.
pub fn build_listing_request(uid: &[u8], token: &[u8], dirid: &[u8]) -> (res: Vec<u8>)
    ensures
        res@ == listing_request(uid@, token@, dirid@),
{
    let mut res: Vec<u8> = Vec::new();
    append(&mut res, "GET /api/getMyDirAndFiles?puid=".as_bytes());
    append(&mut res, uid);
    append(&mut res, "&_token=".as_bytes());
    append(&mut res, token);
    append(&mut res, "&fldid=".as_bytes());
    append(&mut res, dirid);
    append(&mut res, "&page=1&size=4 HTTP/1.1\r\nHost: pan-yz.chaoxing.com\r\n\r\n".as_bytes());
    assert(res@ =~= listing_request(uid@, token@, dirid@));
    res
}

/// Builds the request that acknowledges records by their residual ids.
pub fn build_deletion_request(uid: &[u8], token: &[u8], resids: &[Vec<u8>]) -> (res: Vec<u8>)
    ensures
        res@ == deletion_request(uid@, token@, views(resids@)),
{
    let mut res: Vec<u8> = Vec::new();
    append(&mut res, "GET /api/delete?puid=".as_bytes());
    append(&mut res, uid);
    append(&mut res, "&_token=".as_bytes());
    append(&mut res, token);
    append(&mut res, "&resids=".as_bytes());
    let ids = join(resids, ",".as_bytes());
    append(&mut res, ids.as_slice());
    append(&mut res, " HTTP/1.1\r\nHost: pan-yz.chaoxing.com\r\n\r\n".as_bytes());
    assert(res@ =~= deletion_request(uid@, token@, views(resids@)));
    res
}

/// Builds the request for the download address of an object.
pub fn build_download_request(objid: &[u8]) -> (res: Vec<u8>)
    ensures
        res@ == download_request(objid@),
{
    let mut res: Vec<u8> = Vec::new();
    append(&mut res, "GET /share/download/".as_bytes());
    append(&mut res, objid);
    append(&mut res, " HTTP/1.1\r\nHost: sharewh.xuexi365.com\r\n\r\n".as_bytes());
    assert(res@ =~= download_request(objid@));
    res
}

/// Reads the value of the field `label` off a record.
pub fn read_field(record: &[u8], label: &[u8]) -> (res: Option<Vec<u8>>)
    ensures
        match res {
            Some(value) => field(record@, label@) == Some(value@),
            None => field(record@, label@) is None,
        },
{
    let at = match find(record, label) {
        Some(at) => at,
        None => {
            return None;
        },
    };
    let end: usize = record.len();
    if end - at - label.len() < 2 {
        return None;
    }
    let rest: &[u8] = &record[at + label.len() + 2..end];
    assert(rest@ =~= record@.skip(at + label.len() + 2));
    match split_once(rest, "\",\"".as_bytes()) {
        Some((value, _)) => Some(slice_to_vec(value)),
        None => None,
    }
}

/// Reads the three fields off a piece of the list.
pub fn read_record(piece: &[u8]) -> (res: Option<Found>)
    ensures
        match res {
            Some(found) => record(piece@) == Some(found@),
            None => record(piece@) is None,
        },
{
    let objid = match read_field(piece, "\"objectId\"".as_bytes()) {
        Some(value) => value,
        None => {
            return None;
        },
    };
    let name = match read_field(piece, "\"name\"".as_bytes()) {
        Some(value) => value,
        None => {
            return None;
        },
    };
    let resid = match read_field(piece, "\"residstr\"".as_bytes()) {
        Some(value) => value,
        None => {
            return None;
        },
    };
    Some(Found { name, objid, resid })
}

/// Where one of the first `n` pieces holds no record, the pieces hold no
/// records.
pub proof fn lemma_records_in_prefix(parts: Seq<Seq<u8>>, n: int)
    requires
        0 <= n <= parts.len(),
        records_in(parts.take(n)) is None,
    ensures
        records_in(parts) is None,
    decreases parts.len() - n,
{
    if n < parts.len() {
        assert(parts.take(n + 1).drop_last() =~= parts.take(n));
        lemma_records_in_prefix(parts, n + 1);
    } else {
        assert(parts.take(n) =~= parts);
    }
}

/// Reads the records off the region between the opening and the closing of
/// the list.
pub fn read_records(region: &[u8]) -> (res: Option<Vec<Found>>)
    ensures
        match res {
            Some(found) => records_in(pieces(region@, record_sep())) == Some(
                records_view(found@),
            ),
            None => records_in(pieces(region@, record_sep())) is None,
        },
{
    let parts = split(region, "},{".as_bytes());
    let ghost texts = pieces(region@, record_sep());
    let mut found: Vec<Found> = Vec::new();
    assert(records_view(found@) =~= Seq::empty());
    let mut i: usize = 0;
    while i < parts.len()
        invariant
            i <= parts@.len(),
            texts == pieces(region@, record_sep()),
            parts@.len() == texts.len(),
            forall|k: int| 0 <= k < parts@.len() ==> (#[trigger] parts@[k])@ == texts[k],
            records_in(texts.take(i as int)) == Some(records_view(found@)),
        decreases parts@.len() - i,
    {
        proof {
            assert(texts.take(i + 1).drop_last() =~= texts.take(i as int));
            assert(texts.take(i + 1).last() == texts[i as int]);
            assert(parts@[i as int]@ == texts[i as int]);
        }
        match read_record(parts[i]) {
            Some(one) => {
                let ghost before = records_view(found@);
                let ghost now = one@;
                found.push(one);
                assert(records_view(found@) =~= before.push(now));
            },
            None => {
                proof {
                    assert(records_in(texts.take(i + 1)) is None);
                    lemma_records_in_prefix(texts, i + 1);
                }
                return None;
            },
        }
        i += 1;
    }
    assert(texts.take(i as int) =~= texts);
    Some(found)
}

/// Reads the records between the opening and the closing of the list.
pub fn read_list(body: &[u8]) -> (res: Result<Vec<Found>, Error>)
    ensures
        match res {
            Ok(found) => listed(body@) == Ok::<Seq<Record>, Fault>(records_view(found@)),
            Err(e) => listed(body@) == Err::<Seq<Record>, Fault>(e@),
        },
{
    let open: &[u8] = "[{".as_bytes();
    let from = match find(body, open) {
        Some(from) => from,
        None => {
            return Err(Error::InvalidReply);
        },
    };
    let to = match find(body, "}]".as_bytes()) {
        Some(to) => to,
        None => {
            return Err(Error::InvalidReply);
        },
    };
    if to < from || to - from < open.len() {
        return Err(Error::InvalidReply);
    }
    match read_records(&body[from + open.len()..to]) {
        Some(found) => Ok(found),
        None => Err(Error::InvalidReply),
    }
}

/// Reads the answer to a listing request.
pub fn read_listing(reply: &[u8]) -> (res: Result<Vec<Found>, Error>)
    ensures
        match res {
            Ok(found) => listing(reply@) == Ok::<Seq<Record>, Fault>(records_view(found@)),
            Err(e) => listing(reply@) == Err::<Seq<Record>, Fault>(e@),
        },
{
    let (_, body) = match split_once(reply, "\r\n\r\n".as_bytes()) {
        Some(pair) => pair,
        None => {
            return Err(Error::NoBody);
        },
    };
    if !contains(body, "\"result\":true".as_bytes()) {
        return Err(Error::Refused(slice_to_vec(body)));
    }
    if contains(body, "\"data\":[],".as_bytes()) {
        let found: Vec<Found> = Vec::new();
        assert(records_view(found@) =~= Seq::empty());
        return Ok(found);
    }
    read_list(body)
}

/// Reads the answer to a deletion request.
pub fn read_deletion(reply: &[u8]) -> (res: Result<bool, Error>)
    ensures
        match res {
            Ok(done) => deletion(reply@) == Ok::<bool, Fault>(done),
            Err(e) => deletion(reply@) == Err::<bool, Fault>(e@),
        },
{
    let (_, body) = match split_once(reply, "\r\n\r\n".as_bytes()) {
        Some(pair) => pair,
        None => {
            return Err(Error::InvalidReply);
        },
    };
    if contains(body, "\"result\":true".as_bytes()) {
        Ok(!contains(body, "\"success\":false".as_bytes()))
    } else {
        Err(Error::Refused(slice_to_vec(body)))
    }
}

/// Reads the answer to a download request.
pub fn read_download(reply: &[u8]) -> (res: Result<Vec<u8>, Error>)
    ensures
        match res {
            Ok(url) => download(reply@) == Ok::<Seq<u8>, Fault>(url@),
            Err(e) => download(reply@) == Err::<Seq<u8>, Fault>(e@),
        },
{
    let data = without_byte(reply, 32);
    let open: &[u8] = "vardownloadUrl='".as_bytes();
    match find(data.as_slice(), open) {
        Some(at) => {
            let end: usize = data.len();
            let rest: &[u8] = &data.as_slice()[at + open.len()..end];
            assert(rest@ =~= data@.skip(at + open.len()));
            match split_once(rest, "';".as_bytes()) {
                Some((url, _)) => Ok(slice_to_vec(url)),
                None => Err(Error::InvalidReply),
            }
        },
        None => {
            if contains(
                data.as_slice(),
                "\u{83b7}\u{53d6}\u{4e0b}\u{8f7d}\u{5730}\u{5740}\u{5931}\u{8d25}".as_bytes(),
            ) {
                return Err(Error::LinkNotFound);
            }
            match split_once(reply, "\r\n\r\n".as_bytes()) {
                Some((_, body)) => Err(Error::Unrecognized(slice_to_vec(body))),
                None => Err(Error::NoBody),
            }
        },
    }
}

} // verus!
