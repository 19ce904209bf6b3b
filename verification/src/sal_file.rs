//! The catalog of one account: its credentials, the files found so far, and the
//! container that mirrors both. The session that fills the catalog is part of
//! it: which host it is connected to decides which operations it accepts.
//!
//! The plaintext of a catalog has two regions. The first 64 bytes are the base
//! region: the user id, the token and the directory id with the byte 27
//! between them, then zero bytes up to 64. What follows is the list region:
//! the entries with the byte 27 between them, each a name, the byte 26 and an
//! object id. An empty list region is a catalog without files.
//!
//! Two things follow from the format. The zero bytes of the base region are
//! not white space: on loading they stay at the end of the directory id. And
//! the cipher works on pairs: a plaintext of odd length comes back one zero
//! byte longer, and that byte ends the last object id. `lemma_load_clean`
//! says when a catalog loads back as it was written.
//!
//! A scan round has two exchanges with the listing host. `scan_request` gives
//! the first request and `scan` reads its answer, adds the files and says
//! what there is to acknowledge; `delete_request` gives the second request and
//! `acknowledge` reads its answer. Resolving a link has one: `link_request`
//! and `get_link`.

use vstd::prelude::*;
use vstd::slice::slice_to_vec;
use crate::codec::valid_passkey;
use crate::container::{
    container, lemma_container_parts, parsed, passkey_of, sound, Container,
};
use crate::error::{Error, Fault};
use crate::protocol::{
    build_deletion_request, build_download_request, build_listing_request, complete, deletion,
    deletion_request, download, download_request, is_complete, listing, listing_request,
    read_deletion, read_download, read_listing, records_view, Found, Framing, Record,
};
use crate::text::{
    append, cut, joined, lemma_cut_joint, lemma_pieces_joined, lemma_pieces_single,
    copy_pairs, lemma_trim_free_padded, lemma_trimmed_clean, pairs_view, pieces, split,
    split_once, trim, trim_free, trimmed, views,
};

verus! {

/// The byte between the fields of the base region and between list entries.
pub const ESC: u8 = 27;

/// The byte between the name and the object id of a list entry.
pub const SUB: u8 = 26;

/// The length of the base region.
pub const BASE_LEN: usize = 64;

/// The host a session is connected to, if to any.
#[derive(Clone, Copy, Debug, PartialEq, Eq, Structural)]
pub enum Stream {
    /// Connected to the host that lists and deletes.
    Scan,
    /// Connected to the host that resolves download links.
    Link,
    /// Not connected.
    Disconnected,
}

/// A catalog as contracts speak of it.
pub struct Catalog {
    pub uid: Seq<u8>,
    pub token: Seq<u8>,
    pub dirid: Seq<u8>,
    /// The files, each a name and an object id, in the order they were found.
    pub entries: Seq<(Seq<u8>, Seq<u8>)>,
    pub stream: Stream,
    /// How much of an answer the session waits for.
    pub framing: Framing,
    /// The container.
    pub raw: Seq<u8>,
}

/// The one-byte sequence that separates fields and entries.
pub open spec fn field_sep() -> Seq<u8> {
    seq![27u8]
}

/// The one-byte sequence that separates a name from an object id.
pub open spec fn name_sep() -> Seq<u8> {
    seq![26u8]
}

/// The three credentials, separated.
pub open spec fn base_text(uid: Seq<u8>, token: Seq<u8>, dirid: Seq<u8>) -> Seq<u8> {
    uid + field_sep() + token + field_sep() + dirid
}

/// `n` zero bytes.
pub open spec fn zeros(n: nat) -> Seq<u8> {
    Seq::new(n, |i: int| 0u8)
}

/// `s` followed by as many zero bytes as bring it to 64 bytes; `s` itself where
/// it is that long or longer.
pub open spec fn padded(s: Seq<u8>) -> Seq<u8> {
    if s.len() < 64 {
        s + zeros((64 - s.len()) as nat)
    } else {
        s
    }
}

/// One entry: the name, the separator, the object id.
pub open spec fn entry_text(entry: (Seq<u8>, Seq<u8>)) -> Seq<u8> {
    entry.0 + name_sep() + entry.1
}

/// The entries, separated.
pub open spec fn list_text(entries: Seq<(Seq<u8>, Seq<u8>)>) -> Seq<u8> {
    joined(entries.map_values(|entry: (Seq<u8>, Seq<u8>)| entry_text(entry)), field_sep())
}

/// What a catalog is encoded from: the base region, then the list region.
pub open spec fn plaintext(
    uid: Seq<u8>,
    token: Seq<u8>,
    dirid: Seq<u8>,
    entries: Seq<(Seq<u8>, Seq<u8>)>,
) -> Seq<u8> {
    padded(base_text(uid, token, dirid)) + list_text(entries)
}

/// The three fields of a base region, each trimmed of white space; the third
/// runs to the end of the region, zero padding included. Nothing where the
/// region has fewer than two separators.
pub open spec fn base_fields(base: Seq<u8>) -> Option<(Seq<u8>, Seq<u8>, Seq<u8>)> {
    match cut(base, field_sep()) {
        None => None,
        Some((first, rest)) => match cut(rest, field_sep()) {
            None => None,
            Some((second, third)) => Some((trimmed(first), trimmed(second), trimmed(third))),
        },
    }
}

/// The entries that the pieces of a list region hold: each piece cut at its
/// first name separator. Nothing where a piece has none.
pub open spec fn entries_in(parts: Seq<Seq<u8>>) -> Option<Seq<(Seq<u8>, Seq<u8>)>>
    decreases parts.len(),
{
    if parts.len() == 0 {
        Some(Seq::empty())
    } else {
        match (entries_in(parts.drop_last()), cut(parts.last(), name_sep())) {
            (Some(entries), Some(entry)) => Some(entries.push(entry)),
            _ => None,
        }
    }
}

/// The entries of a list region. An empty region holds none.
pub open spec fn list_entries(list: Seq<u8>) -> Option<Seq<(Seq<u8>, Seq<u8>)>> {
    if list.len() == 0 {
        Some(Seq::empty())
    } else {
        entries_in(pieces(list, field_sep()))
    }
}

/// The catalog that a container holds, not connected and waiting for whole
/// answers; or why it holds none.
pub open spec fn loaded(raw: Seq<u8>) -> Result<Catalog, Fault> {
    match parsed(raw) {
        Err(e) => Err(e),
        Ok((key, text)) => match base_fields(text.take(64)) {
            None => Err(Fault::WrongBaseData),
            Some((uid, token, dirid)) => match list_entries(text.skip(64)) {
                None => Err(Fault::WrongFileData),
                Some(entries) => Ok(
                    Catalog {
                        uid,
                        token,
                        dirid,
                        entries,
                        stream: Stream::Disconnected,
                        framing: Framing::Complete,
                        raw,
                    },
                ),
            },
        },
    }
}

/// The container that mirrors a catalog's credentials and entries, under the
/// passkey of the container it has now.
pub open spec fn mirror(c: Catalog) -> Seq<u8> {
    container(passkey_of(c.raw), plaintext(c.uid, c.token, c.dirid, c.entries))
}

/// Builds the plaintext of a catalog.
pub fn plain(uid: &[u8], token: &[u8], dirid: &[u8], files: &[(Vec<u8>, Vec<u8>)]) -> (res: Vec<
    u8,
>)
    ensures
        res@ == plaintext(uid@, token@, dirid@, pairs_view(files@)),
        res@.len() >= 64,
{
    let mut data: Vec<u8> = Vec::new();
    append(&mut data, uid);
    data.push(ESC);
    append(&mut data, token);
    data.push(ESC);
    append(&mut data, dirid);
    assert(data@ =~= base_text(uid@, token@, dirid@));
    let ghost base = data@;
    while data.len() < BASE_LEN
        invariant
            base.len() <= data@.len(),
            base.len() < 64 ==> data@.len() <= 64,
            base.len() >= 64 ==> data@.len() == base.len(),
            data@ =~= base + zeros((data@.len() - base.len()) as nat),
        decreases 64 - data@.len(),
    {
        data.push(0);
    }
    assert(data@ =~= padded(base));
    let ghost entries = pairs_view(files@);
    let ghost head = data@;
    let mut i: usize = 0;
    while i < files.len()
        invariant
            i <= files@.len(),
            entries == pairs_view(files@),
            data@ == head + list_text(entries.take(i as int)),
        decreases files@.len() - i,
    {
        if i > 0 {
            data.push(ESC);
        }
        append(&mut data, files[i].0.as_slice());
        data.push(SUB);
        append(&mut data, files[i].1.as_slice());
        proof {
            let now = entries.take(i + 1);
            let texts = now.map_values(|entry: (Seq<u8>, Seq<u8>)| entry_text(entry));
            assert(now.last() == (files@[i as int].0@, files@[i as int].1@));
            assert(texts.drop_last() =~= entries.take(i as int).map_values(
                |entry: (Seq<u8>, Seq<u8>)| entry_text(entry),
            ));
            assert(texts.last() == entry_text(now.last()));
            assert(data@ =~= head + list_text(now));
        }
        i += 1;
    }
    assert(entries.take(i as int) =~= entries);
    data
}

/// Reads the three credentials off a base region.
pub fn credentials(base: &[u8]) -> (res: Option<(Vec<u8>, Vec<u8>, Vec<u8>)>)
    ensures
        match res {
            Some((uid, token, dirid)) => base_fields(base@) == Some((uid@, token@, dirid@)),
            None => base_fields(base@) is None,
        },
{
    let sep: [u8; 1] = [ESC];
    assert(sep@ =~= field_sep());
    let (first, rest) = match split_once(base, sep.as_slice()) {
        Some(pair) => pair,
        None => {
            return None;
        },
    };
    let (second, third) = match split_once(rest, sep.as_slice()) {
        Some(pair) => pair,
        None => {
            return None;
        },
    };
    Some((slice_to_vec(trim(first)), slice_to_vec(trim(second)), slice_to_vec(trim(third))))
}

/// Reads the entries off a list region.
pub fn list_files(list: &[u8]) -> (res: Option<Vec<(Vec<u8>, Vec<u8>)>>)
    ensures
        match res {
            Some(files) => list_entries(list@) == Some(pairs_view(files@)),
            None => list_entries(list@) is None,
        },
{
    let mut filemap: Vec<(Vec<u8>, Vec<u8>)> = Vec::new();
    assert(pairs_view(filemap@) =~= Seq::empty());
    if list.len() == 0 {
        return Some(filemap);
    }
    let sep: [u8; 1] = [ESC];
    let mid: [u8; 1] = [SUB];
    assert(sep@ =~= field_sep());
    assert(mid@ =~= name_sep());
    let parts = split(list, sep.as_slice());
    let ghost texts = pieces(list@, field_sep());
    let mut i: usize = 0;
    while i < parts.len()
        invariant
            i <= parts@.len(),
            mid@ == name_sep(),
            list@.len() > 0,
            texts == pieces(list@, field_sep()),
            parts@.len() == texts.len(),
            forall|k: int| 0 <= k < parts@.len() ==> (#[trigger] parts@[k])@ == texts[k],
            entries_in(texts.take(i as int)) == Some(pairs_view(filemap@)),
        decreases parts@.len() - i,
    {
        proof {
            assert(texts.take(i + 1).drop_last() =~= texts.take(i as int));
            assert(texts.take(i + 1).last() == texts[i as int]);
            assert(parts@[i as int]@ == texts[i as int]);
        }
        match split_once(parts[i], mid.as_slice()) {
            Some((name, objid)) => {
                let ghost before = pairs_view(filemap@);
                filemap.push((slice_to_vec(name), slice_to_vec(objid)));
                assert(pairs_view(filemap@) =~= before.push((name@, objid@)));
            },
            None => {
                proof {
                    assert(entries_in(texts.take(i + 1)) is None);
                    lemma_entries_in_prefix(texts, i + 1);
                }
                return None;
            },
        }
        i += 1;
    }
    assert(texts.take(i as int) =~= texts);
    Some(filemap)
}

/// The name and the object id of each record: what a scan adds to the catalog.
pub open spec fn files_of(records: Seq<Record>) -> Seq<(Seq<u8>, Seq<u8>)> {
    records.map_values(|one: Record| (one.name, one.objid))
}

/// The residual id of each record: what a scan acknowledges.
pub open spec fn resids_of(records: Seq<Record>) -> Seq<Seq<u8>> {
    records.map_values(|one: Record| one.resid)
}

/// `c` with `files` after its entries and the container in line with them.
pub open spec fn grown(c: Catalog, files: Seq<(Seq<u8>, Seq<u8>)>) -> Catalog {
    Catalog {
        entries: c.entries + files,
        raw: container(
            passkey_of(c.raw),
            plaintext(c.uid, c.token, c.dirid, c.entries + files),
        ),
        ..c
    }
}

/// The catalog after a scan round in which `reply` was the answer to the
/// listing request. A session that is not connected to the listing host, or an
/// answer that holds a fault, leaves it as it was. Else the files of the
/// answer are added; and where there were none, the session disconnects.
pub open spec fn scan_next(c: Catalog, reply: Seq<u8>) -> Catalog {
    if c.stream != Stream::Scan {
        c
    } else {
        match listing(reply) {
            Err(_) => c,
            Ok(records) => if records.len() == 0 {
                Catalog { stream: Stream::Disconnected, ..grown(c, files_of(records)) }
            } else {
                grown(c, files_of(records))
            },
        }
    }
}

/// What a scan round returns: the number of files added and their residual
/// ids, or why none was added. A round that adds nothing ends the scan.
pub open spec fn scan_result(c: Catalog, reply: Seq<u8>) -> Result<(nat, Seq<Seq<u8>>), Fault> {
    if c.stream != Stream::Scan {
        Err(Fault::StreamUnavailable)
    } else {
        match listing(reply) {
            Err(fault) => Err(fault),
            Ok(records) => if records.len() == 0 {
                Err(Fault::ScanFinished)
            } else {
                Ok((records.len(), resids_of(records)))
            },
        }
    }
}

/// What resolving a link returns, given the answer to its request: the
/// download address, or why there is none. A session that is not connected to
/// the download host resolves nothing.
pub open spec fn link_result(c: Catalog, reply: Seq<u8>) -> Result<Seq<u8>, Fault> {
    if c.stream != Stream::Link {
        Err(Fault::StreamUnavailable)
    } else {
        download(reply)
    }
}

/// What a scan round brought: how many files it added, and the residual ids by
/// which the records are acknowledged.
#[derive(Clone, Debug, PartialEq, Eq)]
pub struct Round {
    pub added: usize,
    pub resid: Vec<Vec<u8>>,
}

/// Takes a list of records apart: the files and the residual ids.
pub fn part_records(found: &[Found]) -> (res: (Vec<(Vec<u8>, Vec<u8>)>, Vec<Vec<u8>>))
    ensures
        pairs_view(res.0@) == files_of(records_view(found@)),
        views(res.1@) == resids_of(records_view(found@)),
        res.1@.len() == found@.len(),
{
    let mut files: Vec<(Vec<u8>, Vec<u8>)> = Vec::new();
    let mut resid: Vec<Vec<u8>> = Vec::new();
    let ghost records = records_view(found@);
    let mut i: usize = 0;
    assert(pairs_view(files@) =~= files_of(records.take(0)));
    assert(views(resid@) =~= resids_of(records.take(0)));
    while i < found.len()
        invariant
            i <= found@.len(),
            records == records_view(found@),
            resid@.len() == i,
            pairs_view(files@) == files_of(records.take(i as int)),
            views(resid@) == resids_of(records.take(i as int)),
        decreases found@.len() - i,
    {
        let ghost files_before = pairs_view(files@);
        let ghost resid_before = views(resid@);
        files.push(
            (slice_to_vec(found[i].name.as_slice()), slice_to_vec(found[i].objid.as_slice())),
        );
        resid.push(slice_to_vec(found[i].resid.as_slice()));
        proof {
            let one = records[i as int];
            assert(one == found@[i as int]@);
            assert(pairs_view(files@) =~= files_before.push((one.name, one.objid)));
            assert(views(resid@) =~= resid_before.push(one.resid));
            assert(records.take(i + 1) =~= records.take(i as int).push(one));
            assert(files_of(records.take(i + 1)) =~= files_of(records.take(i as int)).push(
                (one.name, one.objid),
            ));
            assert(resids_of(records.take(i + 1)) =~= resids_of(records.take(i as int)).push(
                one.resid,
            ));
        }
        i += 1;
    }
    assert(records.take(i as int) =~= records);
    (files, resid)
}

/// The credentials of one account, the files found in it, and the session
/// that finds them.
#[derive(Debug)]
pub struct CloudFile {
    inner: Container,
    stream: Stream,
    framing: Framing,
    uid: Vec<u8>,
    token: Vec<u8>,
    dirid: Vec<u8>,
    filemap: Vec<(Vec<u8>, Vec<u8>)>,
}

impl View for CloudFile {
    type V = Catalog;

    closed spec fn view(&self) -> Catalog {
        Catalog {
            uid: self.uid@,
            token: self.token@,
            dirid: self.dirid@,
            entries: pairs_view(self.filemap@),
            stream: self.stream,
            framing: self.framing,
            raw: self.inner@,
        }
    }
}

impl CloudFile {
    /// A catalog without files, not connected and waiting for whole answers,
    /// and its container under `passwd`. Fails on a passkey that is not valid,
    /// and on nothing else. The credentials are taken as they are: it is for
    /// the caller to see that the user id and the token hold no byte 27, and
    /// that the three fit into the base region.
    pub fn new(uid: Vec<u8>, token: Vec<u8>, dirid: Vec<u8>, passwd: &[u8; 4]) -> (res: Result<
        CloudFile,
        Error,
    >)
        ensures
            res is Ok <==> valid_passkey(*passwd),
            res matches Ok(cloud) ==> cloud@ == (Catalog {
                uid: uid@,
                token: token@,
                dirid: dirid@,
                entries: Seq::empty(),
                stream: Stream::Disconnected,
                framing: Framing::Complete,
                raw: container(*passwd, padded(base_text(uid@, token@, dirid@))),
            }),
            res matches Err(e) ==> crate::codec::passkey_fault(*passwd) == Some(e@),
    {
        let filemap: Vec<(Vec<u8>, Vec<u8>)> = Vec::new();
        let data = plain(uid.as_slice(), token.as_slice(), dirid.as_slice(), filemap.as_slice());
        let inner = match Container::new(passwd, data.as_slice()) {
            Ok(inner) => inner,
            Err(e) => {
                return Err(e);
            },
        };
        proof {
            assert(pairs_view(filemap@) =~= Seq::empty());
            assert(data@ =~= padded(base_text(uid@, token@, dirid@)));
        }
        Ok(
            CloudFile {
                inner,
                stream: Stream::Disconnected,
                framing: Framing::Complete,
                uid,
                token,
                dirid,
                filemap,
            },
        )
    }

    /// The catalog that `raw_data` holds, with `raw_data` as its container.
    /// Fails as `loaded` says: on a container that does not parse, on a base
    /// region without two separators, on a list entry without its separator.
    pub fn from_raw(raw_data: &[u8]) -> (res: Result<CloudFile, Error>)
        ensures
            match res {
                Ok(cloud) => loaded(raw_data@) == Ok::<Catalog, Fault>(cloud@),
                Err(e) => loaded(raw_data@) == Err::<Catalog, Fault>(e@),
            },
    {
        let (inner, data) = match Container::from_raw(raw_data) {
            Ok(pair) => pair,
            Err(e) => {
                return Err(e);
            },
        };
        assert(data@.len() >= 64);
        let end: usize = data.len();
        let base: &[u8] = &data[0..BASE_LEN];
        let list: &[u8] = &data[BASE_LEN..end];
        assert(base@ =~= data@.take(64));
        assert(list@ =~= data@.skip(64));
        let (uid, token, dirid) = match credentials(base) {
            Some(fields) => fields,
            None => {
                return Err(Error::WrongBaseData);
            },
        };
        let filemap = match list_files(list) {
            Some(files) => files,
            None => {
                return Err(Error::WrongFileData);
            },
        };
        Ok(
            CloudFile {
                inner,
                stream: Stream::Disconnected,
                framing: Framing::Complete,
                uid,
                token,
                dirid,
                filemap,
            },
        )
    }

    /// Brings the container in line with the credentials and the files, under
    /// the passkey it has.
    fn update_inner(&mut self)
        ensures
            final(self)@ == (Catalog { raw: mirror(old(self)@), ..old(self)@ }),
    {
        let data = plain(
            self.uid.as_slice(),
            self.token.as_slice(),
            self.dirid.as_slice(),
            self.filemap.as_slice(),
        );
        match self.inner.rebuild(data.as_slice()) {
            Ok(()) => {},
            Err(_) => {
                // a plaintext is never shorter than its base region
                assert(false);
            },
        }
    }

    /// Appends the files of `other` to those of this catalog, in their order
    /// and without looking for duplicates, and brings the container in line.
    /// The credentials, the passkey and the connection stay as they are.
    pub fn merge(&mut self, other: &CloudFile)
        ensures
            final(self)@ == grown(old(self)@, other@.entries),
            final(self)@.entries == old(self)@.entries + other@.entries,
            final(self)@.uid == old(self)@.uid,
            final(self)@.token == old(self)@.token,
            final(self)@.dirid == old(self)@.dirid,
            passkey_of(final(self)@.raw) == passkey_of(old(self)@.raw),
    {
        self.extend(other.filemap.as_slice());
    }

    /// Appends `files` and brings the container in line.
    fn extend(&mut self, files: &[(Vec<u8>, Vec<u8>)])
        ensures
            final(self)@ == grown(old(self)@, pairs_view(files@)),
    {
        copy_pairs(&mut self.filemap, files);
        self.update_inner();
    }

    /// Appends the files of the catalog that `raw_data` holds. Where
    /// `raw_data` does not load, this catalog stays as it is.
    pub fn extend_from_raw(&mut self, raw_data: &[u8]) -> (res: Result<(), Error>)
        ensures
            match loaded(raw_data@) {
                Ok(other) => {
                    &&& res is Ok
                    &&& final(self)@ == grown(old(self)@, other.entries)
                },
                Err(fault) => {
                    &&& res matches Err(e)
                    &&& e@ == fault
                    &&& final(self)@ == old(self)@
                },
            },
    {
        match CloudFile::from_raw(raw_data) {
            Ok(file) => {
                self.merge(&file);
                Ok(())
            },
            Err(e) => Err(e),
        }
    }

    /// The files found so far, each a name and an object id.
    pub fn get_filemap(&self) -> (res: &[(Vec<u8>, Vec<u8>)])
        ensures
            pairs_view(res@) == self@.entries,
    {
        self.filemap.as_slice()
    }

    /// The container. It is sound, and stays so whatever is done with the
    /// catalog.
    pub fn as_ref(&self) -> (res: &[u8])
        ensures
            res@ == self@.raw,
            sound(self@.raw),
    {
        self.inner.as_ref()
    }

    /// Records which host the session is connected to now: the transport has
    /// dropped the connection it had and, unless `stream` is `Disconnected`, opened one
    /// to that host. The catalog is not touched.
    pub fn set_stream(&mut self, stream: Stream)
        ensures
            final(self)@ == (Catalog { stream, ..old(self)@ }),
    {
        self.stream = stream;
    }

    /// The host the session is connected to.
    pub fn stream(&self) -> (res: Stream)
        ensures
            res == self@.stream,
    {
        self.stream
    }

    /// Sets how much of an answer the session waits for. Nothing else changes.
    pub fn set_framing(&mut self, framing: Framing)
        ensures
            final(self)@ == (Catalog { framing, ..old(self)@ }),
    {
        self.framing = framing;
    }

    /// How much of an answer the session waits for.
    pub fn framing(&self) -> (res: Framing)
        ensures
            res == self@.framing,
    {
        self.framing
    }

    /// Whether `buffer`, what has come of an answer so far, is all that the
    /// session waits for. The transport reads on until it is, or until nothing
    /// more comes.
    pub fn answered(&self, buffer: &[u8]) -> (res: bool)
        ensures
            res == complete(self@.framing, buffer@),
    {
        is_complete(self.framing, buffer)
    }

    /// The user id.
    pub fn uid(&self) -> (res: &[u8])
        ensures
            res@ == self@.uid,
    {
        self.uid.as_slice()
    }

    /// The session token.
    pub fn token(&self) -> (res: &[u8])
        ensures
            res@ == self@.token,
    {
        self.token.as_slice()
    }

    /// The id of the directory that is scanned; empty for the account's root.
    pub fn dirid(&self) -> (res: &[u8])
        ensures
            res@ == self@.dirid,
    {
        self.dirid.as_slice()
    }

    /// The request that opens a scan round: for up to four entries of the
    /// directory. Refused unless the session is connected to the listing host.
    pub fn scan_request(&self) -> (res: Result<Vec<u8>, Error>)
        ensures
            res is Ok <==> self@.stream == Stream::Scan,
            res matches Ok(request) ==> request@ == listing_request(
                self@.uid,
                self@.token,
                self@.dirid,
            ),
            res matches Err(e) ==> e@ == Fault::StreamUnavailable,
    {
        match self.stream {
            Stream::Scan => Ok(
                build_listing_request(
                    self.uid.as_slice(),
                    self.token.as_slice(),
                    self.dirid.as_slice(),
                ),
            ),
            _ => Err(Error::StreamUnavailable),
        }
    }

    /// One scan round, given the answer to its request: the files that the
    /// answer lists are added to the catalog and the container is brought in
    /// line. An answer that lists none ends the scan: the session disconnects
    /// and the round fails as finished. An answer with a fault in it changes
    /// nothing; no part of it is added.
    pub fn scan(&mut self, reply: &[u8]) -> (res: Result<Round, Error>)
        ensures
            final(self)@ == scan_next(old(self)@, reply@),
            match res {
                Ok(round) => scan_result(old(self)@, reply@) == Ok::<(nat, Seq<Seq<u8>>), Fault>(
                    (round.added as nat, views(round.resid@)),
                ),
                Err(e) => scan_result(old(self)@, reply@) == Err::<(nat, Seq<Seq<u8>>), Fault>(
                    e@,
                ),
            },
    {
        match self.stream {
            Stream::Scan => {},
            _ => {
                return Err(Error::StreamUnavailable);
            },
        }
        let found = match read_listing(reply) {
            Ok(found) => found,
            Err(e) => {
                return Err(e);
            },
        };
        let (files, resid) = part_records(found.as_slice());
        self.extend(files.as_slice());
        let added: usize = resid.len();
        if added == 0 {
            self.stream = Stream::Disconnected;
            return Err(Error::ScanFinished);
        }
        Ok(Round { added, resid })
    }

    /// The request that acknowledges the records of a round by their residual
    /// ids; none where there is nothing to acknowledge.
    pub fn delete_request(&self, resid: &[Vec<u8>]) -> (res: Option<Vec<u8>>)
        ensures
            res is Some <==> resid@.len() > 0,
            res matches Some(request) ==> request@ == deletion_request(
                self@.uid,
                self@.token,
                views(resid@),
            ),
    {
        if resid.len() == 0 {
            return None;
        }
        Some(build_deletion_request(self.uid.as_slice(), self.token.as_slice(), resid))
    }

    /// Reads the answer to an acknowledgement: whether the server deleted.
    pub fn delete(reply: &[u8]) -> (res: Result<bool, Error>)
        ensures
            match res {
                Ok(done) => deletion(reply@) == Ok::<bool, Fault>(done),
                Err(e) => deletion(reply@) == Err::<bool, Fault>(e@),
            },
    {
        read_deletion(reply)
    }

    /// What a round returns once its acknowledgement is answered: the number of
    /// files added, whether or not the server deleted. An answer with a fault
    /// in it fails the round with that fault; the files stay added.
    pub fn acknowledge(added: usize, reply: &[u8]) -> (res: Result<usize, Error>)
        ensures
            match deletion(reply@) {
                Ok(_) => res == Ok::<usize, Error>(added),
                Err(fault) => res matches Err(e) && e@ == fault,
            },
    {
        match read_deletion(reply) {
            Ok(_) => Ok(added),
            Err(e) => Err(e),
        }
    }

    /// The request for the download address of the object `object_id`. Refused
    /// unless the session is connected to the download host.
    pub fn link_request(&self, object_id: &[u8]) -> (res: Result<Vec<u8>, Error>)
        ensures
            res is Ok <==> self@.stream == Stream::Link,
            res matches Ok(request) ==> request@ == download_request(object_id@),
            res matches Err(e) ==> e@ == Fault::StreamUnavailable,
    {
        match self.stream {
            Stream::Link => Ok(build_download_request(object_id)),
            _ => Err(Error::StreamUnavailable),
        }
    }

    /// The download address in the answer to a link request, or why there is
    /// none. The session stays connected either way. Whoever follows the
    /// address has to name the download host as the referer.
    pub fn get_link(&self, reply: &[u8]) -> (res: Result<Vec<u8>, Error>)
        ensures
            match res {
                Ok(url) => link_result(self@, reply@) == Ok::<Seq<u8>, Fault>(url@),
                Err(e) => link_result(self@, reply@) == Err::<Seq<u8>, Fault>(e@),
            },
    {
        match self.stream {
            Stream::Link => read_download(reply),
            _ => Err(Error::StreamUnavailable),
        }
    }
}

/// Where a piece within the first `n` has no name separator, the pieces hold
/// no entries.
pub proof fn lemma_entries_in_prefix(parts: Seq<Seq<u8>>, n: int)
    requires
        0 <= n <= parts.len(),
        entries_in(parts.take(n)) is None,
    ensures
        entries_in(parts) is None,
    decreases parts.len() - n,
{
    if n < parts.len() {
        assert(parts.take(n + 1).drop_last() =~= parts.take(n));
        lemma_entries_in_prefix(parts, n + 1);
    } else {
        assert(parts.take(n) =~= parts);
    }
}

/// An entry that comes back from a container as it went in: no separator of
/// either kind in its name, and no field separator in its object id.
pub open spec fn clean_entry(entry: (Seq<u8>, Seq<u8>)) -> bool {
    !entry.0.contains(27u8) && !entry.0.contains(26u8) && !entry.1.contains(27u8)
}

/// The texts of clean entries hold the entries.
pub proof fn lemma_entries_in_texts(entries: Seq<(Seq<u8>, Seq<u8>)>)
    requires
        forall|i: int| 0 <= i < entries.len() ==> clean_entry(#[trigger] entries[i]),
    ensures
        entries_in(entries.map_values(|entry: (Seq<u8>, Seq<u8>)| entry_text(entry))) == Some(
            entries,
        ),
    decreases entries.len(),
{
    let texts = entries.map_values(|entry: (Seq<u8>, Seq<u8>)| entry_text(entry));
    if entries.len() == 0 {
        assert(entries =~= Seq::empty());
    } else {
        let last = entries.last();
        assert(clean_entry(entries[entries.len() - 1]));
        assert forall|i: int| 0 <= i < entries.drop_last().len() implies clean_entry(
            #[trigger] entries.drop_last()[i],
        ) by {
            assert(entries.drop_last()[i] == entries[i]);
        }
        lemma_entries_in_texts(entries.drop_last());
        assert(texts.drop_last() =~= entries.drop_last().map_values(
            |entry: (Seq<u8>, Seq<u8>)| entry_text(entry),
        ));
        lemma_cut_joint(last.0, 26u8, last.1);
        assert(texts.last() == last.0 + name_sep() + last.1);
        assert(entries.drop_last().push(last) =~= entries);
    }
}

/// The fields of a base region made of the three credentials and the padding
/// are the credentials, trimmed; the padding stays with the third.
pub proof fn lemma_base_fields(uid: Seq<u8>, token: Seq<u8>, tail: Seq<u8>)
    requires
        !uid.contains(27u8),
        !token.contains(27u8),
    ensures
        base_fields(uid + field_sep() + token + field_sep() + tail) == Some(
            (trimmed(uid), trimmed(token), trimmed(tail)),
        ),
{
    let base = uid + field_sep() + token + field_sep() + tail;
    assert(base =~= uid + seq![27u8] + (token + seq![27u8] + tail));
    lemma_cut_joint(uid, 27u8, token + seq![27u8] + tail);
    lemma_cut_joint(token, 27u8, tail);
}

/// No field separator stands in the text of a clean entry, and the text is
/// not empty.
pub proof fn lemma_entry_text_clean(entry: (Seq<u8>, Seq<u8>))
    requires
        clean_entry(entry),
    ensures
        !entry_text(entry).contains(27u8),
        entry_text(entry).len() > 0,
{
    let t = entry_text(entry);
    if t.contains(27u8) {
        let k = choose|k: int| 0 <= k < t.len() && t[k] == 27u8;
        if k < entry.0.len() {
            assert(entry.0[k] == 27u8);
            assert(entry.0.contains(27u8));
        } else if k > entry.0.len() {
            assert(entry.1[k - entry.0.len() - 1] == 27u8);
            assert(entry.1.contains(27u8));
        } else {
            assert(t[k] == 26u8);
        }
    }
}

/// The list region written for clean entries holds those entries.
pub proof fn lemma_list_entries(entries: Seq<(Seq<u8>, Seq<u8>)>)
    requires
        forall|i: int| 0 <= i < entries.len() ==> clean_entry(#[trigger] entries[i]),
    ensures
        list_entries(list_text(entries)) == Some(entries),
{
    let list = list_text(entries);
    let texts = entries.map_values(|entry: (Seq<u8>, Seq<u8>)| entry_text(entry));
    if entries.len() == 0 {
        assert(entries =~= Seq::empty());
        assert(list.len() == 0);
    } else {
        assert forall|i: int| 0 <= i < texts.len() implies !(#[trigger] texts[i]).contains(
            27u8,
        ) by {
            assert(clean_entry(entries[i]));
            lemma_entry_text_clean(entries[i]);
        }
        lemma_pieces_joined(texts, 27u8);
        lemma_entries_in_texts(entries);
        if list.len() == 0 {
            lemma_pieces_single(list, 27u8);
            assert(texts[0] == list);
            assert(clean_entry(entries[0]));
            lemma_entry_text_clean(entries[0]);
        }
    }
}

/// What was serialized loads back. A container made of credentials and clean
/// entries, with no field separator in the user id or the token, a base text
/// of at most 64 bytes and a plaintext of even length, loads to a catalog
/// with those entries. The credentials come back trimmed, and the third with
/// the zero bytes that padded the base region.
pub proof fn lemma_load_serialized(
    key: [u8; 4],
    uid: Seq<u8>,
    token: Seq<u8>,
    dirid: Seq<u8>,
    entries: Seq<(Seq<u8>, Seq<u8>)>,
)
    requires
        valid_passkey(key),
        !uid.contains(27u8),
        !token.contains(27u8),
        base_text(uid, token, dirid).len() <= 64,
        forall|i: int| 0 <= i < entries.len() ==> clean_entry(#[trigger] entries[i]),
        plaintext(uid, token, dirid, entries).len() % 2 == 0,
    ensures
        loaded(container(key, plaintext(uid, token, dirid, entries))) == Ok::<Catalog, Fault>(
            Catalog {
                uid: trimmed(uid),
                token: trimmed(token),
                dirid: trimmed(dirid + zeros((64 - base_text(uid, token, dirid).len()) as nat)),
                entries,
                stream: Stream::Disconnected,
                framing: Framing::Complete,
                raw: container(key, plaintext(uid, token, dirid, entries)),
            },
        ),
{
    let base = padded(base_text(uid, token, dirid));
    let list = list_text(entries);
    let text = plaintext(uid, token, dirid, entries);
    let tail = dirid + zeros((64 - base_text(uid, token, dirid).len()) as nat);
    assert(base.len() == 64);
    crate::container::lemma_parse_assemble(key, text);
    assert(text.take(64) =~= base);
    assert(text.skip(64) =~= list);
    assert(base =~= uid + field_sep() + token + field_sep() + tail);
    lemma_base_fields(uid, token, tail);
    lemma_list_entries(entries);
}

/// What was serialized loads back as it was, but for the padding: where in
/// addition no credential begins or ends with white space, the user id and
/// the token come back as they were, and the directory id with the zero bytes
/// that padded the base region after it.
pub proof fn lemma_load_clean(
    key: [u8; 4],
    uid: Seq<u8>,
    token: Seq<u8>,
    dirid: Seq<u8>,
    entries: Seq<(Seq<u8>, Seq<u8>)>,
)
    requires
        valid_passkey(key),
        !uid.contains(27u8),
        !token.contains(27u8),
        base_text(uid, token, dirid).len() <= 64,
        forall|i: int| 0 <= i < entries.len() ==> clean_entry(#[trigger] entries[i]),
        plaintext(uid, token, dirid, entries).len() % 2 == 0,
        trim_free(uid),
        trim_free(token),
        trim_free(dirid),
    ensures
        loaded(container(key, plaintext(uid, token, dirid, entries))) == Ok::<Catalog, Fault>(
            Catalog {
                uid,
                token,
                dirid: dirid + zeros((64 - base_text(uid, token, dirid).len()) as nat),
                entries,
                stream: Stream::Disconnected,
                framing: Framing::Complete,
                raw: container(key, plaintext(uid, token, dirid, entries)),
            },
        ),
{
    let tail = dirid + zeros((64 - base_text(uid, token, dirid).len()) as nat);
    lemma_load_serialized(key, uid, token, dirid, entries);
    lemma_trimmed_clean(uid);
    lemma_trimmed_clean(token);
    lemma_trim_free_padded(dirid, zeros((64 - base_text(uid, token, dirid).len()) as nat));
    lemma_trimmed_clean(tail);
}

/// A catalog that has grown is in line: its container mirrors its credentials
/// and entries, under the passkey it had before.
pub proof fn lemma_grown_in_line(c: Catalog, files: Seq<(Seq<u8>, Seq<u8>)>)
    ensures
        passkey_of(grown(c, files).raw) == passkey_of(c.raw),
        grown(c, files).raw == mirror(grown(c, files)),
        valid_passkey(passkey_of(c.raw)) ==> sound(grown(c, files).raw),
{
    let text = plaintext(c.uid, c.token, c.dirid, c.entries + files);
    lemma_container_parts(passkey_of(c.raw), text);
}

/// What every scan round keeps and what it may change. The credentials, the
/// passkey and the framing stay; the entries there were stay, in their order,
/// before what is added; and the container is in line after every round that
/// adds. The session leaves the listing host only in the round that finds
/// nothing, and then it is not connected at all; a round that is refused for
/// want of that host changes nothing.
pub proof fn lemma_scan_round(c: Catalog, reply: Seq<u8>)
    ensures
        scan_next(c, reply).uid == c.uid,
        scan_next(c, reply).token == c.token,
        scan_next(c, reply).dirid == c.dirid,
        scan_next(c, reply).framing == c.framing,
        passkey_of(scan_next(c, reply).raw) == passkey_of(c.raw),
        c.entries.is_prefix_of(scan_next(c, reply).entries),
        scan_result(c, reply) matches Ok((added, resid)) ==> {
            &&& added > 0
            &&& resid.len() == added
            &&& scan_next(c, reply).entries.len() == c.entries.len() + added
            &&& scan_next(c, reply).stream == Stream::Scan
            &&& scan_next(c, reply).raw == mirror(scan_next(c, reply))
        },
        scan_result(c, reply) == Err::<(nat, Seq<Seq<u8>>), Fault>(Fault::ScanFinished) ==> {
            &&& scan_next(c, reply).stream == Stream::Disconnected
            &&& scan_next(c, reply).entries == c.entries
            &&& scan_next(c, reply).raw == mirror(scan_next(c, reply))
        },
        scan_result(c, reply) is Err && scan_result(c, reply) != Err::<
            (nat, Seq<Seq<u8>>),
            Fault,
        >(Fault::ScanFinished) ==> scan_next(c, reply) == c,
{
    if c.stream == Stream::Scan {
        match listing(reply) {
            Ok(records) => {
                lemma_grown_in_line(c, files_of(records));
                assert(c.entries + files_of(records) == grown(c, files_of(records)).entries);
                if records.len() == 0 {
                    assert(c.entries + files_of(records) =~= c.entries);
                }
            },
            Err(fault) => {
                lemma_listing_faults(reply);
            },
        }
    }
}

/// A listing never fails as finished or for want of a connection: those are
/// the session's to say.
pub proof fn lemma_listing_faults(reply: Seq<u8>)
    ensures
        listing(reply) matches Err(fault) ==> fault != Fault::ScanFinished && fault
            != Fault::StreamUnavailable,
{
}

} // verus!
