//! Requests made through the `curl` program: the command line that a request
//! becomes, and the reading of what the program printed.
//!
//! The header fields of a message are a `Head`: a map from a name to a value,
//! held as a list in which no name stands twice. Names are byte strings, and
//! the list keeps the order in which the names first came.

use vstd::prelude::*;
use vstd::slice::slice_to_vec;
use vstd::string::StringSliceAdditionalSpecFns;
use crate::text::{
    append, copy_pairs, cut, lines, lines_of, occurs_at, pairs_view, same, split_once,
    starts_with, trim, trimmed, views, words, words_of,
};

verus! {

/// The index of the pair with the key `key`, where there is one.
pub open spec fn position(pairs: Seq<(Seq<u8>, Seq<u8>)>, key: Seq<u8>) -> Option<int>
    decreases pairs.len(),
{
    if pairs.len() == 0 {
        None
    } else {
        match position(pairs.drop_last(), key) {
            Some(i) => Some(i),
            None => if pairs.last().0 == key {
                Some(pairs.len() - 1)
            } else {
                None
            },
        }
    }
}

/// `pairs` with `value` under `key`: in place of the value that the key had,
/// or at the end where it had none.
pub open spec fn put(pairs: Seq<(Seq<u8>, Seq<u8>)>, key: Seq<u8>, value: Seq<u8>) -> Seq<
    (Seq<u8>, Seq<u8>),
> {
    match position(pairs, key) {
        Some(i) => pairs.update(i, (key, value)),
        None => pairs.push((key, value)),
    }
}

/// The pairs of `items` gathered as a map gathers them: each key once, at the
/// place where it first came, with the value that came last.
pub open spec fn collected(items: Seq<(Seq<u8>, Seq<u8>)>) -> Seq<(Seq<u8>, Seq<u8>)>
    decreases items.len(),
{
    if items.len() == 0 {
        Seq::empty()
    } else {
        put(collected(items.drop_last()), items.last().0, items.last().1)
    }
}

/// No key stands in two pairs.
pub open spec fn distinct_keys(pairs: Seq<(Seq<u8>, Seq<u8>)>) -> bool {
    forall|i: int, j: int| 0 <= i < j < pairs.len() ==> pairs[i].0 != pairs[j].0
}

/// The value that `pairs` holds under `key`.
pub open spec fn value_of(pairs: Seq<(Seq<u8>, Seq<u8>)>, key: Seq<u8>) -> Option<Seq<u8>> {
    match position(pairs, key) {
        Some(i) => Some(pairs[i].1),
        None => None,
    }
}

/// The value of the last of `items` that has the key `key`.
pub open spec fn last_value(items: Seq<(Seq<u8>, Seq<u8>)>, key: Seq<u8>) -> Option<Seq<u8>>
    decreases items.len(),
{
    if items.len() == 0 {
        None
    } else if items.last().0 == key {
        Some(items.last().1)
    } else {
        last_value(items.drop_last(), key)
    }
}

/// A request or an answer as contracts speak of it.
pub struct Message {
    pub head: Seq<(Seq<u8>, Seq<u8>)>,
    pub body: Option<Seq<u8>>,
}

/// Header fields: each name once, with its value, in the order in which the
/// names first came.
#[derive(Debug, PartialEq, Eq)]
pub struct Head {
    pairs: Vec<(Vec<u8>, Vec<u8>)>,
}

impl View for Head {
    type V = Seq<(Seq<u8>, Seq<u8>)>;

    closed spec fn view(&self) -> Seq<(Seq<u8>, Seq<u8>)> {
        pairs_view(self.pairs@)
    }
}

/// The head and the body of a request, or of an answer.
#[derive(Clone, Debug, PartialEq, Eq)]
pub struct HTTP {
    pub head: Head,
    pub body: Option<Vec<u8>>,
}

impl View for HTTP {
    type V = Message;

    open spec fn view(&self) -> Message {
        Message {
            head: self.head@,
            body: match self.body {
                Some(body) => Some(body@),
                None => None,
            },
        }
    }
}

/// The arguments that hand the header fields to the program: for each field
/// `-H` and the field as `name: value`.
pub open spec fn header_args(head: Seq<(Seq<u8>, Seq<u8>)>) -> Seq<Seq<u8>>
    decreases head.len(),
{
    if head.len() == 0 {
        Seq::empty()
    } else {
        header_args(head.drop_last()).push("-H".spec_bytes()).push(
            head.last().0 + ": ".spec_bytes() + head.last().1,
        )
    }
}

/// The arguments that a request adds to the command line.
pub open spec fn request_args(m: Message) -> Seq<Seq<u8>> {
    seq!["-S".spec_bytes()] + header_args(m.head) + match m.body {
        Some(body) => seq!["--data".spec_bytes(), body],
        None => Seq::empty(),
    }
}

/// The whole command line for `url` and `method`, the program's name left out.
pub open spec fn command(url: Seq<u8>, method: Seq<u8>, args: Seq<Seq<u8>>) -> Seq<Seq<u8>> {
    seq![
        "-SiX".spec_bytes(),
        method,
        url,
        "-A".spec_bytes(),
        "Saloxy Mozilla Curl".spec_bytes(),
    ] + args
}

/// The address begins with `http://` or with `https://`.
pub open spec fn accepted_url(url: Seq<u8>) -> bool {
    occurs_at(url, "http://".spec_bytes(), 0) || occurs_at(url, "https://".spec_bytes(), 0)
}

/// The name and the value that a line of the head holds: what stands before
/// the first colon and what stands after it, both trimmed; for a line without
/// a colon, the trimmed line and an empty value.
pub open spec fn header_pair(line: Seq<u8>) -> (Seq<u8>, Seq<u8>) {
    match cut(line, seq![58u8]) {
        Some((name, value)) => (trimmed(name), trimmed(value)),
        None => (trimmed(line), Seq::empty()),
    }
}

/// The pairs that lines hold.
pub open spec fn header_pairs(lines: Seq<Seq<u8>>) -> Seq<(Seq<u8>, Seq<u8>)> {
    lines.map_values(|line: Seq<u8>| header_pair(line))
}

/// What the program's output amounts to: the answer and its status code, or a
/// number and a message that say what went wrong. A run that failed gives -3
/// and what the program wrote as its complaint, trimmed. Output without a
/// blank line after the head, without a first line, or with fewer than two
/// words in that line gives -2.
pub open spec fn received(success: bool, stdout: Seq<u8>, stderr: Seq<u8>) -> Result<
    (Message, Seq<u8>),
    (int, Seq<u8>),
> {
    if !success {
        Err((-3int, trimmed(stderr)))
    } else {
        match cut(stdout, "\r\n\r\n".spec_bytes()) {
            None => Err((-2int, "Fail to Parse (in)!".spec_bytes())),
            Some((head, body)) => if lines_of(head).len() == 0 || words_of(
                lines_of(head)[0],
            ).len() < 2 {
                Err((-2int, "Fail to Parse (in)!".spec_bytes()))
            } else {
                Ok(
                    (
                        Message {
                            head: collected(header_pairs(lines_of(head).skip(1))),
                            body: if body.len() != 0 {
                                Some(body)
                            } else {
                                None
                            },
                        },
                        words_of(lines_of(head)[0])[1],
                    ),
                )
            },
        }
    }
}

/// The index of the pair with the key `key`, where there is one.
pub fn find_key(head: &[(Vec<u8>, Vec<u8>)], key: &[u8]) -> (res: Option<usize>)
    ensures
        match res {
            Some(i) => position(pairs_view(head@), key@) == Some(i as int) && i < head@.len(),
            None => position(pairs_view(head@), key@) is None,
        },
{
    let ghost pairs = pairs_view(head@);
    let mut i: usize = 0;
    assert(pairs.take(0) =~= Seq::empty());
    while i < head.len()
        invariant
            i <= head@.len(),
            pairs == pairs_view(head@),
            position(pairs.take(i as int), key@) is None,
        decreases head@.len() - i,
    {
        proof {
            assert(pairs.take(i + 1).drop_last() =~= pairs.take(i as int));
            assert(pairs.take(i + 1).last() == pairs[i as int]);
        }
        if same(head[i].0.as_slice(), key) {
            proof {
                assert(position(pairs.take(i + 1), key@) == Some(i as int));
                lemma_position_prefix(pairs, key@, i + 1);
            }
            return Some(i);
        }
        i += 1;
    }
    assert(pairs.take(i as int) =~= pairs);
    None
}

/// Puts `value` under `key`, in place of the value that the key had or at the
/// end.
pub fn put_pair(head: &mut Vec<(Vec<u8>, Vec<u8>)>, key: Vec<u8>, value: Vec<u8>)
    ensures
        pairs_view(final(head)@) == put(pairs_view(old(head)@), key@, value@),
{
    let ghost pairs = pairs_view(head@);
    let ghost k = key@;
    let ghost v = value@;
    match find_key(head.as_slice(), key.as_slice()) {
        Some(i) => {
            head.set(i, (key, value));
            assert(pairs_view(head@) =~= pairs.update(i as int, (k, v)));
        },
        None => {
            head.push((key, value));
            assert(pairs_view(head@) =~= pairs.push((k, v)));
        },
    }
}

/// The position of a key among the first `n` pairs is its position among all.
pub proof fn lemma_position_prefix(pairs: Seq<(Seq<u8>, Seq<u8>)>, key: Seq<u8>, n: int)
    requires
        0 <= n <= pairs.len(),
        position(pairs.take(n), key) is Some,
    ensures
        position(pairs, key) == position(pairs.take(n), key),
    decreases pairs.len() - n,
{
    if n < pairs.len() {
        assert(pairs.take(n + 1).drop_last() =~= pairs.take(n));
        lemma_position_prefix(pairs, key, n + 1);
    } else {
        assert(pairs.take(n) =~= pairs);
    }
}

/// A position is the index of a pair with the key, and none lies before it;
/// there is none exactly where no pair has the key.
pub proof fn lemma_position(pairs: Seq<(Seq<u8>, Seq<u8>)>, key: Seq<u8>)
    ensures
        match position(pairs, key) {
            Some(i) => 0 <= i < pairs.len() && pairs[i].0 == key && forall|j: int|
                0 <= j < i ==> pairs[j].0 != key,
            None => forall|j: int| 0 <= j < pairs.len() ==> pairs[j].0 != key,
        },
    decreases pairs.len(),
{
    if pairs.len() > 0 {
        lemma_position(pairs.drop_last(), key);
        assert forall|j: int| 0 <= j < pairs.len() - 1 implies pairs[j] == pairs.drop_last()[
            j
        ] by {}
    }
}

/// Putting a value under a key keeps the keys apart.
pub proof fn lemma_put_distinct(pairs: Seq<(Seq<u8>, Seq<u8>)>, key: Seq<u8>, value: Seq<u8>)
    requires
        distinct_keys(pairs),
    ensures
        distinct_keys(put(pairs, key, value)),
{
    lemma_position(pairs, key);
}

/// Gathered pairs have each key once.
pub proof fn lemma_collected_distinct(items: Seq<(Seq<u8>, Seq<u8>)>)
    ensures
        distinct_keys(collected(items)),
    decreases items.len(),
{
    if items.len() > 0 {
        lemma_collected_distinct(items.drop_last());
        lemma_put_distinct(collected(items.drop_last()), items.last().0, items.last().1);
    }
}

/// After putting a value under a key, that key has the value and every other
/// key has what it had.
pub proof fn lemma_put_value(
    pairs: Seq<(Seq<u8>, Seq<u8>)>,
    key: Seq<u8>,
    value: Seq<u8>,
    other: Seq<u8>,
)
    requires
        distinct_keys(pairs),
    ensures
        value_of(put(pairs, key, value), other) == if other == key {
            Some(value)
        } else {
            value_of(pairs, other)
        },
{
    let after = put(pairs, key, value);
    lemma_position(pairs, key);
    lemma_position(pairs, other);
    lemma_position(after, other);
    lemma_put_distinct(pairs, key, value);
    match position(pairs, key) {
        Some(i) => {
            assert(after[i] == (key, value));
            if other != key {
                match position(pairs, other) {
                    Some(j) => {
                        assert(after[j] == pairs[j]);
                    },
                    None => {},
                }
                match position(after, other) {
                    Some(j) => {
                        assert(after[j] == pairs[j]);
                    },
                    None => {},
                }
            }
        },
        None => {
            assert(after.last() == (key, value));
            assert forall|j: int| 0 <= j < pairs.len() implies after[j] == pairs[j] by {}
            if other != key {
                match position(pairs, other) {
                    Some(j) => {
                        assert(after[j] == pairs[j]);
                    },
                    None => {},
                }
            }
        },
    }
}

/// Gathered pairs hold under each key the value that came last with it, as a
/// map filled in that order does.
pub proof fn lemma_collected_value(items: Seq<(Seq<u8>, Seq<u8>)>, key: Seq<u8>)
    ensures
        value_of(collected(items), key) == last_value(items, key),
    decreases items.len(),
{
    if items.len() > 0 {
        lemma_collected_value(items.drop_last(), key);
        lemma_collected_distinct(items.drop_last());
        lemma_put_value(collected(items.drop_last()), items.last().0, items.last().1, key);
    }
}

/// Gathers the pairs of `items`, each key once.
pub fn collect(items: &[(Vec<u8>, Vec<u8>)]) -> (res: Vec<(Vec<u8>, Vec<u8>)>)
    ensures
        pairs_view(res@) == collected(pairs_view(items@)),
{
    let mut head: Vec<(Vec<u8>, Vec<u8>)> = Vec::new();
    let ghost all = pairs_view(items@);
    let mut i: usize = 0;
    assert(pairs_view(head@) =~= collected(all.take(0)));
    while i < items.len()
        invariant
            i <= items@.len(),
            all == pairs_view(items@),
            pairs_view(head@) == collected(all.take(i as int)),
        decreases items@.len() - i,
    {
        proof {
            assert(all.take(i + 1).drop_last() =~= all.take(i as int));
            assert(all.take(i + 1).last() == all[i as int]);
        }
        put_pair(
            &mut head,
            slice_to_vec(items[i].0.as_slice()),
            slice_to_vec(items[i].1.as_slice()),
        );
        i += 1;
    }
    assert(all.take(i as int) =~= all);
    head
}

/// Reads the name and the value off a line of the head.
pub fn read_header(line: &[u8]) -> (res: (Vec<u8>, Vec<u8>))
    ensures
        (res.0@, res.1@) == header_pair(line@),
{
    let colon: [u8; 1] = [58];
    assert(colon@ =~= seq![58u8]);
    match split_once(line, colon.as_slice()) {
        Some((name, value)) => (slice_to_vec(trim(name)), slice_to_vec(trim(value))),
        None => (slice_to_vec(trim(line)), Vec::new()),
    }
}

/// Reads the name and the value off each of the lines, in their order.
pub fn read_head(lines: &[&[u8]]) -> (res: Vec<(Vec<u8>, Vec<u8>)>)
    ensures
        pairs_view(res@) == header_pairs(lines@.map_values(|line: &[u8]| line@)),
{
    let mut head: Vec<(Vec<u8>, Vec<u8>)> = Vec::new();
    let ghost all = header_pairs(lines@.map_values(|line: &[u8]| line@));
    let mut i: usize = 0;
    assert(pairs_view(head@) =~= all.take(0));
    while i < lines.len()
        invariant
            i <= lines@.len(),
            all == header_pairs(lines@.map_values(|line: &[u8]| line@)),
            pairs_view(head@) == all.take(i as int),
        decreases lines@.len() - i,
    {
        let ghost before = pairs_view(head@);
        let (name, value) = read_header(lines[i]);
        let ghost pair = (name@, value@);
        head.push((name, value));
        proof {
            assert(pairs_view(head@) =~= before.push(pair));
            assert(all.take(i + 1) =~= all.take(i as int).push(all[i as int]));
        }
        i += 1;
    }
    assert(all.take(i as int) =~= all);
    head
}

impl Clone for Head {
    fn clone(&self) -> (res: Head)
        ensures
            res@ == self@,
    {
        proof {
            use_type_invariant(self);
        }
        let mut pairs: Vec<(Vec<u8>, Vec<u8>)> = Vec::new();
        assert(pairs_view(pairs@) =~= Seq::empty());
        copy_pairs(&mut pairs, self.pairs.as_slice());
        assert(pairs_view(pairs@) =~= pairs_view(self.pairs@));
        Head { pairs }
    }
}

impl Head {
    /// No name stands twice.
    #[verifier::type_invariant]
    spec fn wf(&self) -> bool {
        distinct_keys(pairs_view(self.pairs@))
    }

    /// A head without fields.
    pub fn new() -> (res: Head)
        ensures
            res@ == Seq::<(Seq<u8>, Seq<u8>)>::empty(),
    {
        let pairs: Vec<(Vec<u8>, Vec<u8>)> = Vec::new();
        assert(pairs_view(pairs@) =~= Seq::empty());
        Head { pairs }
    }

    /// The fields of `items` gathered as a map gathers them: each name once,
    /// with the value that came last.
    pub fn collect(items: &[(Vec<u8>, Vec<u8>)]) -> (res: Head)
        ensures
            res@ == collected(pairs_view(items@)),
    {
        proof {
            lemma_collected_distinct(pairs_view(items@));
        }
        Head { pairs: collect(items) }
    }

    /// This head with `value` under `key`: in place of the value that the
    /// name had, or as a new field at the end.
    pub fn insert(self, key: Vec<u8>, value: Vec<u8>) -> (res: Head)
        ensures
            res@ == put(self@, key@, value@),
    {
        proof {
            use_type_invariant(&self);
            lemma_put_distinct(self@, key@, value@);
        }
        let mut pairs = self.pairs;
        put_pair(&mut pairs, key, value);
        Head { pairs }
    }

    /// The value under `key`, where the head has the name.
    pub fn get(&self, key: &[u8]) -> (res: Option<&[u8]>)
        ensures
            match res {
                Some(value) => value_of(self@, key@) == Some(value@),
                None => value_of(self@, key@) is None,
            },
    {
        match find_key(self.pairs.as_slice(), key) {
            Some(i) => Some(self.pairs[i].1.as_slice()),
            None => None,
        }
    }

    /// The fields, in the order in which their names first came. No name
    /// stands twice among them.
    pub fn as_slice(&self) -> (res: &[(Vec<u8>, Vec<u8>)])
        ensures
            pairs_view(res@) == self@,
            distinct_keys(self@),
    {
        proof {
            use_type_invariant(self);
        }
        self.pairs.as_slice()
    }

    /// The number of fields.
    pub fn len(&self) -> (res: usize)
        ensures
            res == self@.len(),
    {
        self.pairs.len()
    }
}

impl HTTP {
    /// A request with the header fields `head`, each name once with the value
    /// that came last, and with `body`.
    pub fn new(head: &[(Vec<u8>, Vec<u8>)], body: Option<Vec<u8>>) -> (res: HTTP)
        ensures
            res@.head == collected(pairs_view(head@)),
            res.body == body,
    {
        HTTP { head: Head::collect(head), body }
    }

    /// The command line that sends this request to `url` with `method`: the
    /// header fields in the order they are held, then the body. An address
    /// that begins with neither `http://` nor `https://` is refused with -1.
    pub fn send(&self, url: &[u8], method: &[u8]) -> (res: Result<Vec<Vec<u8>>, (i32, Vec<u8>)>)
        ensures
            res is Ok <==> accepted_url(url@),
            res matches Ok(line) ==> views(line@) == command(url@, method@, request_args(self@)),
            res matches Err(e) ==> e.0 == -1 && e.1@ == "Fail to Parse (Input)!".spec_bytes(),
    {
        let mut args: Vec<Vec<u8>> = Vec::new();
        args.push(slice_to_vec("-S".as_bytes()));
        let fields = self.head.as_slice();
        let ghost head = pairs_view(fields@);
        let mut i: usize = 0;
        assert(views(args@) =~= seq!["-S".spec_bytes()] + header_args(head.take(0)));
        while i < fields.len()
            invariant
                i <= fields@.len(),
                head == pairs_view(fields@),
                views(args@) == seq!["-S".spec_bytes()] + header_args(head.take(i as int)),
            decreases fields@.len() - i,
        {
            let mut field: Vec<u8> = Vec::new();
            append(&mut field, fields[i].0.as_slice());
            append(&mut field, ": ".as_bytes());
            append(&mut field, fields[i].1.as_slice());
            let ghost before = views(args@);
            let ghost text = field@;
            args.push(slice_to_vec("-H".as_bytes()));
            args.push(field);
            proof {
                assert(head.take(i + 1).drop_last() =~= head.take(i as int));
                assert(head.take(i + 1).last() == head[i as int]);
                assert(text =~= head[i as int].0 + ": ".spec_bytes() + head[i as int].1);
                assert(views(args@) =~= before.push("-H".spec_bytes()).push(text));
                assert(views(args@) =~= seq!["-S".spec_bytes()] + header_args(head.take(i + 1)));
            }
            i += 1;
        }
        assert(head.take(i as int) =~= head);
        match &self.body {
            Some(body) => {
                let ghost before = views(args@);
                args.push(slice_to_vec("--data".as_bytes()));
                args.push(slice_to_vec(body.as_slice()));
                assert(views(args@) =~= before + seq!["--data".spec_bytes(), body@]);
            },
            None => {
                assert(views(args@) =~= views(args@) + Seq::<Seq<u8>>::empty());
            },
        }
        assert(views(args@) =~= request_args(self@));
        HTTP::fetch(url, method, args.as_slice())
    }

    /// The command line for `url` and `method` with `args` after the
    /// arguments that every request has. An address that begins with neither
    /// `http://` nor `https://` is refused with -1.
    pub fn fetch(url: &[u8], method: &[u8], args: &[Vec<u8>]) -> (res: Result<
        Vec<Vec<u8>>,
        (i32, Vec<u8>),
    >)
        ensures
            res is Ok <==> accepted_url(url@),
            res matches Ok(line) ==> views(line@) == command(url@, method@, views(args@)),
            res matches Err(e) ==> e.0 == -1 && e.1@ == "Fail to Parse (Input)!".spec_bytes(),
    {
        if !starts_with(url, "http://".as_bytes()) && !starts_with(url, "https://".as_bytes()) {
            return Err((-1, slice_to_vec("Fail to Parse (Input)!".as_bytes())));
        }
        let mut line: Vec<Vec<u8>> = Vec::new();
        line.push(slice_to_vec("-SiX".as_bytes()));
        line.push(slice_to_vec(method));
        line.push(slice_to_vec(url));
        line.push(slice_to_vec("-A".as_bytes()));
        line.push(slice_to_vec("Saloxy Mozilla Curl".as_bytes()));
        let ghost fixed = views(line@);
        assert(fixed =~= command(url@, method@, Seq::empty()));
        let ghost all = views(args@);
        let mut i: usize = 0;
        while i < args.len()
            invariant
                i <= args@.len(),
                all == views(args@),
                views(line@) == fixed + all.take(i as int),
            decreases args@.len() - i,
        {
            let ghost before = views(line@);
            line.push(slice_to_vec(args[i].as_slice()));
            proof {
                assert(views(line@) =~= before.push(all[i as int]));
                assert(all.take(i + 1) =~= all.take(i as int).push(all[i as int]));
                assert(views(line@) =~= fixed + all.take(i + 1));
            }
            i += 1;
        }
        assert(all.take(i as int) =~= all);
        assert(views(line@) =~= command(url@, method@, views(args@)));
        Ok(line)
    }

    /// Reads what the program left: whether it ran well, what it printed and
    /// what it complained of. Gives the answer and its status code, or the
    /// number and the message of the failure, as `received` says.
    pub fn receive(success: bool, stdout: &[u8], stderr: &[u8]) -> (res: Result<
        (HTTP, Vec<u8>),
        (i32, Vec<u8>),
    >)
        ensures
            match res {
                Ok((answer, status)) => received(success, stdout@, stderr@) == Ok::<
                    (Message, Seq<u8>),
                    (int, Seq<u8>),
                >((answer@, status@)),
                Err((code, message)) => received(success, stdout@, stderr@) == Err::<
                    (Message, Seq<u8>),
                    (int, Seq<u8>),
                >((code as int, message@)),
            },
    {
        if !success {
            return Err((-3, slice_to_vec(trim(stderr))));
        }
        let (top, rest) = match split_once(stdout, "\r\n\r\n".as_bytes()) {
            Some(pair) => pair,
            None => {
                return Err((-2, slice_to_vec("Fail to Parse (in)!".as_bytes())));
            },
        };
        let all = lines(top);
        if all.len() == 0 {
            return Err((-2, slice_to_vec("Fail to Parse (in)!".as_bytes())));
        }
        let first = words(all[0]);
        if first.len() < 2 {
            return Err((-2, slice_to_vec("Fail to Parse (in)!".as_bytes())));
        }
        let status = slice_to_vec(first[1]);
        let count: usize = all.len();
        let after: &[&[u8]] = &all.as_slice()[1..count];
        proof {
            assert(all@.map_values(|line: &[u8]| line@) =~= lines_of(top@));
            assert(after@.map_values(|line: &[u8]| line@) =~= lines_of(top@).skip(1));
        }
        let head = Head::collect(read_head(after).as_slice());
        let body = if rest.len() != 0 {
            Some(slice_to_vec(rest))
        } else {
            None
        };
        Ok((HTTP { head, body }, status))
    }
}

} // verus!
