//! Notices pushed through a message service: the request that carries one, and
//! the reading of the service's answer.

use vstd::prelude::*;
use vstd::slice::slice_to_vec;
use vstd::string::StringSliceAdditionalSpecFns;
use crate::error::{Error, Fault};
use crate::text::{
    append, contains, cut, decimal, digits, find, find_first, occurs, pieces, same, split,
    split_once, without, without_byte,
};

verus! {

/// The form in which the service renders a notice.
#[derive(Clone, Copy, Debug, PartialEq, Eq, Structural)]
pub enum Template {
    HTML,
    TXT,
    JSON,
    MD,
}

/// The way on which the service delivers a notice.
#[derive(Clone, Copy, Debug, PartialEq, Eq, Structural)]
pub enum Channel {
    Wechat,
    Email,
}

impl Template {
    /// The name by which the service knows the template.
    pub open spec fn text(self) -> Seq<u8> {
        match self {
            Template::HTML => "html".spec_bytes(),
            Template::TXT => "txt".spec_bytes(),
            Template::JSON => "json".spec_bytes(),
            Template::MD => "markdown".spec_bytes(),
        }
    }

    /// The name by which the service knows the template.
    pub fn fmt(&self) -> (res: &'static [u8])
        ensures
            res@ == self.text(),
    {
        match self {
            Template::HTML => "html".as_bytes(),
            Template::TXT => "txt".as_bytes(),
            Template::JSON => "json".as_bytes(),
            Template::MD => "markdown".as_bytes(),
        }
    }
}

impl Channel {
    /// The name by which the service knows the channel.
    pub open spec fn text(self) -> Seq<u8> {
        match self {
            Channel::Wechat => "wechat".spec_bytes(),
            Channel::Email => "mail".spec_bytes(),
        }
    }

    /// The name by which the service knows the channel.
    pub fn fmt(&self) -> (res: &'static [u8])
        ensures
            res@ == self.text(),
    {
        match self {
            Channel::Wechat => "wechat".as_bytes(),
            Channel::Email => "mail".as_bytes(),
        }
    }
}

/// An answer of the service as contracts speak of it.
pub struct Reply {
    pub code: Seq<u8>,
    pub msg: Seq<u8>,
    pub data: Seq<u8>,
}

/// What the service answered: its code, its message and its data.
#[derive(Clone, Debug, PartialEq, Eq)]
pub struct Response {
    pub code: Vec<u8>,
    pub msg: Vec<u8>,
    pub data: Vec<u8>,
}

impl View for Response {
    type V = Reply;

    open spec fn view(&self) -> Reply {
        Reply { code: self.code@, msg: self.msg@, data: self.data@ }
    }
}

/// An answer written out.
pub open spec fn reply_text(r: Reply) -> Seq<u8> {
    "Response { code: ".spec_bytes() + r.code + ", msg: ".spec_bytes() + r.msg
        + ", data: ".spec_bytes() + r.data + " }".spec_bytes()
}

impl Response {
    /// The answer written out, for a reader.
    pub fn fmt(&self) -> (res: Vec<u8>)
        ensures
            res@ == reply_text(self@),
    {
        let mut res: Vec<u8> = Vec::new();
        append(&mut res, "Response { code: ".as_bytes());
        append(&mut res, self.code.as_slice());
        append(&mut res, ", msg: ".as_bytes());
        append(&mut res, self.msg.as_slice());
        append(&mut res, ", data: ".as_bytes());
        append(&mut res, self.data.as_slice());
        append(&mut res, " }".as_bytes());
        assert(res@ =~= reply_text(self@));
        res
    }
}

/// `content` with a backslash before every double quote.
pub open spec fn escaped(content: Seq<u8>) -> Seq<u8>
    decreases content.len(),
{
    if content.len() == 0 {
        Seq::empty()
    } else if content.last() == 34u8 {
        escaped(content.drop_last()).push(92u8).push(34u8)
    } else {
        escaped(content.drop_last()).push(content.last())
    }
}

/// The body of the request that carries a notice. Of its parts only the
/// content is escaped.
pub open spec fn notice_body(
    token: Seq<u8>,
    template: Template,
    channel: Channel,
    title: Seq<u8>,
    content: Seq<u8>,
) -> Seq<u8> {
    "{\"token\":\"".spec_bytes() + token + "\",\"template\":\"".spec_bytes() + template.text()
        + "\",\"channel\":\"".spec_bytes() + channel.text() + "\",\"title\":\"".spec_bytes()
        + title + "\",\"content\":\"".spec_bytes() + escaped(content) + "\"}".spec_bytes()
}

/// The request that carries `body`: its head, with the length of the body in
/// bytes, then the body.
pub open spec fn notice_request(body: Seq<u8>) -> Seq<u8> {
    "POST /send HTTP/1.1\r\nHost: www.pushplus.plus\r\nUser-Agent: Mozilla Curl Saloxy\r\nContent-Type: application/json\r\nContent-Length: ".spec_bytes()
        + digits(body.len()) + "\r\n\r\n".spec_bytes() + body
}

/// `r` after one part of an answer is read: the part, without its double
/// quotes, is a name, a colon and a value; the value goes to the field of that
/// name, and a name that is none of the three changes nothing. A part without
/// a colon cannot be read.
pub open spec fn assigned(r: Reply, part: Seq<u8>) -> Option<Reply> {
    match cut(without(part, 34u8), seq![58u8]) {
        None => None,
        Some((key, value)) => Some(
            if key == "code".spec_bytes() {
                Reply { code: value, ..r }
            } else if key == "msg".spec_bytes() {
                Reply { msg: value, ..r }
            } else if key == "data".spec_bytes() {
                Reply { data: value, ..r }
            } else {
                r
            },
        ),
    }
}

/// The answer that the parts give, read in order; none where one of them
/// cannot be read.
pub open spec fn assembled(parts: Seq<Seq<u8>>) -> Option<Reply>
    decreases parts.len(),
{
    if parts.len() == 0 {
        Some(Reply { code: Seq::empty(), msg: Seq::empty(), data: Seq::empty() })
    } else {
        match assembled(parts.drop_last()) {
            None => None,
            Some(r) => assigned(r, parts.last()),
        }
    }
}

/// What stands between the parts of an answer.
pub open spec fn part_sep() -> Seq<u8> {
    ",\"".spec_bytes()
}

/// The answer that the text between the braces holds. It has to name all three
/// fields somewhere; blanks are removed before it is cut into parts.
pub open spec fn answered(buff: Seq<u8>) -> Result<Reply, Fault> {
    if occurs(buff, "code".spec_bytes()) && occurs(buff, "data".spec_bytes()) && occurs(
        buff,
        "msg".spec_bytes(),
    ) {
        match assembled(pieces(without(buff, 32u8), part_sep())) {
            Some(r) => Ok(r),
            None => Err(Fault::UnreadableNotice),
        }
    } else {
        Err(Fault::UnreadableNotice)
    }
}

/// The answer in what the service sent back: what stands between the first
/// opening brace and the first closing brace is read. Without the two braces
/// in that order there is nothing to read.
pub open spec fn notice_reply(reply: Seq<u8>) -> Result<Reply, Fault> {
    match (find_first(reply, seq![123u8]), find_first(reply, seq![125u8])) {
        (Some(from), Some(to)) => if from + 1 > to {
            Err(Fault::UnreadableNotice)
        } else {
            answered(reply.subrange(from + 1, to))
        },
        _ => Err(Fault::UnreadableNotice),
    }
}

/// A copy of `content` with a backslash before every double quote.
pub fn escape(content: &[u8]) -> (res: Vec<u8>)
    ensures
        res@ == escaped(content@),
{
    let mut res: Vec<u8> = Vec::new();
    let mut i: usize = 0;
    assert(content@.take(0) =~= Seq::empty());
    while i < content.len()
        invariant
            i <= content@.len(),
            res@ == escaped(content@.take(i as int)),
        decreases content@.len() - i,
    {
        proof {
            assert(content@.take(i + 1).drop_last() =~= content@.take(i as int));
        }
        if content[i] == 34 {
            res.push(92);
        }
        res.push(content[i]);
        i += 1;
    }
    assert(content@.take(i as int) =~= content@);
    res
}

/// Reads one part of an answer into `r`.
pub fn assign(r: Response, part: &[u8]) -> (res: Option<Response>)
    ensures
        match res {
            Some(next) => assigned(r@, part@) == Some(next@),
            None => assigned(r@, part@) is None,
        },
{
    let bare = without_byte(part, 34);
    let colon: [u8; 1] = [58];
    assert(colon@ =~= seq![58u8]);
    let (key, value) = match split_once(bare.as_slice(), colon.as_slice()) {
        Some(pair) => pair,
        None => {
            return None;
        },
    };
    let mut r = r;
    if same(key, "code".as_bytes()) {
        r.code = slice_to_vec(value);
    } else if same(key, "msg".as_bytes()) {
        r.msg = slice_to_vec(value);
    } else if same(key, "data".as_bytes()) {
        r.data = slice_to_vec(value);
    }
    Some(r)
}

/// Where the first `n` parts cannot be read, the parts cannot.
pub proof fn lemma_assembled_prefix(parts: Seq<Seq<u8>>, n: int)
    requires
        0 <= n <= parts.len(),
        assembled(parts.take(n)) is None,
    ensures
        assembled(parts) is None,
    decreases parts.len() - n,
{
    if n < parts.len() {
        assert(parts.take(n + 1).drop_last() =~= parts.take(n));
        lemma_assembled_prefix(parts, n + 1);
    } else {
        assert(parts.take(n) =~= parts);
    }
}

/// Reads the parts of an answer, blanks removed, in order.
pub fn assemble_parts(text: &[u8]) -> (res: Option<Response>)
    ensures
        match res {
            Some(r) => assembled(pieces(text@, part_sep())) == Some(r@),
            None => assembled(pieces(text@, part_sep())) is None,
        },
{
    let parts = split(text, ",\"".as_bytes());
    let ghost texts = pieces(text@, part_sep());
    let mut r = Response { code: Vec::new(), msg: Vec::new(), data: Vec::new() };
    let mut i: usize = 0;
    while i < parts.len()
        invariant
            i <= parts@.len(),
            texts == pieces(text@, part_sep()),
            parts@.len() == texts.len(),
            forall|k: int| 0 <= k < parts@.len() ==> (#[trigger] parts@[k])@ == texts[k],
            assembled(texts.take(i as int)) == Some(r@),
        decreases parts@.len() - i,
    {
        proof {
            assert(texts.take(i + 1).drop_last() =~= texts.take(i as int));
            assert(texts.take(i + 1).last() == texts[i as int]);
            assert(parts@[i as int]@ == texts[i as int]);
        }
        match assign(r, parts[i]) {
            Some(next) => {
                r = next;
            },
            None => {
                proof {
                    assert(assembled(texts.take(i + 1)) is None);
                    lemma_assembled_prefix(texts, i + 1);
                }
                return None;
            },
        }
        i += 1;
    }
    assert(texts.take(i as int) =~= texts);
    Some(r)
}

/// What a notice is sent with: the token of the account, the template and the
/// channel.
#[derive(Debug)]
pub struct Notice<'a> {
    token: &'a [u8],
    template: Template,
    channel: Channel,
}

/// The settings of a notice as contracts speak of them.
pub struct Settings {
    pub token: Seq<u8>,
    pub template: Template,
    pub channel: Channel,
}

impl<'a> View for Notice<'a> {
    type V = Settings;

    closed spec fn view(&self) -> Settings {
        Settings { token: self.token@, template: self.template, channel: self.channel }
    }
}

impl<'a> Notice<'a> {
    /// The settings for notices of the account that `token` belongs to.
    pub fn new(token: &'a [u8], template: Template, channel: Channel) -> (res: Notice<'a>)
        ensures
            res@ == (Settings { token: token@, template, channel }),
    {
        Notice { token, template, channel }
    }

    /// The request that carries a notice with `title` and `content`.
    pub fn structen(&self, title: &[u8], content: &[u8]) -> (res: Vec<u8>)
        ensures
            res@ == notice_request(
                notice_body(self@.token, self@.template, self@.channel, title@, content@),
            ),
    {
        let content = escape(content);
        let mut body: Vec<u8> = Vec::new();
        append(&mut body, "{\"token\":\"".as_bytes());
        append(&mut body, self.token);
        append(&mut body, "\",\"template\":\"".as_bytes());
        append(&mut body, self.template.fmt());
        append(&mut body, "\",\"channel\":\"".as_bytes());
        append(&mut body, self.channel.fmt());
        append(&mut body, "\",\"title\":\"".as_bytes());
        append(&mut body, title);
        append(&mut body, "\",\"content\":\"".as_bytes());
        append(&mut body, content.as_slice());
        append(&mut body, "\"}".as_bytes());
        let mut res: Vec<u8> = Vec::new();
        append(
            &mut res,
            "POST /send HTTP/1.1\r\nHost: www.pushplus.plus\r\nUser-Agent: Mozilla Curl Saloxy\r\nContent-Type: application/json\r\nContent-Length: ".as_bytes(),
        );
        append(&mut res, decimal(body.len()).as_slice());
        append(&mut res, "\r\n\r\n".as_bytes());
        append(&mut res, body.as_slice());
        res
    }

    /// Reads what the service sent back.
    pub fn receive(reply: &[u8]) -> (res: Result<Response, Error>)
        ensures
            match res {
                Ok(r) => notice_reply(reply@) == Ok::<Reply, Fault>(r@),
                Err(e) => notice_reply(reply@) == Err::<Reply, Fault>(e@),
            },
    {
        let open: [u8; 1] = [123];
        let close: [u8; 1] = [125];
        assert(open@ =~= seq![123u8]);
        assert(close@ =~= seq![125u8]);
        let from = match find(reply, open.as_slice()) {
            Some(from) => from,
            None => {
                return Err(Error::UnreadableNotice);
            },
        };
        let to = match find(reply, close.as_slice()) {
            Some(to) => to,
            None => {
                return Err(Error::UnreadableNotice);
            },
        };
        if to <= from {
            return Err(Error::UnreadableNotice);
        }
        Notice::handler(&reply[from + 1..to])
    }

    /// Reads the text between the braces of an answer.
    pub fn handler(buff: &[u8]) -> (res: Result<Response, Error>)
        ensures
            match res {
                Ok(r) => answered(buff@) == Ok::<Reply, Fault>(r@),
                Err(e) => answered(buff@) == Err::<Reply, Fault>(e@),
            },
    {
        if contains(buff, "code".as_bytes()) && contains(buff, "data".as_bytes()) && contains(
            buff,
            "msg".as_bytes(),
        ) {
            let text = without_byte(buff, 32);
            match assemble_parts(text.as_slice()) {
                Some(r) => Ok(r),
                None => Err(Error::UnreadableNotice),
            }
        } else {
            Err(Error::UnreadableNotice)
        }
    }
}

} // verus!
