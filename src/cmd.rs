//! The command set: reading a request frame into a command, and applying
//! a command to the state.
use vstd::prelude::*;
use vstd::string::StringExecFns;
use crate::entity::Entity;
use crate::error::CacheError;
use crate::frame::Frame;
use crate::parse::{Parse, text_of, bytes_of};
use crate::storage::{State, after_set, after_del, get_reply, deadline_of};

verus! {

/// The lower-case form that `str::to_lowercase` gives of a text.
pub uninterp spec fn lower_of(s: Seq<char>) -> Seq<char>;

/// The upper-case form that `str::to_uppercase` gives of a text.
pub uninterp spec fn upper_of(s: Seq<char>) -> Seq<char>;

/// Relies on str::to_lowercase: the result depends on the text alone.
#[verifier::external_body]
fn lowercase(s: &str) -> (r: String)
    ensures
        r@ == lower_of(s@),
{
    s.to_lowercase()
}

/// Relies on str::to_uppercase: the result depends on the text alone.
#[verifier::external_body]
fn uppercase(s: &str) -> (r: String)
    ensures
        r@ == upper_of(s@),
{
    s.to_uppercase()
}

/// A request as a mathematical value.
pub enum Request {
    Get(Frame),
    SetValue(Frame, Frame, Option<int>),
    Del(Frame),
    Publish(Seq<char>, Frame),
    Subscribe(Seq<Seq<char>>),
    Unsubscribe(Seq<Seq<char>>),
    Ping(Option<Seq<u8>>),
    Unknown(Seq<char>),
}

/// Why a request frame is refused.
pub enum Refusal {
    /// An argument is missing.
    EndOfStream,
    /// Anything else: a wrong type, an extra argument, an unknown option.
    Other,
}

pub open spec fn all_text(s: Seq<Frame>) -> bool {
    forall|i: int| 0 <= i < s.len() ==> (#[trigger] text_of(s[i])) is Some
}

pub open spec fn texts(s: Seq<Frame>) -> Seq<Seq<char>> {
    Seq::new(s.len(), |i: int| text_of(s[i])->0)
}

/// Milliseconds in `n` units of `per` milliseconds, held at `u64::MAX`.
pub open spec fn millis(n: int, per: int) -> int {
    if n * per > u64::MAX {
        u64::MAX as int
    } else {
        n * per
    }
}

/// A command that takes exactly one key.
pub open spec fn one_key(rest: Seq<Frame>) -> Result<Frame, Refusal> {
    if rest.len() == 0 {
        Err(Refusal::EndOfStream)
    } else if rest.len() == 1 {
        Ok(rest[0])
    } else {
        Err(Refusal::Other)
    }
}

/// The expiry, in milliseconds, that the option `upper` (already
/// upper-cased) and the arguments after it give: `EX seconds` or
/// `PX milliseconds`, and nothing more.
pub open spec fn decode_expire(upper: Seq<char>, rest: Seq<Frame>) -> Result<int, Refusal> {
    if !(upper == "EX"@ || upper == "PX"@) {
        Err(Refusal::Other)
    } else if rest.len() == 0 {
        Err(Refusal::EndOfStream)
    } else {
        match rest[0] {
            Frame::Integer(n) => if n < 0 || rest.len() > 1 {
                Err(Refusal::Other)
            } else if upper == "EX"@ {
                Ok(millis(n, 1000))
            } else {
                Ok(millis(n, 1))
            },
            _ => Err(Refusal::Other),
        }
    }
}

/// `SET key value [EX seconds | PX milliseconds]`.
pub open spec fn decode_set(rest: Seq<Frame>) -> Result<Request, Refusal> {
    if rest.len() < 2 {
        Err(Refusal::EndOfStream)
    } else if rest.len() == 2 {
        Ok(Request::SetValue(rest[0], rest[1], None))
    } else {
        match text_of(rest[2]) {
            None => Err(Refusal::Other),
            Some(opt) => match decode_expire(upper_of(opt), rest.skip(3)) {
                Ok(ms) => Ok(Request::SetValue(rest[0], rest[1], Some(ms))),
                Err(e) => Err(e),
            },
        }
    }
}

/// The arguments of `SET` name an option other than `EX` or `PX`.
pub open spec fn unknown_set_option(rest: Seq<Frame>) -> bool {
    &&& rest.len() > 2
    &&& text_of(rest[2]) is Some
    &&& !(upper_of(text_of(rest[2])->0) == "EX"@ || upper_of(text_of(rest[2])->0) == "PX"@)
}

/// The request named `name` (already lower-cased), with arguments `rest`.
pub open spec fn decode_command(name: Seq<char>, rest: Seq<Frame>) -> Result<Request, Refusal> {
    if name == "get"@ {
        match one_key(rest) {
            Ok(k) => Ok(Request::Get(k)),
            Err(e) => Err(e),
        }
    } else if name == "del"@ {
        match one_key(rest) {
            Ok(k) => Ok(Request::Del(k)),
            Err(e) => Err(e),
        }
    } else if name == "set"@ {
        decode_set(rest)
    } else if name == "publish"@ {
        if rest.len() == 0 {
            Err(Refusal::EndOfStream)
        } else if text_of(rest[0]) is None {
            Err(Refusal::Other)
        } else if rest.len() == 1 {
            Err(Refusal::EndOfStream)
        } else if rest.len() == 2 {
            Ok(Request::Publish(text_of(rest[0])->0, rest[1]))
        } else {
            Err(Refusal::Other)
        }
    } else if name == "ping"@ {
        if rest.len() == 0 {
            Ok(Request::Ping(None))
        } else if bytes_of(rest[0]) is None || rest.len() > 1 {
            Err(Refusal::Other)
        } else {
            Ok(Request::Ping(bytes_of(rest[0])))
        }
    } else if name == "subscribe"@ {
        if rest.len() == 0 {
            Err(Refusal::EndOfStream)
        } else if !all_text(rest) {
            Err(Refusal::Other)
        } else {
            Ok(Request::Subscribe(texts(rest)))
        }
    } else if name == "unsubscribe"@ {
        if !all_text(rest) {
            Err(Refusal::Other)
        } else {
            Ok(Request::Unsubscribe(texts(rest)))
        }
    } else {
        Ok(Request::Unknown(name))
    }
}

/// The request that a frame holds, its name folded by `to_lowercase`.
pub open spec fn command_of(f: Frame) -> Result<Request, Refusal> {
    match f {
        Frame::Array(items) => if items.len() == 0 {
            Err(Refusal::EndOfStream)
        } else {
            match text_of(items[0]) {
                Some(t) => decode_command(lower_of(t), items.drop_first()),
                None => Err(Refusal::Other),
            }
        },
        _ => Err(Refusal::Other),
    }
}

/// A `SET` request frame that names an option other than `EX` or `PX`.
pub open spec fn set_with_unknown_option(f: Frame) -> bool {
    &&& f is Array
    &&& f->Array_0.len() > 0
    &&& text_of(f->Array_0[0]) is Some
    &&& lower_of(text_of(f->Array_0[0])->0) == "set"@
    &&& unknown_set_option(f->Array_0.drop_first())
}

pub open spec fn refused_as(r: Result<Request, Refusal>, e: CacheError) -> bool {
    match r {
        Err(Refusal::EndOfStream) => e is EndOfStream,
        Err(Refusal::Other) => e is Other,
        Ok(_) => false,
    }
}

pub open spec fn string_views(v: Seq<String>) -> Seq<Seq<char>> {
    Seq::new(v.len(), |i: int| v[i]@)
}

pub struct Get {
    pub key: Entity,
}

pub struct SetValue {
    pub key: Entity,
    pub value: Entity,
    /// Milliseconds until the value lapses.
    pub expire: Option<u64>,
}

pub struct Del {
    pub key: Entity,
}

pub struct Publish {
    pub channel: String,
    pub message: Entity,
}

pub struct Subscribe {
    pub channels: Vec<String>,
}

pub struct Unsubscribe {
    pub channels: Vec<String>,
}

pub struct Ping {
    pub msg: Option<Vec<u8>>,
}

pub struct Unknown {
    pub command_name: String,
}

impl Unknown {
    pub fn new(key: &str) -> (r: Unknown)
        ensures
            r.command_name@ == key@,
    {
        Unknown { command_name: key.to_owned() }
    }

    pub fn get_name(&self) -> (r: &str)
        ensures
            r@ == self.command_name@,
    {
        self.command_name.as_str()
    }
}

pub enum Command {
    Get(Get),
    Publish(Publish),
    SetValue(SetValue),
    Del(Del),
    Subscribe(Subscribe),
    Unsubscribe(Unsubscribe),
    Ping(Ping),
    Unknown(Unknown),
}

impl View for Command {
    type V = Request;

    open spec fn view(&self) -> Request {
        match self {
            Command::Get(c) => Request::Get(c.key@),
            Command::SetValue(c) => Request::SetValue(
                c.key@,
                c.value@,
                match c.expire {
                    Some(t) => Some(t as int),
                    None => None,
                },
            ),
            Command::Del(c) => Request::Del(c.key@),
            Command::Publish(c) => Request::Publish(c.channel@, c.message@),
            Command::Subscribe(c) => Request::Subscribe(string_views(c.channels@)),
            Command::Unsubscribe(c) => Request::Unsubscribe(string_views(c.channels@)),
            Command::Ping(c) => Request::Ping(
                match c.msg {
                    Some(m) => Some(m@),
                    None => None,
                },
            ),
            Command::Unknown(c) => Request::Unknown(c.command_name@),
        }
    }
}

/// What the connection does after a command: send a reply, hand a message
/// to a channel's subscribers, or enter subscriber mode.
pub enum Action {
    Reply(Entity),
    Publish(String, Entity),
    Subscribe(Vec<String>),
}

/// The name a command goes by in an error reply.
pub open spec fn name_of(c: Request) -> Seq<char> {
    match c {
        Request::Get(_) => "get"@,
        Request::SetValue(_, _, _) => "set"@,
        Request::Del(_) => "del"@,
        Request::Publish(_, _) => "pub"@,
        Request::Subscribe(_) => "subscribe"@,
        Request::Unsubscribe(_) => "unsubscribe"@,
        Request::Ping(_) => "ping"@,
        Request::Unknown(n) => n,
    }
}

fn is_name(name: &String, lit: &str) -> (r: bool)
    ensures
        r == (name@ == lit@),
{
    name.eq(&lit.to_owned())
}

/// Reads text arguments until none are left.
fn read_channels(parse: &mut Parse, channels: &mut Vec<String>) -> (r: Result<(), CacheError>)
    requires
        old(parse).wf(),
    ensures
        final(parse).wf(),
        all_text(old(parse).rest()) ==> r is Ok && final(parse).rest().len() == 0 && string_views(
            final(channels)@,
        ) == string_views(old(channels)@) + texts(old(parse).rest()),
        !all_text(old(parse).rest()) ==> r matches Err(CacheError::Other(_)),
{
    let ghost rest0 = parse.rest();
    let ghost c0 = channels@;
    let ghost mut i: int = 0;
    proof {
        assert(rest0.skip(0) =~= rest0);
        assert(string_views(c0) + texts(rest0.take(0)) =~= string_views(c0));
    }
    loop
        invariant
            parse.wf(),
            rest0 == old(parse).rest(),
            c0 == old(channels)@,
            0 <= i <= rest0.len(),
            parse.rest() == rest0.skip(i),
            all_text(rest0.take(i)),
            string_views(channels@) == string_views(c0) + texts(rest0.take(i)),
        decreases rest0.len() - i,
    {
        let ghost before = channels@;
        match parse.next_string() {
            Ok(s) => {
                proof {
                    assert(rest0.skip(i)[0] == rest0[i]);
                }
                channels.push(s);
                proof {
                    assert(s@ == text_of(rest0[i])->0);
                    assert(string_views(channels@) =~= string_views(before).push(s@));
                    assert(texts(rest0.take(i + 1)) =~= texts(rest0.take(i)).push(text_of(rest0[i])->0));
                    assert(rest0.skip(i).drop_first() =~= rest0.skip(i + 1));
                    assert(rest0.take(i + 1).drop_last() =~= rest0.take(i));
                    assert forall|k: int| 0 <= k < i + 1 implies (#[trigger] text_of(rest0.take(i + 1)[k])) is Some by {
                        if k < i {
                            assert(rest0.take(i + 1)[k] == rest0.take(i)[k]);
                        }
                    }
                    assert(string_views(channels@) =~= string_views(c0) + texts(rest0.take(i + 1)));
                    i = i + 1;
                }
            },
            Err(CacheError::EndOfStream) => {
                proof {
                    assert(rest0.skip(i).len() == 0);
                    assert(i == rest0.len());
                    assert(rest0.take(i) =~= rest0);
                }
                return Ok(());
            },
            Err(e) => {
                proof {
                    assert(rest0.skip(i)[0] == rest0[i]);
                    assert(text_of(rest0[i]) is None);
                }
                return Err(e);
            },
        }
    }
}

fn expire_millis(n: i64, ex: bool) -> (r: u64)
    requires
        n >= 0,
    ensures
        r == millis(n as int, if ex { 1000 } else { 1 }),
{
    if !ex {
        n as u64
    } else if n as u64 > 18446744073709551 {
        proof {
            assert(n * 1000 > u64::MAX) by (nonlinear_arith)
                requires
                    n > 18446744073709551,
            ;
        }
        u64::MAX
    } else {
        proof {
            assert(n * 1000 <= u64::MAX) by (nonlinear_arith)
                requires
                    0 <= n <= 18446744073709551,
            ;
        }
        n as u64 * 1000
    }
}

impl SetValue {
    /// Reads the expiry that follows the option `upper`, which is already
    /// upper-cased, and checks that nothing follows it.
    pub fn expire_from_option(upper: &String, parse: &mut Parse) -> (r: Result<u64, CacheError>)
        requires
            old(parse).wf(),
        ensures
            final(parse).wf(),
            match decode_expire(upper@, old(parse).rest()) {
                Ok(ms) => r == Ok::<u64, CacheError>(ms as u64) && final(parse).rest().len() == 0,
                Err(e) => r is Err && refused_as(Err(e), r->Err_0),
            },
            !(upper@ == "EX"@ || upper@ == "PX"@) ==> (r matches Err(CacheError::Other(m)) && m@
                == "currently `SET` only supports the expiration option"@),
    {
        let ex = is_name(upper, "EX");
        let px = is_name(upper, "PX");
        if !ex && !px {
            return Err(CacheError::other("currently `SET` only supports the expiration option"));
        }
        let n = parse.next_int()?;
        if n < 0 {
            return Err(CacheError::other("ERR invalid expire time in 'set' command"));
        }
        parse.finish()?;
        Ok(expire_millis(n, ex))
    }

    /// Reads `key value [EX seconds | PX milliseconds]`.
    pub fn parse_frames(parse: &mut Parse) -> (r: Result<SetValue, CacheError>)
        requires
            old(parse).wf(),
        ensures
            final(parse).wf(),
            match decode_set(old(parse).rest()) {
                Ok(req) => r is Ok && Command::SetValue(r->Ok_0)@ == req,
                Err(e) => r is Err && refused_as(Err(e), r->Err_0),
            },
            r is Ok ==> final(parse).rest().len() == 0,
            unknown_set_option(old(parse).rest()) ==> (r matches Err(CacheError::Other(m)) && m@
                == "currently `SET` only supports the expiration option"@),
    {
        let ghost rest = parse.rest();
        let key = parse.next()?;
        let value = parse.next()?;
        proof {
            assert(parse.rest() =~= rest.skip(2));
            if rest.len() > 2 {
                assert(parse.rest()[0] == rest[2]);
            }
        }
        match parse.next_string() {
            Ok(s) => {
                let up = uppercase(s.as_str());
                proof {
                    assert(parse.rest() =~= rest.skip(3));
                }
                let ms = SetValue::expire_from_option(&up, parse)?;
                Ok(SetValue { key, value, expire: Some(ms) })
            },
            Err(CacheError::EndOfStream) => Ok(SetValue { key, value, expire: None }),
            Err(e) => Err(e),
        }
    }
}

impl Command {
    /// The command named `name`, which is already lower-cased, with the
    /// arguments left in `parse`.
    pub fn from_name(name: String, parse: &mut Parse) -> (r: Result<Command, CacheError>)
        requires
            old(parse).wf(),
        ensures
            match decode_command(name@, old(parse).rest()) {
                Ok(req) => r is Ok && r->Ok_0@ == req,
                Err(e) => r is Err && refused_as(Err(e), r->Err_0),
            },
            name@ == "set"@ && unknown_set_option(old(parse).rest()) ==> (r matches Err(
                CacheError::Other(m),
            ) && m@ == "currently `SET` only supports the expiration option"@),
    {
        let ghost rest = parse.rest();
        proof {
            reveal_strlit("get");
            reveal_strlit("del");
            reveal_strlit("set");
            assert("get"@[0] != "set"@[0] && "del"@[0] != "set"@[0]);
        }
        if is_name(&name, "get") {
            let key = parse.next()?;
            parse.finish()?;
            Ok(Command::Get(Get { key }))
        } else if is_name(&name, "del") {
            let key = parse.next()?;
            parse.finish()?;
            Ok(Command::Del(Del { key }))
        } else if is_name(&name, "set") {
            let c = SetValue::parse_frames(parse)?;
            Ok(Command::SetValue(c))
        } else if is_name(&name, "publish") {
            let channel = parse.next_string()?;
            let message = parse.next()?;
            parse.finish()?;
            Ok(Command::Publish(Publish { channel, message }))
        } else if is_name(&name, "ping") {
            match parse.next_bytes() {
                Ok(msg) => {
                    parse.finish()?;
                    Ok(Command::Ping(Ping { msg: Some(msg) }))
                },
                Err(CacheError::EndOfStream) => Ok(Command::Ping(Ping { msg: None })),
                Err(e) => Err(e),
            }
        } else if is_name(&name, "subscribe") {
            let first = parse.next_string()?;
            let mut channels = Vec::new();
            channels.push(first);
            let ghost after_first = parse.rest();
            read_channels(parse, &mut channels)?;
            proof {
                assert(rest.drop_first() == after_first);
                assert(all_text(rest)) by {
                    assert forall|k: int| 0 <= k < rest.len() implies (#[trigger] text_of(rest[k])) is Some by {
                        if k > 0 {
                            assert(rest[k] == after_first[k - 1]);
                        }
                    }
                }
                assert(string_views(channels@) =~= texts(rest));
            }
            Ok(Command::Subscribe(Subscribe { channels }))
        } else if is_name(&name, "unsubscribe") {
            let mut channels = Vec::new();
            proof {
                assert(string_views(channels@) =~= Seq::<Seq<char>>::empty());
            }
            read_channels(parse, &mut channels)?;
            proof {
                assert(string_views(channels@) =~= texts(rest));
            }
            Ok(Command::Unsubscribe(Unsubscribe { channels }))
        } else {
            Ok(Command::Unknown(Unknown { command_name: name }))
        }
    }

    /// Reads the command that a request frame holds.
    pub fn from_frame(frame: Entity) -> (r: Result<Command, CacheError>)
        ensures
            match command_of(frame@) {
                Ok(req) => r is Ok && r->Ok_0@ == req,
                Err(e) => r is Err && refused_as(Err(e), r->Err_0),
            },
            set_with_unknown_option(frame@) ==> (r matches Err(CacheError::Other(m)) && m@
                == "currently `SET` only supports the expiration option"@),
    {
        let mut parse = Parse::new(frame)?;
        let name = parse.next_string()?;
        let lname = lowercase(name.as_str());
        Command::from_name(lname, &mut parse)
    }

    /// The name this command goes by in an error reply.
    pub fn get_name(&self) -> (r: &str)
        ensures
            r@ == name_of(self@),
    {
        match self {
            Command::SetValue(_) => "set",
            Command::Get(_) => "get",
            Command::Del(_) => "del",
            Command::Publish(_) => "pub",
            Command::Subscribe(_) => "subscribe",
            Command::Unsubscribe(_) => "unsubscribe",
            Command::Ping(_) => "ping",
            Command::Unknown(cmd) => cmd.get_name(),
        }
    }
}

/// The reply to `PUBLISH`: how many subscribers received the message. No
/// sender for the channel, or a send that found no receiver, counts none.
pub fn publish_reply(sent: Option<Option<usize>>) -> (r: Entity)
    ensures
        r@ == Frame::Integer(
            match sent {
                Some(Some(n)) => if n <= i64::MAX { n as int } else { i64::MAX as int },
                _ => 0,
            },
        ),
{
    match sent {
        Some(Some(n)) => if n as u64 <= i64::MAX as u64 {
            Entity::Integer(n as i64)
        } else {
            Entity::Integer(i64::MAX)
        },
        _ => Entity::Integer(0),
    }
}

/// The reply `+OK`.
pub fn ok_reply() -> (r: Entity)
    ensures
        r@ == Frame::Simple("OK"@),
{
    Entity::Simple("OK".to_owned())
}

impl Command {
    /// Applies this command to the state at time `now` (milliseconds), and
    /// says what the connection does next, and whether the purger must be
    /// woken for a new earliest deadline.
    pub fn apply(self, db: &mut State, now: u64) -> (r: (Result<Action, CacheError>, bool))
        requires
            old(db).wf(),
        ensures
            final(db).wf(),
            match self {
                Command::Get(c) => final(db).view() == old(db).view() && (r.0 matches Ok(
                    Action::Reply(e),
                ) && e@ == get_reply(old(db).view(), c.key@, now as int)),
                Command::SetValue(c) => final(db).view() == after_set(
                    old(db).view(),
                    c.key@,
                    c.value@,
                    c.expire,
                    now,
                ) && (r.0 matches Ok(Action::Reply(e)) && e@ == Frame::Simple("OK"@)) && r.1 == (
                c.expire is Some && forall|p: (int, Frame)| #[trigger] old(db).view().expirations.contains(p)
                    ==> deadline_of(c.expire, now)->0 < p.0),
                Command::Del(c) => final(db).view() == after_del(old(db).view(), c.key@) && (r.0 matches Ok(
                    Action::Reply(e),
                ) && e@ == Frame::Simple("OK"@)),
                Command::Publish(c) => final(db).view() == old(db).view() && (r.0 matches Ok(
                    Action::Publish(ch, m),
                ) && ch@ == c.channel@ && m@ == c.message@),
                Command::Subscribe(c) => final(db).view() == old(db).view() && (r.0 matches Ok(
                    Action::Subscribe(chs),
                ) && string_views(chs@) == string_views(c.channels@)),
                Command::Unsubscribe(_) => final(db).view() == old(db).view() && (r.0 matches Err(
                    CacheError::Other(_),
                )),
                Command::Ping(c) => final(db).view() == old(db).view() && (r.0 matches Ok(
                    Action::Reply(e),
                ) && e@ == match c.msg {
                    Some(m) => Frame::Bulk(m@),
                    None => Frame::Simple("PONG"@),
                }),
                Command::Unknown(c) => final(db).view() == old(db).view() && (r.0 matches Ok(
                    Action::Reply(e),
                ) && e@ == Frame::Error("ERR unknown command '"@ + c.command_name@ + "'"@)),
            },
            !(self is SetValue) ==> !r.1,
    {
        match self {
            Command::Get(c) => {
                let reply = match db.get(&c.key, now) {
                    Some(v) => v,
                    None => Entity::Null,
                };
                (Ok(Action::Reply(reply)), false)
            },
            Command::SetValue(c) => {
                let notify = db.set(c.key, c.value, c.expire, now);
                (Ok(Action::Reply(ok_reply())), notify)
            },
            Command::Del(c) => {
                db.del(&c.key);
                (Ok(Action::Reply(ok_reply())), false)
            },
            Command::Publish(c) => (Ok(Action::Publish(c.channel, c.message)), false),
            Command::Subscribe(c) => (Ok(Action::Subscribe(c.channels)), false),
            Command::Unsubscribe(_) => (
                Err(CacheError::other("`Unsubscribe` is unsupported in this context")),
                false,
            ),
            Command::Ping(c) => match c.msg {
                Some(m) => (Ok(Action::Reply(Entity::Bulk(m))), false),
                None => (Ok(Action::Reply(Entity::Simple("PONG".to_owned()))), false),
            },
            Command::Unknown(c) => (Ok(Action::Reply(unknown_reply(c.command_name.as_str()))), false),
        }
    }
}

/// The reply to a command of no known name.
pub fn unknown_reply(name: &str) -> (r: Entity)
    ensures
        r@ == Frame::Error("ERR unknown command '"@ + name@ + "'"@),
{
    let mut msg = "ERR unknown command '".to_owned();
    msg.append(name);
    msg.append("'");
    Entity::Error(msg)
}

} // verus!