//! Commands: decoding a request frame into a command, with the exact error replies
//! for malformed requests.
use crate::db::{byte_seqs, copy_bytes, entry_size, evicted_for, eviction_done, pair_seqs, wrong_type, DataModel, Db,
    DbModel};
use crate::db_hash::Pairs;
use crate::db_keys::scan_op;
use crate::number::{digits_of, push_decimal_u64};
use crate::frame::{models, text, utf8_str, Frame, FrameModel};
use crate::number::{decimal_text, parse_i64_bytes, parse_i64_text, parse_u64_bytes, parse_u64_text,
    parse_usize_all, parse_usize_text, push_decimal_i64};
use vstd::prelude::*;
use vstd::string::StringExecFns;
use vstd::utf8::*;
use crate::frame_text::debug_repr;

verus! {

broadcast use vstd::utf8::encode_utf8_decode_utf8;

// ---------------------------------------------------------------------------
// Trusted calls into std
// ---------------------------------------------------------------------------
/// What `str::to_uppercase` gives: the Unicode upper-case mapping of each character.
pub uninterp spec fn uppercase(s: Seq<char>) -> Seq<char>;

/// `str::to_uppercase`, named `uppercase`.
#[verifier::external_body]
fn to_upper(s: &str) -> (r: String)
    ensures
        r@ == uppercase(s@),
{
    s.to_uppercase()
}

// ---------------------------------------------------------------------------
// Commands and their values
// ---------------------------------------------------------------------------
/// PING, with an optional message to echo.
#[derive(Debug)]
pub struct Ping {
    msg: Option<Vec<u8>>,
}

/// ECHO of a message.
#[derive(Debug)]
pub struct Echo {
    msg: Vec<u8>,
}

/// GET of a key.
#[derive(Debug)]
pub struct Get {
    key: Vec<u8>,
}

/// SET of a string value, with an optional time to live in milliseconds.
#[derive(Debug)]
pub struct SetString {
    key: Vec<u8>,
    value: Vec<u8>,
    expire_ms: Option<u64>,
}

/// DEL of keys.
#[derive(Debug)]
pub struct Del {
    keys: Vec<Vec<u8>>,
}

/// EXPIRE or PEXPIRE: a time to live, in milliseconds, for a key.
#[derive(Debug)]
pub struct Expire {
    key: Vec<u8>,
    duration_ms: u64,
}

/// TTL (seconds) or PTTL (`millis`).
#[derive(Debug)]
pub struct Ttl {
    key: Vec<u8>,
    millis: bool,
}

/// The list commands.
#[derive(Debug)]
pub enum ListCmd {
    Lpush { key: Vec<u8>, elements: Vec<Vec<u8>> },
    Rpush { key: Vec<u8>, elements: Vec<Vec<u8>> },
    Lpop { key: Vec<u8> },
    Rpop { key: Vec<u8> },
    Lrange { key: Vec<u8>, start: i64, stop: i64 },
}

/// The hash commands.
#[derive(Debug)]
#[allow(inconsistent_fields)]
pub enum HashCmd {
    Hset { key: Vec<u8>, fields: Vec<(Vec<u8>, Vec<u8>)> },
    Hget { key: Vec<u8>, field: Vec<u8> },
    Hdel { key: Vec<u8>, fields: Vec<Vec<u8>> },
    Hgetall { key: Vec<u8> },
}

/// The set commands.
#[derive(Debug)]
pub enum SetCmd {
    Sadd { key: Vec<u8>, members: Vec<Vec<u8>> },
    Smembers { key: Vec<u8> },
    Srem { key: Vec<u8>, members: Vec<Vec<u8>> },
    Sismember { key: Vec<u8>, member: Vec<u8> },
}

/// KEYS with a glob pattern.
#[derive(Debug)]
pub struct Keys {
    pattern: Vec<u8>,
}

/// SCAN from a cursor, with optional MATCH, COUNT and TYPE.
#[derive(Debug)]
pub struct Scan {
    cursor: u64,
    pattern: Option<Vec<u8>>,
    count: usize,
    type_filter: Option<String>,
}

/// PUBLISH and SUBSCRIBE.
#[derive(Debug)]
pub enum PubSubCmd {
    Publish { channel: String, message: Vec<u8> },
    Subscribe { channels: Vec<String> },
}

/// A decoded request.
#[derive(Debug)]
pub enum Command {
    Ping(Ping),
    Echo(Echo),
    Get(Get),
    SetString(SetString),
    Del(Del),
    Expire(Expire),
    Ttl(Ttl),
    List(ListCmd),
    Hash(HashCmd),
    SetCmd(SetCmd),
    Keys(Keys),
    Scan(Scan),
    PubSub(PubSubCmd),
    /// The client handshake (COMMAND).
    Command,
}

/// The value of a command.
#[allow(inconsistent_fields)]
pub enum CommandModel {
    Ping(Option<Seq<u8>>),
    Echo(Seq<u8>),
    Get(Seq<u8>),
    SetString { key: Seq<u8>, value: Seq<u8>, expire_ms: Option<u64> },
    Del(Seq<Seq<u8>>),
    Expire { key: Seq<u8>, duration_ms: u64 },
    Ttl { key: Seq<u8>, millis: bool },
    Lpush { key: Seq<u8>, elements: Seq<Seq<u8>> },
    Rpush { key: Seq<u8>, elements: Seq<Seq<u8>> },
    Lpop(Seq<u8>),
    Rpop(Seq<u8>),
    Lrange { key: Seq<u8>, start: i64, stop: i64 },
    Hset { key: Seq<u8>, fields: Seq<(Seq<u8>, Seq<u8>)> },
    Hget { key: Seq<u8>, field: Seq<u8> },
    Hdel { key: Seq<u8>, fields: Seq<Seq<u8>> },
    Hgetall(Seq<u8>),
    Sadd { key: Seq<u8>, members: Seq<Seq<u8>> },
    Smembers(Seq<u8>),
    Srem { key: Seq<u8>, members: Seq<Seq<u8>> },
    Sismember { key: Seq<u8>, member: Seq<u8> },
    Keys(Seq<u8>),
    Scan { cursor: u64, pattern: Option<Seq<u8>>, count: usize, type_filter: Option<Seq<char>> },
    Publish { channel: Seq<char>, message: Seq<u8> },
    Subscribe(Seq<Seq<char>>),
    Handshake,
}

pub open spec fn opt_bytes(o: Option<Vec<u8>>) -> Option<Seq<u8>> {
    match o {
        Some(v) => Some(v@),
        None => None,
    }
}

pub open spec fn opt_text(o: Option<String>) -> Option<Seq<char>> {
    match o {
        Some(v) => Some(v@),
        None => None,
    }
}

pub open spec fn texts(v: Seq<String>) -> Seq<Seq<char>> {
    Seq::new(v.len(), |i: int| v[i]@)
}

impl Ping {
    pub closed spec fn model(&self) -> CommandModel {
        CommandModel::Ping(opt_bytes(self.msg))
    }
}

impl Echo {
    pub closed spec fn model(&self) -> CommandModel {
        CommandModel::Echo(self.msg@)
    }
}

impl Get {
    pub closed spec fn model(&self) -> CommandModel {
        CommandModel::Get(self.key@)
    }
}

impl SetString {
    pub closed spec fn model(&self) -> CommandModel {
        CommandModel::SetString { key: self.key@, value: self.value@, expire_ms: self.expire_ms }
    }
}

impl Del {
    pub closed spec fn model(&self) -> CommandModel {
        CommandModel::Del(crate::db::byte_seqs(self.keys@))
    }
}

impl Expire {
    pub closed spec fn model(&self) -> CommandModel {
        CommandModel::Expire { key: self.key@, duration_ms: self.duration_ms }
    }
}

impl Ttl {
    pub closed spec fn model(&self) -> CommandModel {
        CommandModel::Ttl { key: self.key@, millis: self.millis }
    }
}

impl ListCmd {
    pub open spec fn model(&self) -> CommandModel {
        match self {
            ListCmd::Lpush { key, elements } => CommandModel::Lpush {
                key: key@,
                elements: crate::db::byte_seqs(elements@),
            },
            ListCmd::Rpush { key, elements } => CommandModel::Rpush {
                key: key@,
                elements: crate::db::byte_seqs(elements@),
            },
            ListCmd::Lpop { key } => CommandModel::Lpop(key@),
            ListCmd::Rpop { key } => CommandModel::Rpop(key@),
            ListCmd::Lrange { key, start, stop } => CommandModel::Lrange {
                key: key@,
                start: *start,
                stop: *stop,
            },
        }
    }
}

impl HashCmd {
    pub open spec fn model(&self) -> CommandModel {
        match self {
            HashCmd::Hset { key, fields } => CommandModel::Hset {
                key: key@,
                fields: crate::db::pair_seqs(fields@),
            },
            HashCmd::Hget { key, field } => CommandModel::Hget { key: key@, field: field@ },
            HashCmd::Hdel { key, fields } => CommandModel::Hdel {
                key: key@,
                fields: crate::db::byte_seqs(fields@),
            },
            HashCmd::Hgetall { key } => CommandModel::Hgetall(key@),
        }
    }
}

impl SetCmd {
    pub open spec fn model(&self) -> CommandModel {
        match self {
            SetCmd::Sadd { key, members } => CommandModel::Sadd {
                key: key@,
                members: crate::db::byte_seqs(members@),
            },
            SetCmd::Smembers { key } => CommandModel::Smembers(key@),
            SetCmd::Srem { key, members } => CommandModel::Srem {
                key: key@,
                members: crate::db::byte_seqs(members@),
            },
            SetCmd::Sismember { key, member } => CommandModel::Sismember {
                key: key@,
                member: member@,
            },
        }
    }
}

impl Keys {
    pub closed spec fn model(&self) -> CommandModel {
        CommandModel::Keys(self.pattern@)
    }
}

impl Scan {
    pub closed spec fn model(&self) -> CommandModel {
        CommandModel::Scan {
            cursor: self.cursor,
            pattern: opt_bytes(self.pattern),
            count: self.count,
            type_filter: opt_text(self.type_filter),
        }
    }
}

impl PubSubCmd {
    pub open spec fn model(&self) -> CommandModel {
        match self {
            PubSubCmd::Publish { channel, message } => CommandModel::Publish {
                channel: channel@,
                message: message@,
            },
            PubSubCmd::Subscribe { channels } => CommandModel::Subscribe(texts(channels@)),
        }
    }
}

impl Command {
    pub open spec fn model(&self) -> CommandModel {
        match self {
            Command::Ping(c) => c.model(),
            Command::Echo(c) => c.model(),
            Command::Get(c) => c.model(),
            Command::SetString(c) => c.model(),
            Command::Del(c) => c.model(),
            Command::Expire(c) => c.model(),
            Command::Ttl(c) => c.model(),
            Command::List(c) => c.model(),
            Command::Hash(c) => c.model(),
            Command::SetCmd(c) => c.model(),
            Command::Keys(c) => c.model(),
            Command::Scan(c) => c.model(),
            Command::PubSub(c) => c.model(),
            Command::Command => CommandModel::Handshake,
        }
    }
}

// ---------------------------------------------------------------------------
// Arguments
// ---------------------------------------------------------------------------
/// The bytes of a bulk or simple-string argument.
pub open spec fn arg_bytes(f: FrameModel) -> Option<Seq<u8>> {
    match f {
        FrameModel::Bulk(b) => Some(b),
        FrameModel::Simple(s) => Some(encode_utf8(s)),
        _ => None,
    }
}

/// The bytes of every argument, where each is a bulk or simple string.
pub open spec fn all_arg_bytes(args: Seq<FrameModel>) -> Option<Seq<Seq<u8>>>
    decreases args.len(),
{
    if args.len() == 0 {
        Some(Seq::empty())
    } else {
        match (all_arg_bytes(args.drop_last()), arg_bytes(args.last())) {
            (Some(v), Some(b)) => Some(v.push(b)),
            _ => None,
        }
    }
}

/// The text of an argument that should hold a number: a bulk string of valid UTF-8,
/// a simple string or an integer (as `to_string` prints it). `Err(true)` for a bulk
/// string that is not UTF-8, `Err(false)` for another kind of frame.
pub open spec fn num_arg(f: FrameModel) -> Result<Seq<u8>, bool> {
    match f {
        FrameModel::Bulk(b) => if valid_utf8(b) {
            Ok(b)
        } else {
            Err(true)
        },
        FrameModel::Simple(s) => Ok(encode_utf8(s)),
        FrameModel::Integer(i) => Ok(decimal_text(i)),
        _ => Err(false),
    }
}

/// The text of a bulk string of valid UTF-8 or of a simple string. `Err(true)` for a
/// bulk string that is not UTF-8, `Err(false)` for another kind of frame.
pub open spec fn text_arg(f: FrameModel) -> Result<Seq<char>, bool> {
    match f {
        FrameModel::Bulk(b) => if valid_utf8(b) {
            Ok(decode_utf8(b))
        } else {
            Err(true)
        },
        FrameModel::Simple(s) => Ok(s),
        _ => Err(false),
    }
}

pub open spec fn msg_syntax() -> Seq<char> {
    "ERR syntax error"@
}

pub open spec fn msg_not_integer() -> Seq<char> {
    "ERR value is not an integer or out of range"@
}

// ---------------------------------------------------------------------------
// What each command makes of its arguments
// ---------------------------------------------------------------------------
/// A key and nothing after it.
pub open spec fn one_key(args: Seq<FrameModel>, wrong: Seq<char>) -> Result<Seq<u8>, Seq<char>> {
    if args.len() >= 1 && arg_bytes(args[0]) is Some {
        if args.len() > 1 {
            Err(wrong)
        } else {
            Ok(arg_bytes(args[0]).unwrap())
        }
    } else {
        Err(wrong)
    }
}

/// A key, one more byte string, and nothing after them.
pub open spec fn two_keys(args: Seq<FrameModel>, wrong: Seq<char>) -> Result<(Seq<u8>, Seq<u8>), Seq<char>> {
    if args.len() >= 2 && arg_bytes(args[0]) is Some && arg_bytes(args[1]) is Some {
        if args.len() > 2 {
            Err(wrong)
        } else {
            Ok((arg_bytes(args[0]).unwrap(), arg_bytes(args[1]).unwrap()))
        }
    } else {
        Err(wrong)
    }
}

/// A key and at least one more byte string (any other frame after the key is a
/// syntax error).
pub open spec fn key_and_items(args: Seq<FrameModel>, wrong: Seq<char>) -> Result<
    (Seq<u8>, Seq<Seq<u8>>),
    Seq<char>,
> {
    if args.len() >= 1 && arg_bytes(args[0]) is Some {
        match all_arg_bytes(args.skip(1)) {
            Some(items) => if items.len() == 0 {
                Err(wrong)
            } else {
                Ok((arg_bytes(args[0]).unwrap(), items))
            },
            None => Err(msg_syntax()),
        }
    } else {
        Err(wrong)
    }
}

pub open spec fn parse_ping(args: Seq<FrameModel>) -> Result<CommandModel, Seq<char>> {
    if args.len() == 0 {
        Ok(CommandModel::Ping(None))
    } else {
        match arg_bytes(args[0]) {
            Some(b) => if args.len() > 1 {
                Err("ERR wrong number of arguments for 'ping' command"@)
            } else {
                Ok(CommandModel::Ping(Some(b)))
            },
            None => Err("ERR invalid argument for 'ping' command"@),
        }
    }
}

pub open spec fn parse_echo(args: Seq<FrameModel>) -> Result<CommandModel, Seq<char>> {
    if args.len() == 0 {
        Err("ERR wrong number of arguments for 'echo' command"@)
    } else {
        match arg_bytes(args[0]) {
            Some(b) => if args.len() > 1 {
                Err("ERR wrong number of arguments for 'echo' command"@)
            } else {
                Ok(CommandModel::Echo(b))
            },
            None => Err("ERR invalid argument for 'echo' command"@),
        }
    }
}

pub open spec fn parse_get(args: Seq<FrameModel>) -> Result<CommandModel, Seq<char>> {
    match one_key(args, "ERR wrong number of arguments for 'get' command"@) {
        Ok(k) => Ok(CommandModel::Get(k)),
        Err(e) => Err(e),
    }
}

/// `secs` seconds in milliseconds, saturating.
pub open spec fn secs_to_ms(secs: u64) -> u64 {
    if secs * 1000 > u64::MAX {
        u64::MAX
    } else {
        (secs * 1000) as u64
    }
}

/// SET's options from index `i` on, with the time to live so far: the last EX or PX
/// decides.
pub open spec fn set_options(args: Seq<FrameModel>, i: int, ttl: Option<u64>) -> Result<
    Option<u64>,
    Seq<char>,
>
    decreases args.len() - i,
{
    if i < 0 || i >= args.len() {
        Ok(ttl)
    } else {
        match text_arg(args[i]) {
            Err(_) => Err(msg_syntax()),
            Ok(opt) => {
                let up = uppercase(opt);
                if up == "EX"@ || up == "PX"@ {
                    if i + 1 >= args.len() {
                        Err(msg_syntax())
                    } else {
                        match num_arg(args[i + 1]) {
                            Ok(t) => match parse_u64_text(t) {
                                Some(n) => set_options(
                                    args,
                                    i + 2,
                                    Some(
                                        if up == "EX"@ {
                                            secs_to_ms(n)
                                        } else {
                                            n
                                        },
                                    ),
                                ),
                                None => Err(msg_not_integer()),
                            },
                            Err(true) => Err(msg_not_integer()),
                            Err(false) => Err(msg_syntax()),
                        }
                    }
                } else {
                    Err(msg_syntax())
                }
            },
        }
    }
}

pub open spec fn parse_set(args: Seq<FrameModel>) -> Result<CommandModel, Seq<char>> {
    if args.len() >= 2 && arg_bytes(args[0]) is Some && arg_bytes(args[1]) is Some {
        match set_options(args, 2, None) {
            Ok(ttl) => Ok(
                CommandModel::SetString {
                    key: arg_bytes(args[0]).unwrap(),
                    value: arg_bytes(args[1]).unwrap(),
                    expire_ms: ttl,
                },
            ),
            Err(e) => Err(e),
        }
    } else {
        Err("ERR wrong number of arguments for 'set' command"@)
    }
}

pub open spec fn parse_del(args: Seq<FrameModel>) -> Result<CommandModel, Seq<char>> {
    match all_arg_bytes(args) {
        None => Err("ERR invalid argument for 'del' command"@),
        Some(keys) => if keys.len() == 0 {
            Err("ERR wrong number of arguments for 'del' command"@)
        } else {
            Ok(CommandModel::Del(keys))
        },
    }
}

/// EXPIRE (seconds) or PEXPIRE (`millis`).
pub open spec fn parse_expire(args: Seq<FrameModel>, millis: bool) -> Result<CommandModel, Seq<char>> {
    let wrong = if millis {
        "ERR wrong number of arguments for 'pexpire' command"@
    } else {
        "ERR wrong number of arguments for 'expire' command"@
    };
    if args.len() >= 2 && arg_bytes(args[0]) is Some {
        match num_arg(args[1]) {
            Ok(t) => match parse_u64_text(t) {
                Some(n) => if args.len() > 2 {
                    Err(msg_syntax())
                } else {
                    Ok(
                        CommandModel::Expire {
                            key: arg_bytes(args[0]).unwrap(),
                            duration_ms: if millis {
                                n
                            } else {
                                secs_to_ms(n)
                            },
                        },
                    )
                },
                None => Err(msg_not_integer()),
            },
            Err(_) => Err(msg_not_integer()),
        }
    } else {
        Err(wrong)
    }
}

pub open spec fn parse_ttl(args: Seq<FrameModel>, millis: bool) -> Result<CommandModel, Seq<char>> {
    match one_key(args, "ERR wrong number of arguments for command"@) {
        Ok(k) => Ok(CommandModel::Ttl { key: k, millis }),
        Err(e) => Err(e),
    }
}

/// LPUSH (`front`) or RPUSH.
pub open spec fn parse_push(args: Seq<FrameModel>, front: bool) -> Result<CommandModel, Seq<char>> {
    let wrong = if front {
        "ERR wrong number of arguments for 'lpush' command"@
    } else {
        "ERR wrong number of arguments for 'rpush' command"@
    };
    match key_and_items(args, wrong) {
        Ok((k, items)) => if front {
            Ok(CommandModel::Lpush { key: k, elements: items })
        } else {
            Ok(CommandModel::Rpush { key: k, elements: items })
        },
        Err(e) => Err(e),
    }
}

/// LPOP (`front`) or RPOP.
pub open spec fn parse_pop(args: Seq<FrameModel>, front: bool) -> Result<CommandModel, Seq<char>> {
    let wrong = if front {
        "ERR wrong number of arguments for 'lpop' command"@
    } else {
        "ERR wrong number of arguments for 'rpop' command"@
    };
    match one_key(args, wrong) {
        Ok(k) => if front {
            Ok(CommandModel::Lpop(k))
        } else {
            Ok(CommandModel::Rpop(k))
        },
        Err(e) => Err(e),
    }
}

/// An index argument of LRANGE.
pub open spec fn index_arg(args: Seq<FrameModel>, i: int) -> Result<i64, Seq<char>> {
    if i >= args.len() {
        Err("ERR wrong number of arguments for 'lrange' command"@)
    } else {
        match num_arg(args[i]) {
            Ok(t) => match parse_i64_text(t) {
                Some(v) => Ok(v),
                None => Err(msg_not_integer()),
            },
            Err(true) => Err("ERR value is not an integer"@),
            Err(false) => Err("ERR wrong number of arguments for 'lrange' command"@),
        }
    }
}

pub open spec fn parse_lrange(args: Seq<FrameModel>) -> Result<CommandModel, Seq<char>> {
    if args.len() >= 1 && arg_bytes(args[0]) is Some {
        match index_arg(args, 1) {
            Err(e) => Err(e),
            Ok(start) => match index_arg(args, 2) {
                Err(e) => Err(e),
                Ok(stop) => if args.len() > 3 {
                    Err("ERR wrong number of arguments for 'lrange' command"@)
                } else {
                    Ok(CommandModel::Lrange { key: arg_bytes(args[0]).unwrap(), start, stop })
                },
            },
        }
    } else {
        Err("ERR wrong number of arguments for 'lrange' command"@)
    }
}

/// HSET's field-value pairs from index `i` on.
pub open spec fn hset_pairs(args: Seq<FrameModel>, i: int) -> Result<Seq<(Seq<u8>, Seq<u8>)>, Seq<char>>
    decreases args.len() - i,
{
    if i < 0 || i >= args.len() {
        Ok(Seq::empty())
    } else {
        match arg_bytes(args[i]) {
            None => Err(msg_syntax()),
            Some(f) => if i + 1 >= args.len() {
                Err("ERR wrong number of arguments for 'hset' command"@)
            } else {
                match arg_bytes(args[i + 1]) {
                    None => Err(msg_syntax()),
                    Some(v) => match hset_pairs(args, i + 2) {
                        Ok(rest) => Ok(seq![(f, v)] + rest),
                        Err(e) => Err(e),
                    },
                }
            },
        }
    }
}

pub open spec fn parse_hset(args: Seq<FrameModel>) -> Result<CommandModel, Seq<char>> {
    if args.len() >= 1 && arg_bytes(args[0]) is Some {
        match hset_pairs(args, 1) {
            Ok(fields) => if fields.len() == 0 {
                Err("ERR wrong number of arguments for 'hset' command"@)
            } else {
                Ok(CommandModel::Hset { key: arg_bytes(args[0]).unwrap(), fields })
            },
            Err(e) => Err(e),
        }
    } else {
        Err("ERR wrong number of arguments for 'hset' command"@)
    }
}

pub open spec fn parse_hget(args: Seq<FrameModel>) -> Result<CommandModel, Seq<char>> {
    match two_keys(args, "ERR wrong number of arguments for 'hget' command"@) {
        Ok((k, f)) => Ok(CommandModel::Hget { key: k, field: f }),
        Err(e) => Err(e),
    }
}

pub open spec fn parse_hdel(args: Seq<FrameModel>) -> Result<CommandModel, Seq<char>> {
    match key_and_items(args, "ERR wrong number of arguments for 'hdel' command"@) {
        Ok((k, items)) => Ok(CommandModel::Hdel { key: k, fields: items }),
        Err(e) => Err(e),
    }
}

pub open spec fn parse_hgetall(args: Seq<FrameModel>) -> Result<CommandModel, Seq<char>> {
    match one_key(args, "ERR wrong number of arguments for 'hgetall' command"@) {
        Ok(k) => Ok(CommandModel::Hgetall(k)),
        Err(e) => Err(e),
    }
}

pub open spec fn parse_sadd(args: Seq<FrameModel>) -> Result<CommandModel, Seq<char>> {
    match key_and_items(args, "ERR wrong number of arguments for 'sadd' command"@) {
        Ok((k, items)) => Ok(CommandModel::Sadd { key: k, members: items }),
        Err(e) => Err(e),
    }
}

pub open spec fn parse_smembers(args: Seq<FrameModel>) -> Result<CommandModel, Seq<char>> {
    match one_key(args, "ERR wrong number of arguments for 'smembers' command"@) {
        Ok(k) => Ok(CommandModel::Smembers(k)),
        Err(e) => Err(e),
    }
}

pub open spec fn parse_srem(args: Seq<FrameModel>) -> Result<CommandModel, Seq<char>> {
    match key_and_items(args, "ERR wrong number of arguments for 'srem' command"@) {
        Ok((k, items)) => Ok(CommandModel::Srem { key: k, members: items }),
        Err(e) => Err(e),
    }
}

pub open spec fn parse_sismember(args: Seq<FrameModel>) -> Result<CommandModel, Seq<char>> {
    match two_keys(args, "ERR wrong number of arguments for 'sismember' command"@) {
        Ok((k, m)) => Ok(CommandModel::Sismember { key: k, member: m }),
        Err(e) => Err(e),
    }
}

pub open spec fn parse_keys(args: Seq<FrameModel>) -> Result<CommandModel, Seq<char>> {
    if args.len() != 1 {
        Err("ERR wrong number of arguments for 'keys' command"@)
    } else {
        match arg_bytes(args[0]) {
            Some(p) => Ok(CommandModel::Keys(p)),
            None => Err("ERR invalid argument for 'keys' command"@),
        }
    }
}

/// SCAN's cursor argument.
pub open spec fn cursor_arg(f: FrameModel) -> Option<u64> {
    match f {
        FrameModel::Integer(i) => if i < 0 {
            None
        } else {
            parse_u64_text(decimal_text(i))
        },
        _ => match num_arg(f) {
            Ok(t) => parse_u64_text(t),
            Err(_) => None,
        },
    }
}

/// SCAN's COUNT argument.
pub open spec fn count_arg(f: FrameModel) -> Option<usize> {
    match f {
        FrameModel::Integer(i) => if i <= 0 {
            None
        } else {
            Some(i as usize)
        },
        FrameModel::Bulk(b) => if valid_utf8(b) {
            parse_usize_text(b)
        } else {
            None
        },
        FrameModel::Simple(s) => parse_usize_text(encode_utf8(s)),
        _ => None,
    }
}

/// SCAN's options from index `i` on, with the pattern, count and type so far.
pub open spec fn scan_options(
    args: Seq<FrameModel>,
    i: int,
    pattern: Option<Seq<u8>>,
    count: usize,
    type_filter: Option<Seq<char>>,
) -> Result<(Option<Seq<u8>>, usize, Option<Seq<char>>), Seq<char>>
    decreases args.len() - i,
{
    if i < 0 || i >= args.len() {
        Ok((pattern, count, type_filter))
    } else {
        match text_arg(args[i]) {
            Err(_) => Err(msg_syntax()),
            Ok(opt) => {
                let up = uppercase(opt);
                if i + 1 >= args.len() && (up == "MATCH"@ || up == "COUNT"@ || up == "TYPE"@) {
                    Err(msg_syntax())
                } else if up == "MATCH"@ {
                    match arg_bytes(args[i + 1]) {
                        Some(p) => scan_options(args, i + 2, Some(p), count, type_filter),
                        None => Err(msg_syntax()),
                    }
                } else if up == "COUNT"@ {
                    match count_arg(args[i + 1]) {
                        Some(c) => scan_options(args, i + 2, pattern, c, type_filter),
                        None => Err(msg_not_integer()),
                    }
                } else if up == "TYPE"@ {
                    match text_arg(args[i + 1]) {
                        Ok(t) => scan_options(args, i + 2, pattern, count, Some(t)),
                        Err(_) => Err(msg_syntax()),
                    }
                } else {
                    Err(msg_syntax())
                }
            },
        }
    }
}

pub open spec fn parse_scan(args: Seq<FrameModel>) -> Result<CommandModel, Seq<char>> {
    if args.len() == 0 {
        Err("ERR wrong number of arguments for 'scan' command"@)
    } else {
        match cursor_arg(args[0]) {
            None => Err("ERR invalid cursor"@),
            Some(cursor) => match scan_options(args, 1, None, 10, None) {
                Ok((pattern, count, type_filter)) => Ok(
                    CommandModel::Scan { cursor, pattern, count, type_filter },
                ),
                Err(e) => Err(e),
            },
        }
    }
}

pub open spec fn parse_publish(args: Seq<FrameModel>) -> Result<CommandModel, Seq<char>> {
    let wrong = "ERR wrong number of arguments for 'publish' command"@;
    if args.len() == 0 {
        Err(wrong)
    } else {
        match text_arg(args[0]) {
            Err(true) => Err("ERR invalid channel name"@),
            Err(false) => Err(wrong),
            Ok(channel) => if args.len() < 2 || arg_bytes(args[1]) is None || args.len() > 2 {
                Err(wrong)
            } else {
                Ok(CommandModel::Publish { channel, message: arg_bytes(args[1]).unwrap() })
            },
        }
    }
}

/// SUBSCRIBE's channel names from index `i` on.
pub open spec fn channel_names(args: Seq<FrameModel>, i: int) -> Result<Seq<Seq<char>>, Seq<char>>
    decreases args.len() - i,
{
    if i < 0 || i >= args.len() {
        Ok(Seq::empty())
    } else {
        match text_arg(args[i]) {
            Err(true) => Err("ERR invalid channel name"@),
            Err(false) => Err(msg_syntax()),
            Ok(c) => match channel_names(args, i + 1) {
                Ok(rest) => Ok(seq![c] + rest),
                Err(e) => Err(e),
            },
        }
    }
}

pub open spec fn parse_subscribe(args: Seq<FrameModel>) -> Result<CommandModel, Seq<char>> {
    match channel_names(args, 0) {
        Ok(chs) => if chs.len() == 0 {
            Err("ERR wrong number of arguments for 'subscribe' command"@)
        } else {
            Ok(CommandModel::Subscribe(chs))
        },
        Err(e) => Err(e),
    }
}

/// The command named `up` (upper-cased) with its arguments.
pub open spec fn dispatch(up: Seq<char>, args: Seq<FrameModel>) -> Result<CommandModel, Seq<char>> {
    if up == "PING"@ {
        parse_ping(args)
    } else if up == "ECHO"@ {
        parse_echo(args)
    } else if up == "GET"@ {
        parse_get(args)
    } else if up == "SET"@ {
        parse_set(args)
    } else if up == "DEL"@ {
        parse_del(args)
    } else if up == "EXPIRE"@ {
        parse_expire(args, false)
    } else if up == "PEXPIRE"@ {
        parse_expire(args, true)
    } else if up == "TTL"@ {
        parse_ttl(args, false)
    } else if up == "PTTL"@ {
        parse_ttl(args, true)
    } else if up == "COMMAND"@ {
        Ok(CommandModel::Handshake)
    } else if up == "LPUSH"@ {
        parse_push(args, true)
    } else if up == "RPUSH"@ {
        parse_push(args, false)
    } else if up == "LPOP"@ {
        parse_pop(args, true)
    } else if up == "RPOP"@ {
        parse_pop(args, false)
    } else if up == "LRANGE"@ {
        parse_lrange(args)
    } else if up == "HSET"@ {
        parse_hset(args)
    } else if up == "HGET"@ {
        parse_hget(args)
    } else if up == "HDEL"@ {
        parse_hdel(args)
    } else if up == "HGETALL"@ {
        parse_hgetall(args)
    } else if up == "SADD"@ {
        parse_sadd(args)
    } else if up == "SMEMBERS"@ {
        parse_smembers(args)
    } else if up == "SREM"@ {
        parse_srem(args)
    } else if up == "SISMEMBER"@ {
        parse_sismember(args)
    } else if up == "KEYS"@ {
        parse_keys(args)
    } else if up == "SCAN"@ {
        parse_scan(args)
    } else if up == "PUBLISH"@ {
        parse_publish(args)
    } else if up == "SUBSCRIBE"@ {
        parse_subscribe(args)
    } else {
        Err("ERR unknown command '"@ + up + "'"@)
    }
}

/// The command that a request frame holds, or the error reply for it.
pub open spec fn parse_command(f: FrameModel) -> Result<CommandModel, Seq<char>> {
    match f {
        FrameModel::Array(items) => if items.len() == 0 {
            Err("protocol error; empty command array"@)
        } else {
            match text_arg(items[0]) {
                Err(true) => Err("protocol error; invalid command name"@),
                Err(false) => Err("protocol error; command name must be a string"@),
                Ok(name) => dispatch(uppercase(name), items.skip(1)),
            }
        },
        _ => Err("protocol error; expected array, got "@ + debug_repr(f)),
    }
}


/// The model of a parse result.
pub open spec fn result_model<T>(r: Result<T, String>, m: spec_fn(T) -> CommandModel) -> Result<
    CommandModel,
    Seq<char>,
> {
    match r {
        Ok(c) => Ok(m(c)),
        Err(e) => Err(e@),
    }
}

// ---------------------------------------------------------------------------
// Reading arguments
// ---------------------------------------------------------------------------
/// The two texts are the same.
fn same_text(a: &str, b: &str) -> (r: bool)
    ensures
        r == (a@ == b@),
{
    let r = crate::db::bytes_eq(a.as_bytes(), b.as_bytes());
    proof {
        if encode_utf8(a@) == encode_utf8(b@) {
            assert(decode_utf8(encode_utf8(a@)) == decode_utf8(encode_utf8(b@)));
        }
    }
    r
}

fn arg_to_bytes(f: &Frame) -> (r: Option<Vec<u8>>)
    ensures
        opt_bytes(r) == arg_bytes(f.model()),
{
    match f {
        Frame::Bulk(b) => Some(copy_bytes(b.as_slice())),
        Frame::Simple(s) => Some(copy_bytes(s.as_str().as_bytes())),
        _ => None,
    }
}

fn num_arg_text(f: &Frame) -> (r: Result<Vec<u8>, bool>)
    ensures
        match r {
            Ok(v) => num_arg(f.model()) == Ok::<Seq<u8>, bool>(v@),
            Err(b) => num_arg(f.model()) == Err::<Seq<u8>, bool>(b),
        },
{
    match f {
        Frame::Bulk(b) => match utf8_str(b.as_slice()) {
            Some(_) => Ok(copy_bytes(b.as_slice())),
            None => Err(true),
        },
        Frame::Simple(s) => Ok(copy_bytes(s.as_str().as_bytes())),
        Frame::Integer(i) => {
            let mut v: Vec<u8> = Vec::new();
            push_decimal_i64(&mut v, *i);
            assert(v@ =~= decimal_text(*i as int));
            Ok(v)
        },
        _ => Err(false),
    }
}

fn text_arg_of(f: &Frame) -> (r: Result<String, bool>)
    ensures
        match r {
            Ok(s) => text_arg(f.model()) == Ok::<Seq<char>, bool>(s@),
            Err(b) => text_arg(f.model()) == Err::<Seq<char>, bool>(b),
        },
{
    match f {
        Frame::Bulk(b) => match utf8_str(b.as_slice()) {
            Some(st) => Ok(text(st)),
            None => Err(true),
        },
        Frame::Simple(s) => Ok(text(s.as_str())),
        _ => Err(false),
    }
}

/// A number parsed from the whole of `t`.
fn parse_u64_all(t: &Vec<u8>) -> (r: Option<u64>)
    ensures
        r == parse_u64_text(t@),
{
    assert(t@.subrange(0, t@.len() as int) =~= t@);
    parse_u64_bytes(t.as_slice(), 0, t.len())
}

fn parse_i64_all(t: &Vec<u8>) -> (r: Option<i64>)
    ensures
        r == parse_i64_text(t@),
{
    assert(t@.subrange(0, t@.len() as int) =~= t@);
    parse_i64_bytes(t.as_slice(), 0, t.len())
}

fn secs_in_ms(secs: u64) -> (r: u64)
    ensures
        r == secs_to_ms(secs),
{
    if secs > 18446744073709551u64 {
        u64::MAX
    } else {
        secs * 1000
    }
}

pub proof fn lemma_all_arg_bytes_prefix(s: Seq<FrameModel>, k: int)
    requires
        0 <= k <= s.len(),
        all_arg_bytes(s.take(k)) is None,
    ensures
        all_arg_bytes(s) is None,
    decreases s.len() - k,
{
    if k < s.len() {
        assert(s.take(k + 1).drop_last() =~= s.take(k));
        lemma_all_arg_bytes_prefix(s, k + 1);
    } else {
        assert(s.take(k) =~= s);
    }
}

fn all_args_bytes(args: &[Frame]) -> (r: Option<Vec<Vec<u8>>>)
    ensures
        match r {
            Some(v) => all_arg_bytes(models(args@)) == Some(crate::db::byte_seqs(v@)),
            None => all_arg_bytes(models(args@)) is None,
        },
{
    let ghost ms = models(args@);
    let mut out: Vec<Vec<u8>> = Vec::new();
    let mut i: usize = 0;
    assert(ms.take(0) =~= Seq::<FrameModel>::empty());
    assert(crate::db::byte_seqs(out@) =~= Seq::<Seq<u8>>::empty());
    while i < args.len()
        invariant
            i <= args@.len(),
            ms == models(args@),
            all_arg_bytes(ms.take(i as int)) == Some(crate::db::byte_seqs(out@)),
        decreases args@.len() - i,
    {
        assert(ms.take(i + 1).drop_last() =~= ms.take(i as int));
        assert(ms.take(i + 1).last() == args@[i as int].model());
        match arg_to_bytes(&args[i]) {
            Some(b) => {
                let ghost before = crate::db::byte_seqs(out@);
                let ghost bv = b@;
                out.push(b);
                assert(crate::db::byte_seqs(out@) =~= before.push(bv));
            },
            None => {
                proof {
                    lemma_all_arg_bytes_prefix(ms, i + 1);
                }
                return None;
            },
        }
        i = i + 1;
    }
    assert(ms.take(i as int) =~= ms);
    Some(out)
}

fn one_key_arg(args: &[Frame], wrong: &str) -> (r: Result<Vec<u8>, String>)
    ensures
        match r {
            Ok(k) => one_key(models(args@), wrong@) == Ok::<Seq<u8>, Seq<char>>(k@),
            Err(e) => one_key(models(args@), wrong@) == Err::<Seq<u8>, Seq<char>>(e@),
        },
{
    let key = if args.len() >= 1 {
        arg_to_bytes(&args[0])
    } else {
        None
    };
    match key {
        Some(k) => if args.len() > 1 {
            Err(text(wrong))
        } else {
            Ok(k)
        },
        None => Err(text(wrong)),
    }
}

fn two_keys_arg(args: &[Frame], wrong: &str) -> (r: Result<(Vec<u8>, Vec<u8>), String>)
    ensures
        match r {
            Ok(k) => two_keys(models(args@), wrong@) == Ok::<(Seq<u8>, Seq<u8>), Seq<char>>(
                (k.0@, k.1@),
            ),
            Err(e) => two_keys(models(args@), wrong@) == Err::<(Seq<u8>, Seq<u8>), Seq<char>>(e@),
        },
{
    if args.len() < 2 {
        return Err(text(wrong));
    }
    match (arg_to_bytes(&args[0]), arg_to_bytes(&args[1])) {
        (Some(a), Some(b)) => if args.len() > 2 {
            Err(text(wrong))
        } else {
            Ok((a, b))
        },
        _ => Err(text(wrong)),
    }
}

fn key_and_items_arg(args: &[Frame], wrong: &str) -> (r: Result<(Vec<u8>, Vec<Vec<u8>>), String>)
    ensures
        match r {
            Ok(k) => key_and_items(models(args@), wrong@) == Ok::<
                (Seq<u8>, Seq<Seq<u8>>),
                Seq<char>,
            >((k.0@, crate::db::byte_seqs(k.1@))),
            Err(e) => key_and_items(models(args@), wrong@) == Err::<
                (Seq<u8>, Seq<Seq<u8>>),
                Seq<char>,
            >(e@),
        },
{
    let key = if args.len() >= 1 {
        arg_to_bytes(&args[0])
    } else {
        None
    };
    match key {
        None => Err(text(wrong)),
        Some(k) => {
            let (_, rest) = args.split_at(1);
            assert(models(rest@) =~= models(args@).skip(1));
            match all_args_bytes(rest) {
                Some(items) => if items.len() == 0 {
                    Err(text(wrong))
                } else {
                    Ok((k, items))
                },
                None => Err(text("ERR syntax error")),
            }
        },
    }
}

// ---------------------------------------------------------------------------
// Decoding each command
// ---------------------------------------------------------------------------
impl Ping {
    pub fn new(msg: Option<Vec<u8>>) -> (r: Ping)
        ensures
            r.model() == CommandModel::Ping(opt_bytes(msg)),
    {
        Ping { msg }
    }

    pub fn parse_frames(args: &[Frame]) -> (r: Result<Ping, String>)
        ensures
            result_model(r, |c: Ping| c.model()) == parse_ping(models(args@)),
    {
        if args.len() == 0 {
            return Ok(Ping { msg: None });
        }
        match arg_to_bytes(&args[0]) {
            Some(b) => if args.len() > 1 {
                Err(text("ERR wrong number of arguments for 'ping' command"))
            } else {
                Ok(Ping { msg: Some(b) })
            },
            None => Err(text("ERR invalid argument for 'ping' command")),
        }
    }
}

impl Echo {
    pub fn new(msg: Vec<u8>) -> (r: Echo)
        ensures
            r.model() == CommandModel::Echo(msg@),
    {
        Echo { msg }
    }

    pub fn parse_frames(args: &[Frame]) -> (r: Result<Echo, String>)
        ensures
            result_model(r, |c: Echo| c.model()) == parse_echo(models(args@)),
    {
        if args.len() == 0 {
            return Err(text("ERR wrong number of arguments for 'echo' command"));
        }
        match arg_to_bytes(&args[0]) {
            Some(b) => if args.len() > 1 {
                Err(text("ERR wrong number of arguments for 'echo' command"))
            } else {
                Ok(Echo { msg: b })
            },
            None => Err(text("ERR invalid argument for 'echo' command")),
        }
    }
}

impl Get {
    pub fn new(key: Vec<u8>) -> (r: Get)
        ensures
            r.model() == CommandModel::Get(key@),
    {
        Get { key }
    }

    pub fn parse_frames(args: &[Frame]) -> (r: Result<Get, String>)
        ensures
            result_model(r, |c: Get| c.model()) == parse_get(models(args@)),
    {
        match one_key_arg(args, "ERR wrong number of arguments for 'get' command") {
            Ok(key) => Ok(Get { key }),
            Err(e) => Err(e),
        }
    }
}

impl SetString {
    pub fn new(key: Vec<u8>, value: Vec<u8>, expire_ms: Option<u64>) -> (r: SetString)
        ensures
            r.model() == (CommandModel::SetString { key: key@, value: value@, expire_ms }),
    {
        SetString { key, value, expire_ms }
    }

    pub fn parse_frames(args: &[Frame]) -> (r: Result<SetString, String>)
        ensures
            result_model(r, |c: SetString| c.model()) == parse_set(models(args@)),
    {
        let ghost ms = models(args@);
        if args.len() < 2 {
            return Err(text("ERR wrong number of arguments for 'set' command"));
        }
        let (key, value) = match (arg_to_bytes(&args[0]), arg_to_bytes(&args[1])) {
            (Some(k), Some(v)) => (k, v),
            _ => {
                return Err(text("ERR wrong number of arguments for 'set' command"));
            },
        };
        let mut ttl: Option<u64> = None;
        let mut i: usize = 2;
        while i < args.len()
            invariant
                2 <= i <= args@.len(),
                ms == models(args@),
                arg_bytes(ms[0]) == Some(key@),
                arg_bytes(ms[1]) == Some(value@),
                set_options(ms, 2, None) == set_options(ms, i as int, ttl),
            decreases args@.len() - i,
        {
            let opt = match text_arg_of(&args[i]) {
                Ok(o) => o,
                Err(_) => {
                    return Err(text("ERR syntax error"));
                },
            };
            let up = to_upper(opt.as_str());
            let ex = same_text(up.as_str(), "EX");
            let px = same_text(up.as_str(), "PX");
            if !(ex || px) {
                return Err(text("ERR syntax error"));
            }
            if i + 1 >= args.len() {
                return Err(text("ERR syntax error"));
            }
            match num_arg_text(&args[i + 1]) {
                Ok(t) => match parse_u64_all(&t) {
                    Some(n) => {
                        ttl = Some(
                            if ex {
                                secs_in_ms(n)
                            } else {
                                n
                            },
                        );
                    },
                    None => {
                        return Err(text("ERR value is not an integer or out of range"));
                    },
                },
                Err(true) => {
                    return Err(text("ERR value is not an integer or out of range"));
                },
                Err(false) => {
                    return Err(text("ERR syntax error"));
                },
            }
            i = i + 2;
        }
        Ok(SetString { key, value, expire_ms: ttl })
    }
}

impl Del {
    pub fn new(keys: Vec<Vec<u8>>) -> (r: Del)
        ensures
            r.model() == CommandModel::Del(crate::db::byte_seqs(keys@)),
    {
        Del { keys }
    }

    pub fn parse_frames(args: &[Frame]) -> (r: Result<Del, String>)
        ensures
            result_model(r, |c: Del| c.model()) == parse_del(models(args@)),
    {
        match all_args_bytes(args) {
            None => Err(text("ERR invalid argument for 'del' command")),
            Some(keys) => if keys.len() == 0 {
                Err(text("ERR wrong number of arguments for 'del' command"))
            } else {
                Ok(Del { keys })
            },
        }
    }
}

impl Expire {
    pub fn new(key: Vec<u8>, duration_ms: u64) -> (r: Expire)
        ensures
            r.model() == (CommandModel::Expire { key: key@, duration_ms }),
    {
        Expire { key, duration_ms }
    }

    fn parse_with(args: &[Frame], millis: bool) -> (r: Result<Expire, String>)
        ensures
            result_model(r, |c: Expire| c.model()) == parse_expire(models(args@), millis),
    {
        let wrong = if millis {
            "ERR wrong number of arguments for 'pexpire' command"
        } else {
            "ERR wrong number of arguments for 'expire' command"
        };
        if args.len() < 2 {
            return Err(text(wrong));
        }
        let key = match arg_to_bytes(&args[0]) {
            Some(k) => k,
            None => {
                return Err(text(wrong));
            },
        };
        let n = match num_arg_text(&args[1]) {
            Ok(t) => match parse_u64_all(&t) {
                Some(n) => n,
                None => {
                    return Err(text("ERR value is not an integer or out of range"));
                },
            },
            Err(_) => {
                return Err(text("ERR value is not an integer or out of range"));
            },
        };
        if args.len() > 2 {
            return Err(text("ERR syntax error"));
        }
        let duration_ms = if millis {
            n
        } else {
            secs_in_ms(n)
        };
        Ok(Expire { key, duration_ms })
    }

    /// EXPIRE's arguments: a key and a number of seconds.
    pub fn parse_expire(args: &[Frame]) -> (r: Result<Expire, String>)
        ensures
            result_model(r, |c: Expire| c.model()) == parse_expire(models(args@), false),
    {
        Self::parse_with(args, false)
    }

    /// PEXPIRE's arguments: a key and a number of milliseconds.
    pub fn parse_pexpire(args: &[Frame]) -> (r: Result<Expire, String>)
        ensures
            result_model(r, |c: Expire| c.model()) == parse_expire(models(args@), true),
    {
        Self::parse_with(args, true)
    }
}

impl Ttl {
    pub fn new(key: Vec<u8>, millis: bool) -> (r: Ttl)
        ensures
            r.model() == (CommandModel::Ttl { key: key@, millis }),
    {
        Ttl { key, millis }
    }

    pub fn parse_frames(args: &[Frame], millis: bool) -> (r: Result<Ttl, String>)
        ensures
            result_model(r, |c: Ttl| c.model()) == parse_ttl(models(args@), millis),
    {
        match one_key_arg(args, "ERR wrong number of arguments for command") {
            Ok(key) => Ok(Ttl { key, millis }),
            Err(e) => Err(e),
        }
    }
}


impl ListCmd {
    fn parse_push(args: &[Frame], front: bool) -> (r: Result<ListCmd, String>)
        ensures
            result_model(r, |c: ListCmd| c.model()) == parse_push(models(args@), front),
    {
        let wrong = if front {
            "ERR wrong number of arguments for 'lpush' command"
        } else {
            "ERR wrong number of arguments for 'rpush' command"
        };
        match key_and_items_arg(args, wrong) {
            Ok((key, elements)) => if front {
                Ok(ListCmd::Lpush { key, elements })
            } else {
                Ok(ListCmd::Rpush { key, elements })
            },
            Err(e) => Err(e),
        }
    }

    /// LPUSH's arguments: a key and at least one element.
    pub fn parse_lpush(args: &[Frame]) -> (r: Result<ListCmd, String>)
        ensures
            result_model(r, |c: ListCmd| c.model()) == parse_push(models(args@), true),
    {
        Self::parse_push(args, true)
    }

    /// RPUSH's arguments: a key and at least one element.
    pub fn parse_rpush(args: &[Frame]) -> (r: Result<ListCmd, String>)
        ensures
            result_model(r, |c: ListCmd| c.model()) == parse_push(models(args@), false),
    {
        Self::parse_push(args, false)
    }

    fn parse_pop(args: &[Frame], front: bool) -> (r: Result<ListCmd, String>)
        ensures
            result_model(r, |c: ListCmd| c.model()) == parse_pop(models(args@), front),
    {
        let wrong = if front {
            "ERR wrong number of arguments for 'lpop' command"
        } else {
            "ERR wrong number of arguments for 'rpop' command"
        };
        match one_key_arg(args, wrong) {
            Ok(key) => if front {
                Ok(ListCmd::Lpop { key })
            } else {
                Ok(ListCmd::Rpop { key })
            },
            Err(e) => Err(e),
        }
    }

    /// LPOP's arguments: a key.
    pub fn parse_lpop(args: &[Frame]) -> (r: Result<ListCmd, String>)
        ensures
            result_model(r, |c: ListCmd| c.model()) == parse_pop(models(args@), true),
    {
        Self::parse_pop(args, true)
    }

    /// RPOP's arguments: a key.
    pub fn parse_rpop(args: &[Frame]) -> (r: Result<ListCmd, String>)
        ensures
            result_model(r, |c: ListCmd| c.model()) == parse_pop(models(args@), false),
    {
        Self::parse_pop(args, false)
    }

    fn index_at(args: &[Frame], i: usize) -> (r: Result<i64, String>)
        ensures
            match r {
                Ok(v) => index_arg(models(args@), i as int) == Ok::<i64, Seq<char>>(v),
                Err(e) => index_arg(models(args@), i as int) == Err::<i64, Seq<char>>(e@),
            },
    {
        if i >= args.len() {
            return Err(text("ERR wrong number of arguments for 'lrange' command"));
        }
        match num_arg_text(&args[i]) {
            Ok(t) => match parse_i64_all(&t) {
                Some(v) => Ok(v),
                None => Err(text("ERR value is not an integer or out of range")),
            },
            Err(true) => Err(text("ERR value is not an integer")),
            Err(false) => Err(text("ERR wrong number of arguments for 'lrange' command")),
        }
    }

    /// LRANGE's arguments: a key, a start and a stop index.
    pub fn parse_lrange(args: &[Frame]) -> (r: Result<ListCmd, String>)
        ensures
            result_model(r, |c: ListCmd| c.model()) == parse_lrange(models(args@)),
    {
        let key = if args.len() >= 1 {
            arg_to_bytes(&args[0])
        } else {
            None
        };
        let key = match key {
            Some(k) => k,
            None => {
                return Err(text("ERR wrong number of arguments for 'lrange' command"));
            },
        };
        let start = match Self::index_at(args, 1) {
            Ok(v) => v,
            Err(e) => {
                return Err(e);
            },
        };
        let stop = match Self::index_at(args, 2) {
            Ok(v) => v,
            Err(e) => {
                return Err(e);
            },
        };
        if args.len() > 3 {
            return Err(text("ERR wrong number of arguments for 'lrange' command"));
        }
        Ok(ListCmd::Lrange { key, start, stop })
    }
}

impl HashCmd {
    /// HSET's arguments: a key and field-value pairs.
    pub fn parse_hset(args: &[Frame]) -> (r: Result<HashCmd, String>)
        ensures
            result_model(r, |c: HashCmd| c.model()) == parse_hset(models(args@)),
    {
        let ghost ms = models(args@);
        let wrong = "ERR wrong number of arguments for 'hset' command";
        let key = if args.len() >= 1 {
            arg_to_bytes(&args[0])
        } else {
            None
        };
        let key = match key {
            Some(k) => k,
            None => {
                return Err(text(wrong));
            },
        };
        let mut fields: Vec<(Vec<u8>, Vec<u8>)> = Vec::new();
        let mut i: usize = 1;
        assert(crate::db::pair_seqs(fields@) + Seq::<(Seq<u8>, Seq<u8>)>::empty() =~= Seq::<(Seq<u8>, Seq<u8>)>::empty());
        proof {
            match hset_pairs(ms, 1) {
                Ok(rest) => {
                    assert(crate::db::pair_seqs(fields@) + rest =~= rest);
                },
                Err(_) => {},
            }
        }
        while i < args.len()
            invariant
                1 <= i <= args@.len(),
                ms == models(args@),
                wrong@ == "ERR wrong number of arguments for 'hset' command"@,
                arg_bytes(ms[0]) == Some(key@),
                hset_pairs(ms, 1) == match hset_pairs(ms, i as int) {
                    Ok(rest) => Ok(crate::db::pair_seqs(fields@) + rest),
                    Err(e) => Err(e),
                },
            decreases args@.len() - i,
        {
            let f = match arg_to_bytes(&args[i]) {
                Some(f) => f,
                None => {
                    return Err(text("ERR syntax error"));
                },
            };
            if i + 1 >= args.len() {
                return Err(text(wrong));
            }
            let v = match arg_to_bytes(&args[i + 1]) {
                Some(v) => v,
                None => {
                    return Err(text("ERR syntax error"));
                },
            };
            let ghost before = crate::db::pair_seqs(fields@);
            let ghost pv = (f@, v@);
            fields.push((f, v));
            proof {
                assert(crate::db::pair_seqs(fields@) =~= before.push(pv));
                match hset_pairs(ms, i + 2) {
                    Ok(rest) => {
                        assert(before + (seq![pv] + rest) =~= crate::db::pair_seqs(fields@) + rest);
                    },
                    Err(_) => {},
                }
            }
            i = i + 2;
        }
        assert(crate::db::pair_seqs(fields@) + Seq::<(Seq<u8>, Seq<u8>)>::empty() =~= crate::db::pair_seqs(fields@));
        if fields.len() == 0 {
            return Err(text(wrong));
        }
        Ok(HashCmd::Hset { key, fields })
    }

    /// HGET's arguments: a key and a field.
    pub fn parse_hget(args: &[Frame]) -> (r: Result<HashCmd, String>)
        ensures
            result_model(r, |c: HashCmd| c.model()) == parse_hget(models(args@)),
    {
        match two_keys_arg(args, "ERR wrong number of arguments for 'hget' command") {
            Ok((key, field)) => Ok(HashCmd::Hget { key, field }),
            Err(e) => Err(e),
        }
    }

    /// HDEL's arguments: a key and at least one field.
    pub fn parse_hdel(args: &[Frame]) -> (r: Result<HashCmd, String>)
        ensures
            result_model(r, |c: HashCmd| c.model()) == parse_hdel(models(args@)),
    {
        match key_and_items_arg(args, "ERR wrong number of arguments for 'hdel' command") {
            Ok((key, fields)) => Ok(HashCmd::Hdel { key, fields }),
            Err(e) => Err(e),
        }
    }

    /// HGETALL's arguments: a key.
    pub fn parse_hgetall(args: &[Frame]) -> (r: Result<HashCmd, String>)
        ensures
            result_model(r, |c: HashCmd| c.model()) == parse_hgetall(models(args@)),
    {
        match one_key_arg(args, "ERR wrong number of arguments for 'hgetall' command") {
            Ok(key) => Ok(HashCmd::Hgetall { key }),
            Err(e) => Err(e),
        }
    }
}

impl SetCmd {
    /// SADD's arguments: a key and at least one member.
    pub fn parse_sadd(args: &[Frame]) -> (r: Result<SetCmd, String>)
        ensures
            result_model(r, |c: SetCmd| c.model()) == parse_sadd(models(args@)),
    {
        match key_and_items_arg(args, "ERR wrong number of arguments for 'sadd' command") {
            Ok((key, members)) => Ok(SetCmd::Sadd { key, members }),
            Err(e) => Err(e),
        }
    }

    /// SMEMBERS's arguments: a key.
    pub fn parse_smembers(args: &[Frame]) -> (r: Result<SetCmd, String>)
        ensures
            result_model(r, |c: SetCmd| c.model()) == parse_smembers(models(args@)),
    {
        match one_key_arg(args, "ERR wrong number of arguments for 'smembers' command") {
            Ok(key) => Ok(SetCmd::Smembers { key }),
            Err(e) => Err(e),
        }
    }

    /// SREM's arguments: a key and at least one member.
    pub fn parse_srem(args: &[Frame]) -> (r: Result<SetCmd, String>)
        ensures
            result_model(r, |c: SetCmd| c.model()) == parse_srem(models(args@)),
    {
        match key_and_items_arg(args, "ERR wrong number of arguments for 'srem' command") {
            Ok((key, members)) => Ok(SetCmd::Srem { key, members }),
            Err(e) => Err(e),
        }
    }

    /// SISMEMBER's arguments: a key and a member.
    pub fn parse_sismember(args: &[Frame]) -> (r: Result<SetCmd, String>)
        ensures
            result_model(r, |c: SetCmd| c.model()) == parse_sismember(models(args@)),
    {
        match two_keys_arg(args, "ERR wrong number of arguments for 'sismember' command") {
            Ok((key, member)) => Ok(SetCmd::Sismember { key, member }),
            Err(e) => Err(e),
        }
    }
}

impl Keys {
    pub fn new(pattern: Vec<u8>) -> (r: Keys)
        ensures
            r.model() == CommandModel::Keys(pattern@),
    {
        Keys { pattern }
    }

    pub fn parse_frames(args: &[Frame]) -> (r: Result<Keys, String>)
        ensures
            result_model(r, |c: Keys| c.model()) == parse_keys(models(args@)),
    {
        if args.len() != 1 {
            return Err(text("ERR wrong number of arguments for 'keys' command"));
        }
        match arg_to_bytes(&args[0]) {
            Some(pattern) => Ok(Keys { pattern }),
            None => Err(text("ERR invalid argument for 'keys' command")),
        }
    }
}

fn cursor_of(f: &Frame) -> (r: Option<u64>)
    ensures
        r == cursor_arg(f.model()),
{
    match f {
        Frame::Integer(i) => {
            if *i < 0 {
                None
            } else {
                let mut v: Vec<u8> = Vec::new();
                push_decimal_i64(&mut v, *i);
                assert(v@ =~= decimal_text(*i as int));
                parse_u64_all(&v)
            }
        },
        _ => match num_arg_text(f) {
            Ok(t) => parse_u64_all(&t),
            Err(_) => None,
        },
    }
}

fn count_of(f: &Frame) -> (r: Option<usize>)
    ensures
        r == count_arg(f.model()),
{
    match f {
        Frame::Integer(i) => {
            if *i <= 0 {
                None
            } else {
                Some(*i as usize)
            }
        },
        Frame::Bulk(b) => match utf8_str(b.as_slice()) {
            Some(_) => parse_usize_all(b.as_slice()),
            None => None,
        },
        Frame::Simple(s) => parse_usize_all(s.as_str().as_bytes()),
        _ => None,
    }
}

impl Scan {
    pub fn new(cursor: u64, pattern: Option<Vec<u8>>, count: usize, type_filter: Option<String>) -> (r:
        Scan)
        ensures
            r.model() == (CommandModel::Scan {
                cursor,
                pattern: opt_bytes(pattern),
                count,
                type_filter: opt_text(type_filter),
            }),
    {
        Scan { cursor, pattern, count, type_filter }
    }

    pub fn parse_frames(args: &[Frame]) -> (r: Result<Scan, String>)
        ensures
            result_model(r, |c: Scan| c.model()) == parse_scan(models(args@)),
    {
        let ghost ms = models(args@);
        if args.len() == 0 {
            return Err(text("ERR wrong number of arguments for 'scan' command"));
        }
        let cursor = match cursor_of(&args[0]) {
            Some(c) => c,
            None => {
                return Err(text("ERR invalid cursor"));
            },
        };
        let mut pattern: Option<Vec<u8>> = None;
        let mut count: usize = 10;
        let mut type_filter: Option<String> = None;
        let mut i: usize = 1;
        while i < args.len()
            invariant
                1 <= i <= args@.len(),
                ms == models(args@),
                cursor_arg(ms[0]) == Some(cursor),
                scan_options(ms, 1, None, 10, None) == scan_options(
                    ms,
                    i as int,
                    opt_bytes(pattern),
                    count,
                    opt_text(type_filter),
                ),
            decreases args@.len() - i,
        {
            let opt = match text_arg_of(&args[i]) {
                Ok(o) => o,
                Err(_) => {
                    return Err(text("ERR syntax error"));
                },
            };
            let up = to_upper(opt.as_str());
            let is_match = same_text(up.as_str(), "MATCH");
            let is_count = same_text(up.as_str(), "COUNT");
            let is_type = same_text(up.as_str(), "TYPE");
            if !(is_match || is_count || is_type) {
                return Err(text("ERR syntax error"));
            }
            if i + 1 >= args.len() {
                return Err(text("ERR syntax error"));
            }
            if is_match {
                match arg_to_bytes(&args[i + 1]) {
                    Some(p) => {
                        pattern = Some(p);
                    },
                    None => {
                        return Err(text("ERR syntax error"));
                    },
                }
            } else if is_count {
                match count_of(&args[i + 1]) {
                    Some(c) => {
                        count = c;
                    },
                    None => {
                        return Err(text("ERR value is not an integer or out of range"));
                    },
                }
            } else {
                match text_arg_of(&args[i + 1]) {
                    Ok(t) => {
                        type_filter = Some(t);
                    },
                    Err(_) => {
                        return Err(text("ERR syntax error"));
                    },
                }
            }
            i = i + 2;
        }
        Ok(Scan { cursor, pattern, count, type_filter })
    }
}

impl PubSubCmd {
    /// PUBLISH's arguments: a channel name and a message.
    pub fn parse_publish(args: &[Frame]) -> (r: Result<PubSubCmd, String>)
        ensures
            result_model(r, |c: PubSubCmd| c.model()) == parse_publish(models(args@)),
    {
        let wrong = "ERR wrong number of arguments for 'publish' command";
        if args.len() == 0 {
            return Err(text(wrong));
        }
        let channel = match text_arg_of(&args[0]) {
            Ok(c) => c,
            Err(true) => {
                return Err(text("ERR invalid channel name"));
            },
            Err(false) => {
                return Err(text(wrong));
            },
        };
        if args.len() < 2 {
            return Err(text(wrong));
        }
        let message = match arg_to_bytes(&args[1]) {
            Some(m) => m,
            None => {
                return Err(text(wrong));
            },
        };
        if args.len() > 2 {
            return Err(text(wrong));
        }
        Ok(PubSubCmd::Publish { channel, message })
    }

    /// SUBSCRIBE's arguments: at least one channel name.
    pub fn parse_subscribe(args: &[Frame]) -> (r: Result<PubSubCmd, String>)
        ensures
            result_model(r, |c: PubSubCmd| c.model()) == parse_subscribe(models(args@)),
    {
        let ghost ms = models(args@);
        let mut channels: Vec<String> = Vec::new();
        let mut i: usize = 0;
        proof {
            match channel_names(ms, 0) {
                Ok(rest) => {
                    assert(texts(channels@) + rest =~= rest);
                },
                Err(_) => {},
            }
        }
        while i < args.len()
            invariant
                i <= args@.len(),
                ms == models(args@),
                channel_names(ms, 0) == match channel_names(ms, i as int) {
                    Ok(rest) => Ok(texts(channels@) + rest),
                    Err(e) => Err(e),
                },
            decreases args@.len() - i,
        {
            let c = match text_arg_of(&args[i]) {
                Ok(c) => c,
                Err(true) => {
                    return Err(text("ERR invalid channel name"));
                },
                Err(false) => {
                    return Err(text("ERR syntax error"));
                },
            };
            let ghost before = texts(channels@);
            let ghost cv = c@;
            channels.push(c);
            proof {
                assert(texts(channels@) =~= before.push(cv));
                match channel_names(ms, i + 1) {
                    Ok(rest) => {
                        assert(before + (seq![cv] + rest) =~= texts(channels@) + rest);
                    },
                    Err(_) => {},
                }
            }
            i = i + 1;
        }
        assert(texts(channels@) + Seq::<Seq<char>>::empty() =~= texts(channels@));
        if channels.len() == 0 {
            return Err(text("ERR wrong number of arguments for 'subscribe' command"));
        }
        Ok(PubSubCmd::Subscribe { channels })
    }
}


impl Command {
    /// The command named `up` (already upper-cased), with its arguments.
    fn dispatch(up: &str, args: &[Frame]) -> (r: Result<Command, String>)
        ensures
            result_model(r, |c: Command| c.model()) == dispatch(up@, models(args@)),
    {
        if same_text(up, "PING") {
            match Ping::parse_frames(args) { Ok(c) => Ok(Command::Ping(c)), Err(e) => Err(e) }
        } else if same_text(up, "ECHO") {
            match Echo::parse_frames(args) { Ok(c) => Ok(Command::Echo(c)), Err(e) => Err(e) }
        } else if same_text(up, "GET") {
            match Get::parse_frames(args) { Ok(c) => Ok(Command::Get(c)), Err(e) => Err(e) }
        } else if same_text(up, "SET") {
            match SetString::parse_frames(args) { Ok(c) => Ok(Command::SetString(c)), Err(e) => Err(e) }
        } else if same_text(up, "DEL") {
            match Del::parse_frames(args) { Ok(c) => Ok(Command::Del(c)), Err(e) => Err(e) }
        } else if same_text(up, "EXPIRE") {
            match Expire::parse_expire(args) { Ok(c) => Ok(Command::Expire(c)), Err(e) => Err(e) }
        } else if same_text(up, "PEXPIRE") {
            match Expire::parse_pexpire(args) { Ok(c) => Ok(Command::Expire(c)), Err(e) => Err(e) }
        } else if same_text(up, "TTL") {
            match Ttl::parse_frames(args, false) { Ok(c) => Ok(Command::Ttl(c)), Err(e) => Err(e) }
        } else if same_text(up, "PTTL") {
            match Ttl::parse_frames(args, true) { Ok(c) => Ok(Command::Ttl(c)), Err(e) => Err(e) }
        } else if same_text(up, "COMMAND") {
            Ok(Command::Command)
        } else if same_text(up, "LPUSH") {
            match ListCmd::parse_lpush(args) { Ok(c) => Ok(Command::List(c)), Err(e) => Err(e) }
        } else if same_text(up, "RPUSH") {
            match ListCmd::parse_rpush(args) { Ok(c) => Ok(Command::List(c)), Err(e) => Err(e) }
        } else if same_text(up, "LPOP") {
            match ListCmd::parse_lpop(args) { Ok(c) => Ok(Command::List(c)), Err(e) => Err(e) }
        } else if same_text(up, "RPOP") {
            match ListCmd::parse_rpop(args) { Ok(c) => Ok(Command::List(c)), Err(e) => Err(e) }
        } else if same_text(up, "LRANGE") {
            match ListCmd::parse_lrange(args) { Ok(c) => Ok(Command::List(c)), Err(e) => Err(e) }
        } else if same_text(up, "HSET") {
            match HashCmd::parse_hset(args) { Ok(c) => Ok(Command::Hash(c)), Err(e) => Err(e) }
        } else if same_text(up, "HGET") {
            match HashCmd::parse_hget(args) { Ok(c) => Ok(Command::Hash(c)), Err(e) => Err(e) }
        } else if same_text(up, "HDEL") {
            match HashCmd::parse_hdel(args) { Ok(c) => Ok(Command::Hash(c)), Err(e) => Err(e) }
        } else if same_text(up, "HGETALL") {
            match HashCmd::parse_hgetall(args) { Ok(c) => Ok(Command::Hash(c)), Err(e) => Err(e) }
        } else if same_text(up, "SADD") {
            match SetCmd::parse_sadd(args) { Ok(c) => Ok(Command::SetCmd(c)), Err(e) => Err(e) }
        } else if same_text(up, "SMEMBERS") {
            match SetCmd::parse_smembers(args) { Ok(c) => Ok(Command::SetCmd(c)), Err(e) => Err(e) }
        } else if same_text(up, "SREM") {
            match SetCmd::parse_srem(args) { Ok(c) => Ok(Command::SetCmd(c)), Err(e) => Err(e) }
        } else if same_text(up, "SISMEMBER") {
            match SetCmd::parse_sismember(args) { Ok(c) => Ok(Command::SetCmd(c)), Err(e) => Err(e) }
        } else if same_text(up, "KEYS") {
            match Keys::parse_frames(args) { Ok(c) => Ok(Command::Keys(c)), Err(e) => Err(e) }
        } else if same_text(up, "SCAN") {
            match Scan::parse_frames(args) { Ok(c) => Ok(Command::Scan(c)), Err(e) => Err(e) }
        } else if same_text(up, "PUBLISH") {
            match PubSubCmd::parse_publish(args) { Ok(c) => Ok(Command::PubSub(c)), Err(e) => Err(e) }
        } else if same_text(up, "SUBSCRIBE") {
            match PubSubCmd::parse_subscribe(args) { Ok(c) => Ok(Command::PubSub(c)), Err(e) => Err(e) }
        } else {
            let mut msg = text("ERR unknown command '");
            msg.append(up);
            msg.append("'");
            Err(msg)
        }
    }

    /// Decodes a request: an array whose first element names the command (in any
    /// case) and whose other elements are its arguments.
    pub fn from_frame(frame: Frame) -> (r: Result<Command, String>)
        ensures
            result_model(r, |c: Command| c.model()) == parse_command(frame.model()),
    {
        match &frame {
            Frame::Array(items) => {
                if items.len() == 0 {
                    return Err(text("protocol error; empty command array"));
                }
                assert(models(items@) =~= frame.model()->Array_0);
                let name = match text_arg_of(&items[0]) {
                    Ok(n) => n,
                    Err(true) => {
                        return Err(text("protocol error; invalid command name"));
                    },
                    Err(false) => {
                        return Err(text("protocol error; command name must be a string"));
                    },
                };
                let up = to_upper(name.as_str());
                let (_, rest) = items.as_slice().split_at(1);
                assert(models(rest@) =~= models(items@).skip(1));
                Self::dispatch(up.as_str(), rest)
            },
            _ => {
                let mut msg = text("protocol error; expected array, got ");
                msg.append(frame.debug_text().as_str());
                Err(msg)
            },
        }
    }
}


// ---------------------------------------------------------------------------
// Replies
// ---------------------------------------------------------------------------
/// Each byte string as a bulk frame.
pub open spec fn bulks(items: Seq<Seq<u8>>) -> Seq<FrameModel> {
    Seq::new(items.len(), |i: int| FrameModel::Bulk(items[i]))
}

/// Each pair as two bulk frames, field then value.
pub open spec fn pair_bulks(h: Pairs) -> Seq<FrameModel> {
    Seq::new(
        2 * h.len(),
        |i: int|
            if i % 2 == 0 {
                FrameModel::Bulk(h[i / 2].0)
            } else {
                FrameModel::Bulk(h[i / 2].1)
            },
    )
}

pub open spec fn error_reply(msg: Seq<char>) -> FrameModel {
    FrameModel::Error(msg)
}

/// A string or nothing as a bulk frame or a null, the type error as an error frame.
pub open spec fn opt_reply(r: Result<Option<Seq<u8>>, ()>) -> FrameModel {
    match r {
        Ok(Some(b)) => FrameModel::Bulk(b),
        Ok(None) => FrameModel::Null,
        Err(()) => error_reply(wrong_type()),
    }
}

/// A count as an integer frame.
pub open spec fn count_frame(n: nat) -> FrameModel {
    FrameModel::Integer((n as i64) as int)
}

pub open spec fn count_reply(r: Result<nat, ()>) -> FrameModel {
    match r {
        Ok(n) => count_frame(n),
        Err(()) => error_reply(wrong_type()),
    }
}

pub open spec fn list_reply(r: Result<Seq<Seq<u8>>, ()>) -> FrameModel {
    match r {
        Ok(l) => FrameModel::Array(bulks(l)),
        Err(()) => error_reply(wrong_type()),
    }
}

pub open spec fn pairs_reply(r: Result<Pairs, ()>) -> FrameModel {
    match r {
        Ok(h) => FrameModel::Array(pair_bulks(h)),
        Err(()) => error_reply(wrong_type()),
    }
}

pub open spec fn bool_reply(r: Result<bool, ()>) -> FrameModel {
    match r {
        Ok(b) => FrameModel::Integer(
            if b {
                1
            } else {
                0
            },
        ),
        Err(()) => error_reply(wrong_type()),
    }
}

/// The absolute expiry `ms` milliseconds after `now` (saturating).
pub open spec fn expiry_after(now: u64, ms: Option<u64>) -> Option<u64> {
    match ms {
        Some(d) => Some(
            if now + d > u64::MAX {
                u64::MAX
            } else {
                (now + d) as u64
            },
        ),
        None => None,
    }
}

pub open spec fn opt_chars_bytes(o: Option<Seq<char>>) -> Option<Seq<u8>> {
    match o {
        Some(t) => Some(encode_utf8(t)),
        None => None,
    }
}

/// The keys that `c` may evict from `m` before it runs. SET evicts for its new entry
/// as `Db::set_at` does: each key while the entry does not fit under the limit, until
/// it fits or no candidate is left. No other command evicts.
pub open spec fn allowed_evictions(m: DbModel, c: CommandModel, evicted: Seq<Seq<u8>>) -> bool {
    match c {
        CommandModel::SetString { key, value, .. } => {
            &&& evicted_for(m, evicted, entry_size(key, DataModel::String(value)))
            &&& eviction_done(m.remove_all(evicted), entry_size(key, DataModel::String(value)))
        },
        _ => evicted == Seq::<Seq<u8>>::empty(),
    }
}

/// What a command does at `now`: the database after, and the reply. SET first
/// evicts the keys `evicted` (its sampled LRU victims; none without a memory limit).
#[verifier::opaque]
pub open spec fn apply_op(m: DbModel, c: CommandModel, now: u64, evicted: Seq<Seq<u8>>) -> (
    DbModel,
    FrameModel,
) {
    match c {
        CommandModel::Ping(None) => (m, FrameModel::Simple("PONG"@)),
        CommandModel::Ping(Some(b)) => (m, FrameModel::Bulk(b)),
        CommandModel::Echo(b) => (m, FrameModel::Bulk(b)),
        CommandModel::Get(k) => (m.get_op(k, now).0, opt_reply(m.get_op(k, now).1)),
        CommandModel::SetString { key, value, expire_ms } => (
            m.remove_all(evicted).store_string(key, value, expiry_after(now, expire_ms), now),
            FrameModel::Simple("OK"@),
        ),
        CommandModel::Del(keys) => (m.del_op(keys).0, count_frame(m.del_op(keys).1)),
        CommandModel::Expire { key, duration_ms } => (
            m.expire_op(key, duration_ms, now).0,
            FrameModel::Integer(
                if m.expire_op(key, duration_ms, now).1 {
                    1
                } else {
                    0
                },
            ),
        ),
        CommandModel::Ttl { key, millis } => (
            m,
            FrameModel::Integer(
                if millis {
                    m.pttl_op(key, now)
                } else {
                    m.ttl_op(key, now)
                },
            ),
        ),
        CommandModel::Lpush { key, elements } => (
            m.push_op(key, elements, true, now).0,
            count_reply(m.push_op(key, elements, true, now).1),
        ),
        CommandModel::Rpush { key, elements } => (
            m.push_op(key, elements, false, now).0,
            count_reply(m.push_op(key, elements, false, now).1),
        ),
        CommandModel::Lpop(key) => (m.pop_op(key, true, now).0, opt_reply(m.pop_op(key, true, now).1)),
        CommandModel::Rpop(key) => (
            m.pop_op(key, false, now).0,
            opt_reply(m.pop_op(key, false, now).1),
        ),
        CommandModel::Lrange { key, start, stop } => (
            m.lrange_op(key, start, stop, now).0,
            list_reply(m.lrange_op(key, start, stop, now).1),
        ),
        CommandModel::Hset { key, fields } => (
            m.hset_op(key, fields, now).0,
            count_reply(m.hset_op(key, fields, now).1),
        ),
        CommandModel::Hget { key, field } => (
            m.hget_op(key, field, now).0,
            opt_reply(m.hget_op(key, field, now).1),
        ),
        CommandModel::Hdel { key, fields } => (
            m.hdel_op(key, fields, now).0,
            count_reply(m.hdel_op(key, fields, now).1),
        ),
        CommandModel::Hgetall(key) => (m.hgetall_op(key, now).0, pairs_reply(m.hgetall_op(key, now).1)),
        CommandModel::Sadd { key, members } => (
            m.sadd_op(key, members, now).0,
            count_reply(m.sadd_op(key, members, now).1),
        ),
        CommandModel::Smembers(key) => (
            m.smembers_op(key, now).0,
            list_reply(m.smembers_op(key, now).1),
        ),
        CommandModel::Srem { key, members } => (
            m.srem_op(key, members, now).0,
            count_reply(m.srem_op(key, members, now).1),
        ),
        CommandModel::Sismember { key, member } => (
            m.sismember_op(key, member, now).0,
            bool_reply(m.sismember_op(key, member, now).1),
        ),
        CommandModel::Keys(p) => (
            m,
            FrameModel::Array(bulks(crate::db_keys::all_keys(m.shards, p, now))),
        ),
        CommandModel::Scan { cursor, pattern, count, type_filter } => {
            let (next, keys) = scan_op(
                m.shards,
                cursor,
                pattern,
                count,
                opt_chars_bytes(type_filter),
                now,
            );
            (
                m,
                FrameModel::Array(
                    seq![FrameModel::Bulk(digits_of(next as nat)), FrameModel::Array(bulks(keys))],
                ),
            )
        },
        CommandModel::Publish { .. } => (m, error_reply("ERR invalid pubsub command execution"@)),
        CommandModel::Subscribe(_) => (m, error_reply("ERR invalid pubsub command execution"@)),
        CommandModel::Handshake => (m, FrameModel::Array(Seq::empty())),
    }
}

/// An empty database, for the replies that need none.
pub open spec fn no_db() -> DbModel {
    DbModel { shards: Seq::empty(), maxmemory: 0, memory: 0 }
}

/// Bulk frames of the byte strings.
fn bulk_frames(items: &Vec<Vec<u8>>) -> (r: Vec<Frame>)
    ensures
        models(r@) == bulks(byte_seqs(items@)),
{
    let mut out: Vec<Frame> = Vec::new();
    let mut i: usize = 0;
    while i < items.len()
        invariant
            i <= items@.len(),
            models(out@) == bulks(byte_seqs(items@)).take(i as int),
        decreases items@.len() - i,
    {
        let ghost before = models(out@);
        let f = Frame::Bulk(copy_bytes(items[i].as_slice()));
        let ghost fm = f.model();
        out.push(f);
        assert(models(out@) =~= before.push(fm));
        assert(bulks(byte_seqs(items@)).take(i + 1) =~= bulks(byte_seqs(items@)).take(i as int).push(
            fm,
        ));
        i = i + 1;
    }
    assert(bulks(byte_seqs(items@)).take(i as int) =~= bulks(byte_seqs(items@)));
    out
}

/// Bulk frames of the pairs, field then value.
fn pair_frames(h: &Vec<(Vec<u8>, Vec<u8>)>) -> (r: Vec<Frame>)
    ensures
        models(r@) == pair_bulks(pair_seqs(h@)),
{
    let mut out: Vec<Frame> = Vec::new();
    let mut i: usize = 0;
    while i < h.len()
        invariant
            i <= h@.len(),
            models(out@) == pair_bulks(pair_seqs(h@)).take(2 * i),
        decreases h@.len() - i,
    {
        let ghost before = models(out@);
        let a = Frame::Bulk(copy_bytes(h[i].0.as_slice()));
        let b = Frame::Bulk(copy_bytes(h[i].1.as_slice()));
        let ghost am = a.model();
        let ghost bm = b.model();
        out.push(a);
        out.push(b);
        proof {
            let p = pair_bulks(pair_seqs(h@));
            assert(models(out@) =~= before.push(am).push(bm));
            assert((2 * i) % 2 == 0 && (2 * i) / 2 == i) by (nonlinear_arith);
            assert((2 * i + 1) % 2 == 1 && (2 * i + 1) / 2 == i) by (nonlinear_arith);
            assert(p.take(2 * i + 2) =~= p.take(2 * i).push(am).push(bm));
        }
        i = i + 1;
    }
    assert(pair_bulks(pair_seqs(h@)).take(2 * i) =~= pair_bulks(pair_seqs(h@)));
    out
}

/// An array frame.
fn array_frame(v: Vec<Frame>) -> (r: Frame)
    ensures
        r.model() == FrameModel::Array(models(v@)),
{
    let r = Frame::Array(v);
    assert(r.model()->Array_0 =~= models(v@));
    r
}

fn opt_frame(r: Result<Option<Vec<u8>>, String>) -> (f: Frame)
    requires
        r is Err ==> r->Err_0@ == wrong_type(),
    ensures
        f.model() == match r {
            Ok(Some(v)) => FrameModel::Bulk(v@),
            Ok(None) => FrameModel::Null,
            Err(_) => error_reply(wrong_type()),
        },
{
    match r {
        Ok(Some(v)) => Frame::Bulk(v),
        Ok(None) => Frame::Null,
        Err(e) => Frame::Error(e),
    }
}

fn count_result_frame(r: Result<usize, String>) -> (f: Frame)
    requires
        r is Err ==> r->Err_0@ == wrong_type(),
    ensures
        f.model() == match r {
            Ok(n) => count_frame(n as nat),
            Err(_) => error_reply(wrong_type()),
        },
{
    match r {
        Ok(n) => Frame::Integer(n as i64),
        Err(e) => Frame::Error(e),
    }
}

fn list_frame(r: Result<Vec<Vec<u8>>, String>) -> (f: Frame)
    requires
        r is Err ==> r->Err_0@ == wrong_type(),
    ensures
        f.model() == match r {
            Ok(v) => FrameModel::Array(bulks(byte_seqs(v@))),
            Err(_) => error_reply(wrong_type()),
        },
{
    match r {
        Ok(v) => array_frame(bulk_frames(&v)),
        Err(e) => Frame::Error(e),
    }
}

impl Ping {
    /// PONG, or the message back.
    pub fn apply(self) -> (r: Frame)
        ensures
            r.model() == apply_op(no_db(), self.model(), 0, Seq::empty()).1,
    {
        reveal(apply_op);
        match self.msg {
            Some(m) => Frame::Bulk(m),
            None => Frame::Simple(text("PONG")),
        }
    }
}

impl Echo {
    /// The message back.
    pub fn apply(self) -> (r: Frame)
        ensures
            r.model() == apply_op(no_db(), self.model(), 0, Seq::empty()).1,
    {
        reveal(apply_op);
        Frame::Bulk(self.msg)
    }
}

impl Get {
    /// GET at `now`.
    pub fn apply_at(self, db: &mut Db, now: u64) -> (r: Frame)
        requires
            old(db).wf(),
        ensures
            final(db).wf(),
            (final(db)@, r.model()) == apply_op(old(db)@, self.model(), now, Seq::empty()),
    {
        reveal(apply_op);
        opt_frame(db.get_at(self.key.as_slice(), now))
    }

    /// GET: the string under the key as a bulk frame, a null, or the type error.
    pub fn apply(self, db: &mut Db) -> (r: Frame)
        requires
            old(db).wf(),
        ensures
            final(db).wf(),
            exists|now: u64| (final(db)@, r.model()) == apply_op(old(db)@, self.model(), now, Seq::empty()),
    {
        let now = db.now_millis();
        self.apply_at(db, now)
    }
}

impl SetString {
    /// SET at `now`: the time to live counts from `now`.
    pub fn apply_at(self, db: &mut Db, now: u64) -> (r: Frame)
        requires
            old(db).wf(),
        ensures
            final(db).wf(),
            exists|evicted: Seq<Seq<u8>>|
                {
                    &&& allowed_evictions(old(db)@, self.model(), evicted)
                    &&& (final(db)@, r.model()) == apply_op(old(db)@, self.model(), now, evicted)
                },
            old(db)@.maxmemory == 0 ==> (final(db)@, r.model()) == apply_op(
                old(db)@,
                self.model(),
                now,
                Seq::empty(),
            ),
    {
        reveal(apply_op);
        let exp = match self.expire_ms {
            Some(ms) => Some(now.saturating_add(ms)),
            None => None,
        };
        let ghost before = db@;
        let ghost c = self.model();
        assert(exp == expiry_after(now, self.expire_ms));
        db.set_at(self.key, self.value, exp, now);
        let r = Frame::Simple(text("OK"));
        proof {
            let size = entry_size(c->SetString_key, DataModel::String(c->SetString_value));
            let ev = choose|ev: Seq<Seq<u8>>|
                {
                    &&& db@ == before.remove_all(ev).store_string(
                        c->SetString_key,
                        c->SetString_value,
                        exp,
                        now,
                    )
                    &&& evicted_for(before, ev, size)
                    &&& eviction_done(before.remove_all(ev), size)
                };
            assert((db@, r.model()) == apply_op(before, c, now, ev));
            assert(allowed_evictions(before, c, ev));
        }
        r
    }

    /// SET: stores the value (making room under the memory limit) and answers OK.
    pub fn apply(self, db: &mut Db) -> (r: Frame)
        requires
            old(db).wf(),
        ensures
            final(db).wf(),
            exists|now: u64, evicted: Seq<Seq<u8>>|
                {
                    &&& allowed_evictions(old(db)@, self.model(), evicted)
                    &&& (final(db)@, r.model()) == apply_op(old(db)@, self.model(), now, evicted)
                },
    {
        let now = db.now_millis();
        self.apply_at(db, now)
    }
}

impl Del {
    /// DEL: removes the keys and answers how many were there.
    pub fn apply(self, db: &mut Db) -> (r: Frame)
        requires
            old(db).wf(),
        ensures
            final(db).wf(),
            forall|now: u64|
                (final(db)@, r.model()) == #[trigger] apply_op(old(db)@, self.model(), now, Seq::empty()),
    {
        reveal(apply_op);
        let n = db.del(self.keys.as_slice());
        Frame::Integer(n as i64)
    }
}

impl Expire {
    /// EXPIRE at `now`.
    pub fn apply_at(self, db: &mut Db, now: u64) -> (r: Frame)
        requires
            old(db).wf(),
        ensures
            final(db).wf(),
            (final(db)@, r.model()) == apply_op(old(db)@, self.model(), now, Seq::empty()),
    {
        reveal(apply_op);
        let ok = db.expire_at(self.key.as_slice(), self.duration_ms, now);
        Frame::Integer(
            if ok {
                1
            } else {
                0
            },
        )
    }

    /// EXPIRE: 1 where the key got its time to live, else 0.
    pub fn apply(self, db: &mut Db) -> (r: Frame)
        requires
            old(db).wf(),
        ensures
            final(db).wf(),
            exists|now: u64| (final(db)@, r.model()) == apply_op(old(db)@, self.model(), now, Seq::empty()),
    {
        let now = db.now_millis();
        self.apply_at(db, now)
    }
}

impl Ttl {
    /// TTL or PTTL at `now`.
    pub fn apply_at(self, db: &Db, now: u64) -> (r: Frame)
        requires
            db.wf(),
        ensures
            (db@, r.model()) == apply_op(db@, self.model(), now, Seq::empty()),
    {
        reveal(apply_op);
        let v = if self.millis {
            db.pttl_at(self.key.as_slice(), now)
        } else {
            db.ttl_at(self.key.as_slice(), now)
        };
        Frame::Integer(v)
    }

    /// TTL or PTTL: the remaining time to live (-2 absent or expired, -1 none).
    pub fn apply(self, db: &Db) -> (r: Frame)
        requires
            db.wf(),
        ensures
            exists|now: u64| r.model() == apply_op(db@, self.model(), now, Seq::empty()).1,
    {
        self.apply_at(db, db.now_millis())
    }
}

impl ListCmd {
    /// The list command at `now`.
    pub fn apply_at(self, db: &mut Db, now: u64) -> (r: Frame)
        requires
            old(db).wf(),
        ensures
            final(db).wf(),
            (final(db)@, r.model()) == apply_op(old(db)@, self.model(), now, Seq::empty()),
    {
        reveal(apply_op);
        match self {
            ListCmd::Lpush { key, elements } => count_result_frame(db.lpush_at(key, elements, now)),
            ListCmd::Rpush { key, elements } => count_result_frame(db.rpush_at(key, elements, now)),
            ListCmd::Lpop { key } => opt_frame(db.lpop_at(key.as_slice(), now)),
            ListCmd::Rpop { key } => opt_frame(db.rpop_at(key.as_slice(), now)),
            ListCmd::Lrange { key, start, stop } => list_frame(
                db.lrange_at(key.as_slice(), start, stop, now),
            ),
        }
    }

    /// The list command, with its reply.
    pub fn apply(self, db: &mut Db) -> (r: Frame)
        requires
            old(db).wf(),
        ensures
            final(db).wf(),
            exists|now: u64| (final(db)@, r.model()) == apply_op(old(db)@, self.model(), now, Seq::empty()),
    {
        let now = db.now_millis();
        self.apply_at(db, now)
    }
}

impl HashCmd {
    /// The hash command at `now`.
    pub fn apply_at(self, db: &mut Db, now: u64) -> (r: Frame)
        requires
            old(db).wf(),
        ensures
            final(db).wf(),
            (final(db)@, r.model()) == apply_op(old(db)@, self.model(), now, Seq::empty()),
    {
        reveal(apply_op);
        match self {
            HashCmd::Hset { key, fields } => count_result_frame(db.hset_at(key, fields, now)),
            HashCmd::Hget { key, field } => opt_frame(db.hget_at(key.as_slice(), field.as_slice(), now)),
            HashCmd::Hdel { key, fields } => count_result_frame(
                db.hdel_at(key.as_slice(), fields.as_slice(), now),
            ),
            HashCmd::Hgetall { key } => match db.hgetall_at(key.as_slice(), now) {
                Ok(pairs) => array_frame(pair_frames(&pairs)),
                Err(e) => Frame::Error(e),
            },
        }
    }

    /// The hash command, with its reply.
    pub fn apply(self, db: &mut Db) -> (r: Frame)
        requires
            old(db).wf(),
        ensures
            final(db).wf(),
            exists|now: u64| (final(db)@, r.model()) == apply_op(old(db)@, self.model(), now, Seq::empty()),
    {
        let now = db.now_millis();
        self.apply_at(db, now)
    }
}

impl SetCmd {
    /// The set command at `now`.
    pub fn apply_at(self, db: &mut Db, now: u64) -> (r: Frame)
        requires
            old(db).wf(),
        ensures
            final(db).wf(),
            (final(db)@, r.model()) == apply_op(old(db)@, self.model(), now, Seq::empty()),
    {
        reveal(apply_op);
        match self {
            SetCmd::Sadd { key, members } => count_result_frame(db.sadd_at(key, members, now)),
            SetCmd::Smembers { key } => list_frame(db.smembers_at(key.as_slice(), now)),
            SetCmd::Srem { key, members } => count_result_frame(
                db.srem_at(key.as_slice(), members.as_slice(), now),
            ),
            SetCmd::Sismember { key, member } => match db.sismember_at(
                key.as_slice(),
                member.as_slice(),
                now,
            ) {
                Ok(b) => Frame::Integer(
                    if b {
                        1
                    } else {
                        0
                    },
                ),
                Err(e) => Frame::Error(e),
            },
        }
    }

    /// The set command, with its reply.
    pub fn apply(self, db: &mut Db) -> (r: Frame)
        requires
            old(db).wf(),
        ensures
            final(db).wf(),
            exists|now: u64| (final(db)@, r.model()) == apply_op(old(db)@, self.model(), now, Seq::empty()),
    {
        let now = db.now_millis();
        self.apply_at(db, now)
    }
}

impl Keys {
    /// KEYS at `now`.
    pub fn apply_at(self, db: &Db, now: u64) -> (r: Frame)
        ensures
            (db@, r.model()) == apply_op(db@, self.model(), now, Seq::empty()),
    {
        reveal(apply_op);
        let keys = db.keys_at(self.pattern.as_slice(), now);
        array_frame(bulk_frames(&keys))
    }

    /// KEYS: the live keys that match the pattern, as bulk frames.
    pub fn apply(self, db: &Db) -> (r: Frame)
        ensures
            exists|now: u64| r.model() == apply_op(db@, self.model(), now, Seq::empty()).1,
    {
        self.apply_at(db, db.now_millis())
    }
}

impl Scan {
    /// SCAN at `now`.
    pub fn apply_at(self, db: &Db, now: u64) -> (r: Frame)
        ensures
            (db@, r.model()) == apply_op(db@, self.model(), now, Seq::empty()),
    {
        reveal(apply_op);
        let pattern = match &self.pattern {
            Some(p) => Some(p.as_slice()),
            None => None,
        };
        let type_filter = match &self.type_filter {
            Some(t) => Some(t.as_str()),
            None => None,
        };
        let (next, keys) = db.scan_at(self.cursor, pattern, self.count, type_filter, now);
        let mut digits: Vec<u8> = Vec::new();
        push_decimal_u64(&mut digits, next);
        assert(digits@ =~= digits_of(next as nat));
        let mut parts: Vec<Frame> = Vec::new();
        parts.push(Frame::Bulk(digits));
        parts.push(array_frame(bulk_frames(&keys)));
        let r = array_frame(parts);
        assert(r.model()->Array_0 =~= seq![FrameModel::Bulk(digits_of(next as nat)), FrameModel::Array(bulks(byte_seqs(keys@)))]);
        r
    }

    /// SCAN: the next cursor (as a bulk string) and the keys found.
    pub fn apply(self, db: &Db) -> (r: Frame)
        ensures
            exists|now: u64| r.model() == apply_op(db@, self.model(), now, Seq::empty()).1,
    {
        self.apply_at(db, db.now_millis())
    }
}

impl PubSubCmd {
    /// The reply to PUBLISH, given how many subscribers the message reached; other
    /// pub/sub commands are not answered this way.
    pub fn apply_publish(self, receivers: usize) -> (r: Frame)
        ensures
            r.model() == match self.model() {
                CommandModel::Publish { .. } => FrameModel::Integer((receivers as i64) as int),
                _ => error_reply("ERR invalid pubsub command execution"@),
            },
    {
        match self {
            PubSubCmd::Publish { .. } => Frame::Integer(receivers as i64),
            _ => Frame::Error(text("ERR invalid pubsub command execution")),
        }
    }
}

impl Command {
    /// Runs the command at `now`.
    pub fn apply_at(self, db: &mut Db, now: u64) -> (r: Frame)
        requires
            old(db).wf(),
        ensures
            final(db).wf(),
            exists|evicted: Seq<Seq<u8>>|
                {
                    &&& allowed_evictions(old(db)@, self.model(), evicted)
                    &&& (final(db)@, r.model()) == apply_op(old(db)@, self.model(), now, evicted)
                },
            old(db)@.maxmemory == 0 ==> (final(db)@, r.model()) == apply_op(
                old(db)@,
                self.model(),
                now,
                Seq::empty(),
            ),
    {
        let ghost none: Seq<Seq<u8>> = Seq::empty();
        let ghost c = self.model();
        let ghost before = db@;
        let r = match self {
            Command::Ping(p) => {
                let r = p.apply();
                proof {
                    reveal(apply_op);
                    assert((db@, r.model()) == apply_op(before, c, now, none));
                }
                r
            },
            Command::Echo(e) => {
                let r = e.apply();
                proof {
                    reveal(apply_op);
                    assert((db@, r.model()) == apply_op(before, c, now, none));
                }
                r
            },
            Command::Get(g) => {
                let r = g.apply_at(db, now);
                assert((db@, r.model()) == apply_op(before, c, now, none));
                r
            },
            Command::SetString(s) => {
                return s.apply_at(db, now);
            },
            Command::Del(d) => {
                let r = d.apply(db);
                assert((db@, r.model()) == apply_op(before, c, now, none));
                r
            },
            Command::Expire(e) => {
                let r = e.apply_at(db, now);
                assert((db@, r.model()) == apply_op(before, c, now, none));
                r
            },
            Command::Ttl(t) => {
                let r = t.apply_at(db, now);
                assert((db@, r.model()) == apply_op(before, c, now, none));
                r
            },
            Command::List(l) => {
                let r = l.apply_at(db, now);
                assert((db@, r.model()) == apply_op(before, c, now, none));
                r
            },
            Command::Hash(h) => {
                let r = h.apply_at(db, now);
                assert((db@, r.model()) == apply_op(before, c, now, none));
                r
            },
            Command::SetCmd(sc) => {
                let r = sc.apply_at(db, now);
                assert((db@, r.model()) == apply_op(before, c, now, none));
                r
            },
            Command::Keys(k) => {
                let r = k.apply_at(db, now);
                assert((db@, r.model()) == apply_op(before, c, now, none));
                r
            },
            Command::Scan(sc) => {
                let r = sc.apply_at(db, now);
                assert((db@, r.model()) == apply_op(before, c, now, none));
                r
            },
            Command::PubSub(_) => {
                let r = Frame::Error(text("ERR invalid pubsub command execution"));
                proof {
                    reveal(apply_op);
                    assert((db@, r.model()) == apply_op(before, c, now, none));
                }
                r
            },
            Command::Command => {
                let v: Vec<Frame> = Vec::new();
                assert(models(v@) =~= Seq::<FrameModel>::empty());
                let r = array_frame(v);
                proof {
                    reveal(apply_op);
                    assert((db@, r.model()) == apply_op(before, c, now, none));
                }
                r
            },
        };
        assert((db@, r.model()) == apply_op(before, c, now, none));
        assert(allowed_evictions(before, c, none));
        r
    }

    /// Runs the command against the database and answers the reply.
    pub fn apply(self, db: &mut Db) -> (r: Frame)
        requires
            old(db).wf(),
        ensures
            final(db).wf(),
            exists|now: u64, evicted: Seq<Seq<u8>>|
                {
                    &&& allowed_evictions(old(db)@, self.model(), evicted)
                    &&& (final(db)@, r.model()) == apply_op(old(db)@, self.model(), now, evicted)
                },
    {
        let now = db.now_millis();
        self.apply_at(db, now)
    }
}

} // verus!
