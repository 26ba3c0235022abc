//! The command interpreter: a pure function from a decoded protocol
//! value to a validated command, and the dispatch of a command against
//! the store. Unrecognized or malformed input degrades to `Unknown`,
//! which is answered with an error reply; it never aborts anything.

use vstd::prelude::*;

use crate::cache::{spec_get, spec_set, Cache, ItemModel};
use crate::resp::{parse_int, spec_parse_i64, Value, ValueModel, views_from, lemma_views_from};

verus! {

/// Lower-cases one ASCII byte; every other byte is unchanged.
pub open spec fn spec_lower_byte(b: u8) -> u8 {
    if 65 <= b <= 90 {
        (b + 32) as u8
    } else {
        b
    }
}

/// Lower-cases the ASCII letters of a byte sequence.
pub open spec fn spec_ascii_lower(s: Seq<u8>) -> Seq<u8> {
    s.map(|i: int, b: u8| spec_lower_byte(b))
}

/// Lower-cases the ASCII letters of a byte string, as command names
/// are matched case-insensitively.
pub fn ascii_lower(s: &Vec<u8>) -> (r: Vec<u8>)
    ensures
        r@ == spec_ascii_lower(s@),
{
    let mut out: Vec<u8> = Vec::new();
    let mut i: usize = 0;
    while i < s.len()
        invariant
            i <= s.len(),
            out@.len() == i,
            forall|j: int| 0 <= j < i ==> out@[j] == spec_lower_byte(s@[j]),
        decreases s.len() - i,
    {
        let b = s[i];
        if 65 <= b && b <= 90 {
            out.push(b + 32);
        } else {
            out.push(b);
        }
        i = i + 1;
    }
    proof {
        assert(out@ =~= spec_ascii_lower(s@));
    }
    out
}

/// One validated command.
#[derive(Debug)]
pub enum Command {
    /// `PING`, extra arguments ignored.
    Ping,
    /// `ECHO value`: replies with the supplied value, whatever it is.
    Echo(Value),
    /// `SET key value`, with an optional time-to-live in milliseconds.
    Store(Vec<u8>, Vec<u8>, Option<u64>),
    /// `GET key`.
    Get(Vec<u8>),
    /// Anything unrecognized or malformed, carrying the offending
    /// token (empty when the request had no command name at all).
    Unknown(Vec<u8>),
}

/// The mathematical model of a command.
pub enum CommandModel {
    Ping,
    Echo(ValueModel),
    Store(Seq<u8>, Seq<u8>, Option<u64>),
    Get(Seq<u8>),
    Unknown(Seq<u8>),
}

impl View for Command {
    type V = CommandModel;

    open spec fn view(&self) -> CommandModel {
        match self {
            Command::Ping => CommandModel::Ping,
            Command::Echo(v) => CommandModel::Echo(v@),
            Command::Store(k, v, e) => CommandModel::Store(k@, v@, *e),
            Command::Get(k) => CommandModel::Get(k@),
            Command::Unknown(t) => CommandModel::Unknown(t@),
        }
    }
}

/// The bytes of the command name "ping".
pub open spec fn tok_ping() -> Seq<u8> {
    seq![112u8, 105u8, 110u8, 103u8]
}

/// The bytes of the command name "echo".
pub open spec fn tok_echo() -> Seq<u8> {
    seq![101u8, 99u8, 104u8, 111u8]
}

/// The bytes of the command name "get".
pub open spec fn tok_get() -> Seq<u8> {
    seq![103u8, 101u8, 116u8]
}

/// The bytes of the command name "set".
pub open spec fn tok_set() -> Seq<u8> {
    seq![115u8, 101u8, 116u8]
}

/// The bytes of the expiry modifier "px" (milliseconds).
pub open spec fn tok_px() -> Seq<u8> {
    seq![112u8, 120u8]
}

/// The bytes of the expiry modifier "ex" (seconds).
pub open spec fn tok_ex() -> Seq<u8> {
    seq![101u8, 120u8]
}

/// The time-to-live named by a `SET` command's optional modifier pair:
/// `px n` is `n` milliseconds, `ex n` is `n` seconds, converted to
/// milliseconds. A missing, unrecognized or non-numeric modifier, a
/// negative duration, and a duration whose conversion would not fit
/// `u64` all degrade to no expiry rather than to an error.
pub open spec fn spec_ttl(items: Seq<ValueModel>) -> Option<u64> {
    if items.len() < 5 {
        None
    } else {
        match (items[3], items[4]) {
            (ValueModel::BulkString(m), ValueModel::BulkString(d)) => {
                let lm = spec_ascii_lower(m);
                if lm == tok_px() {
                    match spec_parse_i64(d) {
                        Some(x) => if 0 <= x {
                            Some(x as u64)
                        } else {
                            None
                        },
                        None => None,
                    }
                } else if lm == tok_ex() {
                    match spec_parse_i64(d) {
                        Some(x) => if 0 <= x && x * 1000 <= u64::MAX {
                            Some((x * 1000) as u64)
                        } else {
                            None
                        },
                        None => None,
                    }
                } else {
                    None
                }
            },
            _ => None,
        }
    }
}

/// The command named by a lower-cased command name and the request's
/// elements.
pub open spec fn spec_dispatch(name: Seq<u8>, items: Seq<ValueModel>) -> CommandModel {
    if name == tok_ping() {
        CommandModel::Ping
    } else if name == tok_echo() {
        if items.len() >= 2 {
            CommandModel::Echo(items[1])
        } else {
            CommandModel::Unknown(name)
        }
    } else if name == tok_get() {
        if items.len() >= 2 {
            match items[1] {
                ValueModel::BulkString(k) => CommandModel::Get(k),
                _ => CommandModel::Unknown(name),
            }
        } else {
            CommandModel::Unknown(name)
        }
    } else if name == tok_set() {
        if items.len() >= 3 {
            match (items[1], items[2]) {
                (ValueModel::BulkString(k), ValueModel::BulkString(v)) => CommandModel::Store(
                    k,
                    v,
                    spec_ttl(items),
                ),
                _ => CommandModel::Unknown(name),
            }
        } else {
            CommandModel::Unknown(name)
        }
    } else {
        CommandModel::Unknown(name)
    }
}

/// The command a decoded protocol value names: an array whose first
/// element is a bulk string selects by that name, lower-cased; any
/// other shape is unknown.
pub open spec fn spec_extract_command(v: ValueModel) -> CommandModel {
    match v {
        ValueModel::Array(items) => if items.len() == 0 {
            CommandModel::Unknown(Seq::empty())
        } else {
            match items[0] {
                ValueModel::BulkString(name) => spec_dispatch(spec_ascii_lower(name), items),
                _ => CommandModel::Unknown(Seq::empty()),
            }
        },
        _ => CommandModel::Unknown(Seq::empty()),
    }
}

/// Whether `s` is exactly the two given bytes.
fn is_tok2(s: &Vec<u8>, b0: u8, b1: u8) -> (r: bool)
    ensures
        r == (s@ == seq![b0, b1]),
{
    if s.len() != 2 {
        return false;
    }
    let r = s[0] == b0 && s[1] == b1;
    proof {
        if r {
            assert(s@ =~= seq![b0, b1]);
        }
    }
    r
}

/// Whether `s` is exactly the three given bytes.
fn is_tok3(s: &Vec<u8>, b0: u8, b1: u8, b2: u8) -> (r: bool)
    ensures
        r == (s@ == seq![b0, b1, b2]),
{
    if s.len() != 3 {
        return false;
    }
    let r = s[0] == b0 && s[1] == b1 && s[2] == b2;
    proof {
        if r {
            assert(s@ =~= seq![b0, b1, b2]);
        }
    }
    r
}

/// Whether `s` is exactly the four given bytes.
fn is_tok4(s: &Vec<u8>, b0: u8, b1: u8, b2: u8, b3: u8) -> (r: bool)
    ensures
        r == (s@ == seq![b0, b1, b2, b3]),
{
    if s.len() != 4 {
        return false;
    }
    let r = s[0] == b0 && s[1] == b1 && s[2] == b2 && s[3] == b3;
    proof {
        if r {
            assert(s@ =~= seq![b0, b1, b2, b3]);
        }
    }
    r
}

/// The payload of a bulk string; any other value is refused.
pub fn unpack_bulk_str(value: Value) -> (r: Result<Vec<u8>, Value>)
    ensures
        match r {
            Ok(s) => value@ == ValueModel::BulkString(s@),
            Err(v) => v == value && !(value@ is BulkString),
        },
{
    match value {
        Value::BulkString(s) => Ok(s),
        other => Err(other),
    }
}

/// The time-to-live of a `SET` request, read from its optional
/// modifier pair.
fn parse_ttl(items: &Vec<Value>) -> (r: Option<u64>)
    ensures
        r == spec_ttl(views_from(*items, 0)),
{
    proof {
        lemma_views_from(*items, 0);
    }
    if items.len() < 5 {
        return None;
    }
    match (&items[3], &items[4]) {
        (Value::BulkString(mb), Value::BulkString(db)) => {
            let lm = ascii_lower(mb);
            if is_tok2(&lm, 112, 120) {
                // "px": the duration is already in milliseconds.
                match parse_int(db.as_slice()) {
                    Some(x) => if x >= 0 {
                        Some(x as u64)
                    } else {
                        None
                    },
                    None => None,
                }
            } else if is_tok2(&lm, 101, 120) {
                // "ex": seconds, converted to milliseconds.
                match parse_int(db.as_slice()) {
                    Some(x) => if x >= 0 && (x as u64) <= u64::MAX / 1000 {
                        Some((x as u64) * 1000)
                    } else {
                        None
                    },
                    None => None,
                }
            } else {
                None
            }
        },
        _ => None,
    }
}

/// Selects the command once the name is in hand, lower-cased.
fn dispatch(lname: Vec<u8>, items: Vec<Value>) -> (r: Command)
    ensures
        r@ == spec_dispatch(lname@, views_from(items, 0)),
{
    proof {
        lemma_views_from(items, 0);
    }
    if is_tok4(&lname, 112, 105, 110, 103) {
        // "ping"
        return Command::Ping;
    }
    if is_tok4(&lname, 101, 99, 104, 111) {
        // "echo"
        if items.len() >= 2 {
            let mut items = items;
            let v = items.remove(1);
            return Command::Echo(v);
        }
        return Command::Unknown(lname);
    }
    if is_tok3(&lname, 103, 101, 116) {
        // "get"
        if items.len() >= 2 {
            let mut items = items;
            let second = items.remove(1);
            match second {
                Value::BulkString(k) => {
                    return Command::Get(k);
                },
                _ => {
                    return Command::Unknown(lname);
                },
            }
        }
        return Command::Unknown(lname);
    }
    if is_tok3(&lname, 115, 101, 116) {
        // "set"
        if items.len() >= 3 {
            let ttl = parse_ttl(&items);
            let mut items = items;
            let ghost items0 = items@;
            let second = items.remove(1);
            let third = items.remove(1);
            proof {
                assert(items0.remove(1)[1] == items0[2]);
            }
            match (second, third) {
                (Value::BulkString(k), Value::BulkString(v)) => {
                    return Command::Store(k, v, ttl);
                },
                _ => {
                    return Command::Unknown(lname);
                },
            }
        }
        return Command::Unknown(lname);
    }
    Command::Unknown(lname)
}

/// Interprets a decoded protocol value as a command, validating its
/// shape and arity. Pure: no I/O, no shared state.
pub fn extract_command(value: Value) -> (r: Command)
    ensures
        r@ == spec_extract_command(value@),
{
    match value {
        Value::Array(items) => {
            if items.len() == 0 {
                return Command::Unknown(Vec::new());
            }
            proof {
                lemma_views_from(items, 0);
            }
            match &items[0] {
                Value::BulkString(name) => {
                    let lname = ascii_lower(name);
                    dispatch(lname, items)
                },
                _ => Command::Unknown(Vec::new()),
            }
        },
        _ => Command::Unknown(Vec::new()),
    }
}

/// The bytes of the reply text "PONG".
pub open spec fn text_pong() -> Seq<u8> {
    seq![80u8, 79u8, 78u8, 71u8]
}

/// The bytes of the reply text "OK".
pub open spec fn text_ok() -> Seq<u8> {
    seq![79u8, 75u8]
}

/// The bytes of the reply text "ERR unknown command".
pub open spec fn text_err_unknown() -> Seq<u8> {
    seq![69u8, 82u8, 82u8, 32u8, 117u8, 110u8, 107u8, 110u8, 111u8, 119u8, 110u8, 32u8, 99u8,
        111u8, 109u8, 109u8, 97u8, 110u8, 100u8]
}

/// Builds the reply text "PONG".
fn pong_bytes() -> (r: Vec<u8>)
    ensures
        r@ == text_pong(),
{
    let mut v: Vec<u8> = Vec::new();
    v.push(80);
    v.push(79);
    v.push(78);
    v.push(71);
    proof {
        assert(v@ =~= text_pong());
    }
    v
}

/// Builds the reply text "OK".
fn ok_bytes() -> (r: Vec<u8>)
    ensures
        r@ == text_ok(),
{
    let mut v: Vec<u8> = Vec::new();
    v.push(79);
    v.push(75);
    proof {
        assert(v@ =~= text_ok());
    }
    v
}

/// Builds the reply text "ERR unknown command".
fn err_unknown_bytes() -> (r: Vec<u8>)
    ensures
        r@ == text_err_unknown(),
{
    let mut v: Vec<u8> = Vec::new();
    v.push(69);
    v.push(82);
    v.push(82);
    v.push(32);
    v.push(117);
    v.push(110);
    v.push(107);
    v.push(110);
    v.push(111);
    v.push(119);
    v.push(110);
    v.push(32);
    v.push(99);
    v.push(111);
    v.push(109);
    v.push(109);
    v.push(97);
    v.push(110);
    v.push(100);
    proof {
        assert(v@ =~= text_err_unknown());
    }
    v
}

/// The reply a command earns and the store it leaves behind, at clock
/// reading `now`:
/// `PING` a "PONG" status; `ECHO` the supplied value unchanged; `SET`
/// an "OK" status with the store updated; `GET` the live value or the
/// null bulk string, the store untouched; anything unknown an error
/// status, with the connection expected to stay open.
pub open spec fn spec_reply(cmd: CommandModel, m: Map<Seq<u8>, ItemModel>, now: int) -> (
    ValueModel,
    Map<Seq<u8>, ItemModel>,
) {
    match cmd {
        CommandModel::Ping => (ValueModel::SimpleString(text_pong()), m),
        CommandModel::Echo(v) => (v, m),
        CommandModel::Store(k, v, ttl) => (
            ValueModel::SimpleString(text_ok()),
            spec_set(m, k, v, ttl, now),
        ),
        CommandModel::Get(k) => (
            match spec_get(m, k, now) {
                Some(v) => ValueModel::BulkString(v),
                None => ValueModel::NullBulkString,
            },
            m,
        ),
        CommandModel::Unknown(t) => (ValueModel::SimpleString(text_err_unknown()), m),
    }
}

/// Runs one decoded request against the store at clock reading `now`
/// and produces the reply to encode. One critical section around the
/// shared store spans at most one call of this function per request.
pub fn handle_value(cache: &mut Cache, value: Value, now: u64) -> (reply: Value)
    requires
        old(cache).wf(),
    ensures
        final(cache).wf(),
        reply@ == spec_reply(spec_extract_command(value@), old(cache)@, now as int).0,
        final(cache)@ == spec_reply(spec_extract_command(value@), old(cache)@, now as int).1,
{
    let command = extract_command(value);
    match command {
        Command::Ping => Value::SimpleString(pong_bytes()),
        Command::Echo(v) => v,
        Command::Store(k, v, e) => {
            cache.set(&k, &v, &e, now);
            Value::SimpleString(ok_bytes())
        },
        Command::Get(k) => match cache.get(&k, now) {
            Some(v) => Value::BulkString(v),
            None => Value::NullBulkString,
        },
        Command::Unknown(_) => Value::SimpleString(err_unknown_bytes()),
    }
}

} // verus!
