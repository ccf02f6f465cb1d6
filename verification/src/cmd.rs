//! The command layer: an array frame becomes a typed command, is
//! checked for arity and shape, runs against the backend, and yields a
//! response frame. `parse_cmd` is the model every parser is held to.

pub mod hmap;
pub mod map;

use crate::backend::Backend;
use crate::resp::decode::to_vec_bytes;
use crate::resp::frame::RespArray;
use crate::resp::frame::RespFrame;
use crate::resp::frame::SimpleString;
use crate::resp::model::FrameData;
use vstd::prelude::*;

verus! {

/// Why a frame is not a legal command. The frame itself decoded, so
/// the connection survives: these become SimpleError replies.
#[derive(Debug, Clone, Copy, PartialEq, Eq, Structural)]
pub enum CommandError {
    InvalidCommand,
    InvalidCommandFormat,
    InvalidCommandArguments,
    InvalidCommandArgumentsLength,
    CommandNotFound,
    FromUtf8Error,
}

/// One request, decoded and validated.
#[derive(Debug)]
pub enum Command {
    Get(Get),
    SetCmd(SetCmd),
    HGet(HGet),
    HSet(HSet),
    HGetAll(HGetAll),
    Unrecognized(Unrecognized),
}

#[derive(Debug)]
pub struct Get {
    pub key: Vec<u8>,
}

#[derive(Debug)]
pub struct SetCmd {
    pub key: Vec<u8>,
    pub value: RespFrame,
}

#[derive(Debug)]
pub struct HGet {
    pub key: Vec<u8>,
    pub field: Vec<u8>,
}

#[derive(Debug)]
pub struct HSet {
    pub key: Vec<u8>,
    pub field: Vec<u8>,
    pub value: RespFrame,
}

#[derive(Debug)]
pub struct HGetAll {
    pub key: Vec<u8>,
    pub sort: bool,
}

#[derive(Debug)]
pub struct Unrecognized;

/// The abstract value of a command.
pub enum CommandData {
    Get { key: Seq<u8> },
    SetCmd { key: Seq<u8>, value: FrameData },
    HGet { key: Seq<u8>, field: Seq<u8> },
    HSet { key: Seq<u8>, field: Seq<u8>, value: FrameData },
    HGetAll { key: Seq<u8>, sort: bool },
    Unrecognized,
}

pub open spec fn cmd_view(c: Command) -> CommandData {
    match c {
        Command::Get(g) => CommandData::Get { key: g.key@ },
        Command::SetCmd(s) => CommandData::SetCmd { key: s.key@, value: s.value@ },
        Command::HGet(h) => CommandData::HGet { key: h.key@, field: h.field@ },
        Command::HSet(h) => CommandData::HSet {
            key: h.key@,
            field: h.field@,
            value: h.value@,
        },
        Command::HGetAll(h) => CommandData::HGetAll { key: h.key@, sort: h.sort },
        Command::Unrecognized(_) => CommandData::Unrecognized,
    }
}

// ---------------------------------------------------------------------
// Byte text helpers: case folding, trimming, UTF-8
// ---------------------------------------------------------------------

pub open spec fn lower_b(b: u8) -> u8 {
    if 65 <= b <= 90 {
        (b + 32) as u8
    } else {
        b
    }
}

/// ASCII lowercasing of a byte text.
pub open spec fn lower(s: Seq<u8>) -> Seq<u8> {
    Seq::new(s.len(), |i: int| lower_b(s[i]))
}

pub open spec fn is_ws(b: u8) -> bool {
    b == 32 || b == 9 || b == 10 || b == 12 || b == 13
}

/// First non-whitespace index at or after `i`.
pub open spec fn ws_from(s: Seq<u8>, i: int) -> int
    decreases s.len() - i,
{
    if 0 <= i < s.len() && is_ws(s[i]) {
        ws_from(s, i + 1)
    } else {
        i
    }
}

/// End of the text once trailing whitespace before `i` is dropped.
pub open spec fn ws_back(s: Seq<u8>, i: int) -> int
    decreases i,
{
    if 0 < i <= s.len() && is_ws(s[i - 1]) {
        ws_back(s, i - 1)
    } else {
        i
    }
}

/// The text with ASCII whitespace removed from both ends.
pub open spec fn trim_ws(s: Seq<u8>) -> Seq<u8> {
    let a = ws_from(s, 0);
    let b = ws_back(s, s.len() as int);
    if a <= b {
        s.subrange(a, b)
    } else {
        Seq::empty()
    }
}

pub open spec fn is_cont(b: u8) -> bool {
    0x80 <= b <= 0xBF
}

/// Whether `s` is well-formed UTF-8.
pub open spec fn is_utf8(s: Seq<u8>) -> bool
    decreases s.len(),
{
    if s.len() == 0 {
        true
    } else if s[0] < 0x80 {
        is_utf8(s.skip(1))
    } else if s[0] < 0xC2 {
        false
    } else if s[0] <= 0xDF {
        s.len() >= 2 && is_cont(s[1]) && is_utf8(s.skip(2))
    } else if s[0] <= 0xEF {
        &&& s.len() >= 3
        &&& (if s[0] == 0xE0 {
            0xA0 <= s[1] <= 0xBF
        } else if s[0] == 0xED {
            0x80 <= s[1] <= 0x9F
        } else {
            is_cont(s[1])
        })
        &&& is_cont(s[2])
        &&& is_utf8(s.skip(3))
    } else if s[0] <= 0xF4 {
        &&& s.len() >= 4
        &&& (if s[0] == 0xF0 {
            0x90 <= s[1] <= 0xBF
        } else if s[0] == 0xF4 {
            0x80 <= s[1] <= 0x8F
        } else {
            is_cont(s[1])
        })
        &&& is_cont(s[2])
        &&& is_cont(s[3])
        &&& is_utf8(s.skip(4))
    } else {
        false
    }
}

/// ASCII lowercasing, byte by byte.
pub fn lower_bytes(b: &[u8]) -> (r: Vec<u8>)
    ensures
        r@ == lower(b@),
{
    let mut out: Vec<u8> = Vec::new();
    let mut i: usize = 0;
    while i < b.len()
        invariant
            i <= b@.len(),
            out@.len() == i,
            forall|j: int| 0 <= j < i ==> out@[j] == lower_b(b@[j]),
        decreases b@.len() - i,
    {
        let c = b[i];
        if c >= 65 && c <= 90 {
            out.push(c + 32);
        } else {
            out.push(c);
        }
        i += 1;
    }
    proof {
        assert(out@ =~= lower(b@));
    }
    out
}

/// ASCII whitespace stripped from both ends.
pub fn trim_bytes(b: &[u8]) -> (r: Vec<u8>)
    ensures
        r@ == trim_ws(b@),
{
    let n = b.len();
    let mut a: usize = 0;
    while a < n && (b[a] == 32 || b[a] == 9 || b[a] == 10 || b[a] == 12 || b[a] == 13)
        invariant
            a <= n,
            n == b@.len(),
            ws_from(b@, 0) == ws_from(b@, a as int),
        decreases n - a,
    {
        a += 1;
    }
    let mut e: usize = n;
    while e > 0 && (b[e - 1] == 32 || b[e - 1] == 9 || b[e - 1] == 10 || b[e - 1] == 12 || b[e
        - 1] == 13)
        invariant
            e <= n,
            n == b@.len(),
            ws_back(b@, n as int) == ws_back(b@, e as int),
        decreases e,
    {
        e -= 1;
    }
    if a <= e {
        to_vec_bytes(&b[a..e])
    } else {
        Vec::new()
    }
}

/// Whether the bytes are well-formed UTF-8.
pub fn utf8_check(t: &[u8]) -> (r: bool)
    ensures
        r == is_utf8(t@),
{
    let n = t.len();
    let mut i: usize = 0;
    proof {
        assert(t@.skip(0) =~= t@);
    }
    while i < n
        invariant
            i <= n,
            n == t@.len(),
            is_utf8(t@) == is_utf8(t@.skip(i as int)),
        decreases n - i,
    {
        let b0 = t[i];
        if b0 < 0x80 {
            proof {
                assert(t@.skip(i as int).skip(1) =~= t@.skip(i + 1));
            }
            i += 1;
        } else if b0 < 0xC2 {
            return false;
        } else if b0 <= 0xDF {
            if n - i < 2 || !(0x80 <= t[i + 1] && t[i + 1] <= 0xBF) {
                return false;
            }
            proof {
                assert(t@.skip(i as int).skip(2) =~= t@.skip(i + 2));
            }
            i += 2;
        } else if b0 <= 0xEF {
            if n - i < 3 {
                return false;
            }
            let b1 = t[i + 1];
            let b2 = t[i + 2];
            let lo: u8 = if b0 == 0xE0 {
                0xA0
            } else {
                0x80
            };
            let hi: u8 = if b0 == 0xED {
                0x9F
            } else {
                0xBF
            };
            if !(lo <= b1 && b1 <= hi) || !(0x80 <= b2 && b2 <= 0xBF) {
                return false;
            }
            proof {
                assert(t@.skip(i as int).skip(3) =~= t@.skip(i + 3));
            }
            i += 3;
        } else if b0 <= 0xF4 {
            if n - i < 4 {
                return false;
            }
            let b1 = t[i + 1];
            let b2 = t[i + 2];
            let b3 = t[i + 3];
            let lo: u8 = if b0 == 0xF0 {
                0x90
            } else {
                0x80
            };
            let hi: u8 = if b0 == 0xF4 {
                0x8F
            } else {
                0xBF
            };
            if !(lo <= b1 && b1 <= hi) || !(0x80 <= b2 && b2 <= 0xBF) || !(0x80 <= b3 && b3
                <= 0xBF) {
                return false;
            }
            proof {
                assert(t@.skip(i as int).skip(4) =~= t@.skip(i + 4));
            }
            i += 4;
        } else {
            return false;
        }
    }
    true
}

// ---------------------------------------------------------------------
// The command grammar
// ---------------------------------------------------------------------

pub open spec fn name_get() -> Seq<u8> {
    seq![103u8, 101u8, 116u8]
}

pub open spec fn name_set() -> Seq<u8> {
    seq![115u8, 101u8, 116u8]
}

pub open spec fn name_hget() -> Seq<u8> {
    seq![104u8, 103u8, 101u8, 116u8]
}

pub open spec fn name_hset() -> Seq<u8> {
    seq![104u8, 115u8, 101u8, 116u8]
}

pub open spec fn name_hgetall() -> Seq<u8> {
    seq![104u8, 103u8, 101u8, 116u8, 97u8, 108u8, 108u8]
}

/// The command's name slot holds a BulkString that case-folds to
/// `name`.
pub open spec fn head_is(items: Seq<FrameData>, name: Seq<u8>) -> bool {
    items[0] matches FrameData::BulkString(c) && lower(c) == lower(name)
}

pub open spec fn parse_get(items: Seq<FrameData>) -> Result<CommandData, CommandError> {
    if items.len() != 2 {
        Err(CommandError::InvalidCommandArguments)
    } else if !head_is(items, name_get()) {
        Err(CommandError::InvalidCommand)
    } else {
        match items[1] {
            FrameData::BulkString(k) => if is_utf8(k) {
                Ok(CommandData::Get { key: k })
            } else {
                Err(CommandError::FromUtf8Error)
            },
            _ => Err(CommandError::InvalidCommand),
        }
    }
}

pub open spec fn parse_set(items: Seq<FrameData>) -> Result<CommandData, CommandError> {
    if items.len() != 3 {
        Err(CommandError::InvalidCommandArguments)
    } else if !head_is(items, name_set()) {
        Err(CommandError::InvalidCommand)
    } else {
        match items[1] {
            FrameData::BulkString(k) => if is_utf8(k) {
                Ok(CommandData::SetCmd { key: k, value: items[2] })
            } else {
                Err(CommandError::FromUtf8Error)
            },
            _ => Err(CommandError::InvalidCommand),
        }
    }
}

pub open spec fn parse_hget(items: Seq<FrameData>) -> Result<CommandData, CommandError> {
    if items.len() != 3 {
        Err(CommandError::InvalidCommandArguments)
    } else if !head_is(items, name_hget()) {
        Err(CommandError::InvalidCommand)
    } else {
        match (items[1], items[2]) {
            (FrameData::BulkString(k), FrameData::BulkString(f)) => if !is_utf8(k) {
                Err(CommandError::FromUtf8Error)
            } else if !is_utf8(f) {
                Err(CommandError::FromUtf8Error)
            } else {
                Ok(CommandData::HGet { key: k, field: f })
            },
            _ => Err(CommandError::InvalidCommand),
        }
    }
}

pub open spec fn parse_hset(items: Seq<FrameData>) -> Result<CommandData, CommandError> {
    if items.len() != 4 {
        Err(CommandError::InvalidCommandArguments)
    } else if !head_is(items, name_hset()) {
        Err(CommandError::InvalidCommand)
    } else {
        match (items[1], items[2]) {
            (FrameData::BulkString(k), FrameData::BulkString(f)) => if !is_utf8(k) {
                Err(CommandError::FromUtf8Error)
            } else if !is_utf8(f) {
                Err(CommandError::FromUtf8Error)
            } else {
                Ok(CommandData::HSet { key: k, field: f, value: items[3] })
            },
            _ => Err(CommandError::InvalidCommand),
        }
    }
}

pub open spec fn parse_hgetall(items: Seq<FrameData>) -> Result<CommandData, CommandError> {
    if items.len() != 2 {
        Err(CommandError::InvalidCommandArguments)
    } else if !head_is(items, name_hgetall()) {
        Err(CommandError::InvalidCommand)
    } else {
        match items[1] {
            FrameData::BulkString(k) => if is_utf8(k) {
                Ok(CommandData::HGetAll { key: k, sort: false })
            } else {
                Err(CommandError::FromUtf8Error)
            },
            _ => Err(CommandError::InvalidCommand),
        }
    }
}

/// The whole command grammar: an Array whose first element is a
/// BulkString naming a known command, case-insensitively and ignoring
/// surrounding whitespace; an unknown name is `Unrecognized`.
pub open spec fn parse_cmd(d: FrameData) -> Result<CommandData, CommandError> {
    match d {
        FrameData::Array(items) => {
            if items.len() == 0 {
                Err(CommandError::InvalidCommand)
            } else {
                match items[0] {
                    FrameData::BulkString(c) => {
                        let name = lower(trim_ws(c));
                        if name == name_get() {
                            parse_get(items)
                        } else if name == name_set() {
                            parse_set(items)
                        } else if name == name_hget() {
                            parse_hget(items)
                        } else if name == name_hset() {
                            parse_hset(items)
                        } else if name == name_hgetall() {
                            parse_hgetall(items)
                        } else {
                            Ok(CommandData::Unrecognized)
                        }
                    },
                    _ => Err(CommandError::InvalidCommand),
                }
            }
        },
        _ => Err(CommandError::InvalidCommand),
    }
}

// ---------------------------------------------------------------------
// Shared validation
// ---------------------------------------------------------------------

/// Check the arity and the command-name slot of an array command:
/// exactly `n_args` arguments after the name, and a BulkString name
/// that case-folds to `name`.
pub(crate) fn validate_command(value: &RespArray, name: &[u8], n_args: usize) -> (r: Result<
    (),
    CommandError,
>)
    requires
        n_args < usize::MAX,
    ensures
        match r {
            Ok(()) => value@.len() == n_args + 1 && head_is(value@, name@),
            Err(e) => {
                &&& (e == CommandError::InvalidCommandArguments ==> value@.len() != n_args + 1)
                &&& (e == CommandError::InvalidCommand ==> value@.len() == n_args + 1 && !head_is(
                    value@,
                    name@,
                ))
                &&& (e == CommandError::InvalidCommandArguments || e
                    == CommandError::InvalidCommand)
            },
        },
{
    if value.len() != n_args + 1 {
        return Err(CommandError::InvalidCommandArguments);
    }
    let first = value.get(0);
    match first {
        RespFrame::BulkString(c) => {
            let lc = lower_bytes(c.0.as_slice());
            let ln = lower_bytes(name);
            if crate::resp::frame::bytes_eq(lc.as_slice(), ln.as_slice()) {
                Ok(())
            } else {
                Err(CommandError::InvalidCommand)
            }
        },
        _ => Err(CommandError::InvalidCommand),
    }
}

/// The canonical success reply.
pub(crate) fn resp_ok() -> (r: RespFrame)
    ensures
        r@ == ok_data(),
{
    let mut s: Vec<u8> = Vec::new();
    s.push(79);
    s.push(75);
    proof {
        assert(s@ =~= seq![79u8, 75u8]);
    }
    RespFrame::SimpleString(SimpleString(s))
}

/// The abstract `+OK` reply.
pub open spec fn ok_data() -> FrameData {
    FrameData::SimpleString(seq![79u8, 75u8])
}

impl Unrecognized {
    /// An unknown command is a no-op that still succeeds.
    pub fn execute(self, backend: &mut Backend) -> (r: RespFrame)
        ensures
            *final(backend) == *old(backend),
            r@ == ok_data(),
    {
        let _ = backend;
        resp_ok()
    }
}

impl Command {
    /// Parse a decoded frame into a command: only an Array can be one.
    pub fn try_from(v: RespFrame) -> (r: Result<Command, CommandError>)
        ensures
            match r {
                Ok(c) => parse_cmd(v@) == Ok::<CommandData, CommandError>(cmd_view(c)),
                Err(e) => parse_cmd(v@) == Err::<CommandData, CommandError>(e),
            },
    {
        match v {
            RespFrame::Array(array) => Command::try_from_array(array),
            _ => Err(CommandError::InvalidCommand),
        }
    }

    /// Dispatch on the (trimmed, case-folded) command name.
    pub fn try_from_array(v: RespArray) -> (r: Result<Command, CommandError>)
        ensures
            match r {
                Ok(c) => parse_cmd(FrameData::Array(v@)) == Ok::<CommandData, CommandError>(
                    cmd_view(c),
                ),
                Err(e) => parse_cmd(FrameData::Array(v@)) == Err::<CommandData, CommandError>(e),
            },
    {
        if v.len() == 0 {
            return Err(CommandError::InvalidCommand);
        }
        let name: Vec<u8> = match v.get(0) {
            RespFrame::BulkString(c) => {
                let t = trim_bytes(c.0.as_slice());
                lower_bytes(t.as_slice())
            },
            _ => {
                return Err(CommandError::InvalidCommand);
            },
        };
        let ns = name.as_slice();
        if crate::resp::frame::bytes_eq(ns, &[103, 101, 116]) {
            proof {
                assert([103u8, 101u8, 116u8]@ =~= name_get());
            }
            match Get::try_from(v) {
                Ok(c) => Ok(Command::Get(c)),
                Err(e) => Err(e),
            }
        } else if crate::resp::frame::bytes_eq(ns, &[115, 101, 116]) {
            proof {
                assert([115u8, 101u8, 116u8]@ =~= name_set());
            }
            match SetCmd::try_from(v) {
                Ok(c) => Ok(Command::SetCmd(c)),
                Err(e) => Err(e),
            }
        } else if crate::resp::frame::bytes_eq(ns, &[104, 103, 101, 116]) {
            proof {
                assert([104u8, 103u8, 101u8, 116u8]@ =~= name_hget());
            }
            match HGet::try_from(v) {
                Ok(c) => Ok(Command::HGet(c)),
                Err(e) => Err(e),
            }
        } else if crate::resp::frame::bytes_eq(ns, &[104, 115, 101, 116]) {
            proof {
                assert([104u8, 115u8, 101u8, 116u8]@ =~= name_hset());
            }
            match HSet::try_from(v) {
                Ok(c) => Ok(Command::HSet(c)),
                Err(e) => Err(e),
            }
        } else if crate::resp::frame::bytes_eq(ns, &[104, 103, 101, 116, 97, 108, 108]) {
            proof {
                assert([104u8, 103u8, 101u8, 116u8, 97u8, 108u8, 108u8]@ =~= name_hgetall());
            }
            match HGetAll::try_from(v) {
                Ok(c) => Ok(Command::HGetAll(c)),
                Err(e) => Err(e),
            }
        } else {
            proof {
                assert([103u8, 101u8, 116u8]@ =~= name_get());
                assert([115u8, 101u8, 116u8]@ =~= name_set());
                assert([104u8, 103u8, 101u8, 116u8]@ =~= name_hget());
                assert([104u8, 115u8, 101u8, 116u8]@ =~= name_hset());
                assert([104u8, 103u8, 101u8, 116u8, 97u8, 108u8, 108u8]@ =~= name_hgetall());
            }
            Ok(Command::Unrecognized(Unrecognized))
        }
    }

    /// Run the command against the backend and produce the reply.
    pub fn execute(self, backend: &mut Backend) -> (r: RespFrame)
        ensures
            exec_post(cmd_view(self), *old(backend), *final(backend), r),
    {
        match self {
            Command::Get(c) => c.execute(backend),
            Command::SetCmd(c) => c.execute(backend),
            Command::HGet(c) => c.execute(backend),
            Command::HSet(c) => c.execute(backend),
            Command::HGetAll(c) => c.execute(backend),
            Command::Unrecognized(c) => c.execute(backend),
        }
    }
}



/// The wire text `ERR invalid command`.
pub open spec fn err_text_invalid_command() -> Seq<u8> {
    seq![69u8, 82u8, 82u8, 32u8, 105u8, 110u8, 118u8, 97u8, 108u8, 105u8, 100u8, 32u8, 99u8, 111u8, 109u8, 109u8, 97u8, 110u8, 100u8]
}

/// The wire text `ERR invalid command format`.
pub open spec fn err_text_invalid_format() -> Seq<u8> {
    seq![69u8, 82u8, 82u8, 32u8, 105u8, 110u8, 118u8, 97u8, 108u8, 105u8, 100u8, 32u8, 99u8, 111u8, 109u8, 109u8, 97u8, 110u8, 100u8, 32u8, 102u8, 111u8, 114u8, 109u8, 97u8, 116u8]
}

/// The wire text `ERR invalid command arguments`.
pub open spec fn err_text_invalid_arguments() -> Seq<u8> {
    seq![69u8, 82u8, 82u8, 32u8, 105u8, 110u8, 118u8, 97u8, 108u8, 105u8, 100u8, 32u8, 99u8, 111u8, 109u8, 109u8, 97u8, 110u8, 100u8, 32u8, 97u8, 114u8, 103u8, 117u8, 109u8, 101u8, 110u8, 116u8, 115u8]
}

/// The wire text `ERR invalid command arguments length`.
pub open spec fn err_text_invalid_arguments_length() -> Seq<u8> {
    seq![69u8, 82u8, 82u8, 32u8, 105u8, 110u8, 118u8, 97u8, 108u8, 105u8, 100u8, 32u8, 99u8, 111u8, 109u8, 109u8, 97u8, 110u8, 100u8, 32u8, 97u8, 114u8, 103u8, 117u8, 109u8, 101u8, 110u8, 116u8, 115u8, 32u8, 108u8, 101u8, 110u8, 103u8, 116u8, 104u8]
}

/// The wire text `ERR command not found`.
pub open spec fn err_text_not_found() -> Seq<u8> {
    seq![69u8, 82u8, 82u8, 32u8, 99u8, 111u8, 109u8, 109u8, 97u8, 110u8, 100u8, 32u8, 110u8, 111u8, 116u8, 32u8, 102u8, 111u8, 117u8, 110u8, 100u8]
}

/// The wire text `ERR invalid utf-8 in key or field`.
pub open spec fn err_text_utf8() -> Seq<u8> {
    seq![69u8, 82u8, 82u8, 32u8, 105u8, 110u8, 118u8, 97u8, 108u8, 105u8, 100u8, 32u8, 117u8, 116u8, 102u8, 45u8, 56u8, 32u8, 105u8, 110u8, 32u8, 107u8, 101u8, 121u8, 32u8, 111u8, 114u8, 32u8, 102u8, 105u8, 101u8, 108u8, 100u8]
}

/// What executing a command does: the relation between the backend
/// before, the backend after, and the reply.
pub open spec fn exec_post(cd: CommandData, b0: Backend, b1: Backend, r: RespFrame) -> bool {
    match cd {
        CommandData::Get { key } => b1 == b0 && (match b0.kv_at(key) {
            Some(d) => r@ == d,
            None => r@ == FrameData::Null,
        }),
        CommandData::SetCmd { key, value } => {
            &&& b1.kv_at(key) == Some(value)
            &&& forall|k2: Seq<u8>| k2 != key ==> #[trigger] b1.kv_at(k2) == b0.kv_at(k2)
            &&& forall|k2: Seq<u8>| #[trigger] b1.hpairs(k2) == b0.hpairs(k2)
            &&& r@ == ok_data()
        },
        CommandData::HGet { key, field } => b1 == b0 && (match b0.hm_at(key, field) {
            Some(d) => r@ == d,
            None => r@ == FrameData::Null,
        }),
        CommandData::HSet { key, field, value } => {
            &&& b1.hm_at(key, field) == Some(value)
            &&& forall|f2: Seq<u8>|
                f2 != field ==> #[trigger] b1.hm_at(key, f2) == b0.hm_at(key, f2)
            &&& forall|k2: Seq<u8>| k2 != key ==> #[trigger] b1.hpairs(k2) == b0.hpairs(k2)
            &&& forall|k2: Seq<u8>| #[trigger] b1.kv_at(k2) == b0.kv_at(k2)
            &&& r@ == ok_data()
        },
        CommandData::HGetAll { key, sort } => b1 == b0 && crate::cmd::hmap::hgetall_post(
            b0,
            key,
            sort,
            r,
        ),
        CommandData::Unrecognized => b1 == b0 && r@ == ok_data(),
    }
}

/// The message a command error is reported with on the wire.
pub open spec fn err_text(e: CommandError) -> Seq<u8> {
    match e {
        CommandError::InvalidCommand => err_text_invalid_command(),
        CommandError::InvalidCommandFormat => err_text_invalid_format(),
        CommandError::InvalidCommandArguments => err_text_invalid_arguments(),
        CommandError::InvalidCommandArgumentsLength => err_text_invalid_arguments_length(),
        CommandError::CommandNotFound => err_text_not_found(),
        CommandError::FromUtf8Error => err_text_utf8(),
    }
}

/// The reply for a frame that is not a legal command.
pub fn error_reply(e: CommandError) -> (r: RespFrame)
    ensures
        r@ == FrameData::Error(err_text(e)),
{
    let text: &[u8] = match e {
        CommandError::InvalidCommand => &[69, 82, 82, 32, 105, 110, 118, 97, 108, 105, 100, 32, 99, 111, 109, 109, 97, 110, 100],
        CommandError::InvalidCommandFormat => &[69, 82, 82, 32, 105, 110, 118, 97, 108, 105, 100, 32, 99, 111, 109, 109, 97, 110, 100, 32, 102, 111, 114, 109, 97, 116],
        CommandError::InvalidCommandArguments => &[69, 82, 82, 32, 105, 110, 118, 97, 108, 105, 100, 32, 99, 111, 109, 109, 97, 110, 100, 32, 97, 114, 103, 117, 109, 101, 110, 116, 115],
        CommandError::InvalidCommandArgumentsLength => &[69, 82, 82, 32, 105, 110, 118, 97, 108, 105, 100, 32, 99, 111, 109, 109, 97, 110, 100, 32, 97, 114, 103, 117, 109, 101, 110, 116, 115, 32, 108, 101, 110, 103, 116, 104],
        CommandError::CommandNotFound => &[69, 82, 82, 32, 99, 111, 109, 109, 97, 110, 100, 32, 110, 111, 116, 32, 102, 111, 117, 110, 100],
        CommandError::FromUtf8Error => &[69, 82, 82, 32, 105, 110, 118, 97, 108, 105, 100, 32, 117, 116, 102, 45, 56, 32, 105, 110, 32, 107, 101, 121, 32, 111, 114, 32, 102, 105, 101, 108, 100],
    };
    proof {
        assert(text@ =~= err_text(e));
    }
    RespFrame::Error(crate::resp::frame::SimpleError(to_vec_bytes(text)))
}

/// One request step: parse the decoded frame and run it. A frame that
/// is no legal command leaves the backend alone and becomes a
/// SimpleError reply, since the framing is still intact.
pub fn handle_request(frame: RespFrame, backend: &mut Backend) -> (r: RespFrame)
    ensures
        match parse_cmd(frame@) {
            Ok(cd) => exec_post(cd, *old(backend), *final(backend), r),
            Err(e) => *final(backend) == *old(backend) && r@ == FrameData::Error(err_text(e)),
        },
{
    match Command::try_from(frame) {
        Ok(cmd) => cmd.execute(backend),
        Err(e) => error_reply(e),
    }
}

} // verus!
