//! GET and SET: the flat key/value commands.

use crate::backend::Backend;
use crate::cmd::parse_get;
use crate::cmd::parse_set;
use crate::cmd::validate_command;
use crate::cmd::name_get;
use crate::cmd::name_set;
use crate::cmd::resp_ok;
use crate::cmd::utf8_check;
use crate::cmd::ok_data;
use crate::cmd::CommandData;
use crate::cmd::CommandError;
use crate::cmd::Get;
use crate::cmd::SetCmd;
use crate::resp::frame::clone_bytes;
use crate::resp::frame::clone_frame;
use crate::resp::frame::RespArray;
use crate::resp::frame::RespFrame;
use crate::resp::frame::RespNull;
use crate::resp::model::FrameData;
use vstd::prelude::*;

verus! {

impl Get {
    pub fn try_from(v: RespArray) -> (r: Result<Get, CommandError>)
        ensures
            match r {
                Ok(g) => parse_get(v@) == Ok::<CommandData, CommandError>(
                    CommandData::Get { key: g.key@ },
                ),
                Err(e) => parse_get(v@) == Err::<CommandData, CommandError>(e),
            },
    {
        proof {
            assert([103u8, 101u8, 116u8]@ =~= name_get());
        }
        match validate_command(&v, &[103, 101, 116], 1) {
            Ok(()) => {},
            Err(e) => {
                return Err(e);
            },
        }
        match v.get(1) {
            RespFrame::BulkString(k) => {
                if utf8_check(k.0.as_slice()) {
                    Ok(Get { key: clone_bytes(&k.0) })
                } else {
                    Err(CommandError::FromUtf8Error)
                }
            },
            _ => Err(CommandError::InvalidCommand),
        }
    }

    /// Look the key up; a miss is the Null frame.
    pub fn execute(self, backend: &mut Backend) -> (r: RespFrame)
        ensures
            *final(backend) == *old(backend),
            match old(backend).kv_at(self.key@) {
                Some(d) => r@ == d,
                None => r@ == FrameData::Null,
            },
    {
        match backend.get(self.key.as_slice()) {
            Some(f) => f,
            None => RespFrame::Null(RespNull),
        }
    }
}

impl SetCmd {
    pub fn try_from(v: RespArray) -> (r: Result<SetCmd, CommandError>)
        ensures
            match r {
                Ok(s) => parse_set(v@) == Ok::<CommandData, CommandError>(
                    CommandData::SetCmd { key: s.key@, value: s.value@ },
                ),
                Err(e) => parse_set(v@) == Err::<CommandData, CommandError>(e),
            },
    {
        proof {
            assert([115u8, 101u8, 116u8]@ =~= name_set());
        }
        match validate_command(&v, &[115, 101, 116], 2) {
            Ok(()) => {},
            Err(e) => {
                return Err(e);
            },
        }
        let key: Vec<u8> = match v.get(1) {
            RespFrame::BulkString(k) => {
                if utf8_check(k.0.as_slice()) {
                    clone_bytes(&k.0)
                } else {
                    return Err(CommandError::FromUtf8Error);
                }
            },
            _ => {
                return Err(CommandError::InvalidCommand);
            },
        };
        let value = clone_frame(v.get(2));
        Ok(SetCmd { key, value })
    }

    /// Store the frame verbatim and reply `OK`.
    pub fn execute(self, backend: &mut Backend) -> (r: RespFrame)
        ensures
            final(backend).kv_at(self.key@) == Some(self.value@),
            forall|k2: Seq<u8>|
                k2 != self.key@ ==> #[trigger] final(backend).kv_at(k2) == old(backend).kv_at(k2),
            forall|k2: Seq<u8>| #[trigger] final(backend).hpairs(k2) == old(backend).hpairs(k2),
            r@ == ok_data(),
    {
        backend.set(self.key, self.value);
        resp_ok()
    }
}

} // verus!
