//! HGET, HSET and HGETALL: the hash commands, with the sorted
//! enumeration that HGETALL can ask for.

use crate::backend::kv_view;
use crate::backend::Backend;
use crate::cmd::name_hget;
use crate::cmd::name_hgetall;
use crate::cmd::name_hset;
use crate::cmd::parse_hget;
use crate::cmd::parse_hgetall;
use crate::cmd::parse_hset;
use crate::cmd::resp_ok;
use crate::cmd::utf8_check;
use crate::cmd::validate_command;
use crate::cmd::ok_data;
use crate::cmd::CommandData;
use crate::cmd::CommandError;
use crate::cmd::HGet;
use crate::cmd::HGetAll;
use crate::cmd::HSet;
use crate::resp::frame::clone_bytes;
use crate::resp::frame::clone_frame;
use crate::resp::frame::frame_data;
use crate::resp::frame::frames_data;
use crate::resp::frame::lemma_frames_data_is;
use crate::resp::frame::BulkString;
use crate::resp::frame::RespArray;
use crate::resp::frame::RespFrame;
use crate::resp::frame::RespNull;
use crate::resp::model::FrameData;
use vstd::prelude::*;
use vstd::multiset::Multiset;

verus! {

broadcast use vstd::seq_lib::group_to_multiset_ensures;

/// Ascending byte-lexicographic order.
pub open spec fn lex_le(a: Seq<u8>, b: Seq<u8>) -> bool
    decreases a.len(),
{
    if a.len() == 0 {
        true
    } else if b.len() == 0 {
        false
    } else if a[0] < b[0] {
        true
    } else if a[0] > b[0] {
        false
    } else {
        lex_le(a.skip(1), b.skip(1))
    }
}

/// Field names appear in ascending byte-lexicographic order.
pub open spec fn pairs_sorted(pairs: Seq<(Seq<u8>, FrameData)>) -> bool {
    forall|i: int, j: int|
        0 <= i < j < pairs.len() ==> lex_le((#[trigger] pairs[i]).0, (#[trigger] pairs[j]).0)
}

/// The HGETALL reply body: field name as a BulkString, then its value,
/// for each pair in order.
pub open spec fn flatten_pairs(pairs: Seq<(Seq<u8>, FrameData)>) -> Seq<FrameData> {
    Seq::new(
        2 * pairs.len(),
        |i: int|
            if i % 2 == 0 {
                FrameData::BulkString(pairs[i / 2].0)
            } else {
                pairs[i / 2].1
            },
    )
}

/// What an HGETALL reply must be: Null for a missing hash; otherwise
/// the flattened pairs, in stored order, or in ascending field order
/// (as a permutation of the stored pairs) when `sort` is on.
pub open spec fn hgetall_post(b: Backend, key: Seq<u8>, sort: bool, r: RespFrame) -> bool {
    match b.hpairs(key) {
        None => r@ == FrameData::Null,
        Some(pairs) => if !sort {
            r@ == FrameData::Array(flatten_pairs(pairs))
        } else {
            exists|sp: Seq<(Seq<u8>, FrameData)>|
                {
                    &&& #[trigger] sp.to_multiset() == pairs.to_multiset()
                    &&& pairs_sorted(sp)
                    &&& r@ == FrameData::Array(flatten_pairs(sp))
                }
        },
    }
}

proof fn lemma_lex_le_refl(a: Seq<u8>)
    ensures
        lex_le(a, a),
    decreases a.len(),
{
    if a.len() > 0 {
        lemma_lex_le_refl(a.skip(1));
    }
}

proof fn lemma_lex_le_total(a: Seq<u8>, b: Seq<u8>)
    ensures
        lex_le(a, b) || lex_le(b, a),
    decreases a.len(),
{
    if a.len() > 0 && b.len() > 0 && a[0] == b[0] {
        lemma_lex_le_total(a.skip(1), b.skip(1));
    }
}

proof fn lemma_lex_le_trans(a: Seq<u8>, b: Seq<u8>, c: Seq<u8>)
    requires
        lex_le(a, b),
        lex_le(b, c),
    ensures
        lex_le(a, c),
    decreases a.len(),
{
    if a.len() > 0 && b.len() > 0 && c.len() > 0 && a[0] == b[0] && b[0] == c[0] {
        lemma_lex_le_trans(a.skip(1), b.skip(1), c.skip(1));
    }
}

/// Byte-lexicographic comparison.
fn lex_le_exec(a: &[u8], b: &[u8]) -> (r: bool)
    ensures
        r == lex_le(a@, b@),
{
    let mut i: usize = 0;
    proof {
        assert(a@.skip(0) =~= a@);
        assert(b@.skip(0) =~= b@);
    }
    while i < a.len() && i < b.len()
        invariant
            i <= a@.len(),
            i <= b@.len(),
            lex_le(a@, b@) == lex_le(a@.skip(i as int), b@.skip(i as int)),
        decreases a@.len() - i,
    {
        if a[i] < b[i] {
            return true;
        }
        if a[i] > b[i] {
            return false;
        }
        proof {
            assert(a@.skip(i as int).skip(1) =~= a@.skip(i + 1));
            assert(b@.skip(i as int).skip(1) =~= b@.skip(i + 1));
        }
        i += 1;
    }
    a.len() <= b.len()
}

/// Sort the snapshot pairs by field name, ascending: the result is a
/// permutation (as a multiset of abstract pairs) of the input.
fn sort_pairs(v: Vec<(Vec<u8>, RespFrame)>) -> (r: Vec<(Vec<u8>, RespFrame)>)
    ensures
        kv_view(r).to_multiset() == kv_view(v).to_multiset(),
        pairs_sorted(kv_view(r)),
{
    let ghost full = kv_view(v);
    let mut remaining = v;
    let mut out: Vec<(Vec<u8>, RespFrame)> = Vec::new();
    while remaining.len() > 0
        invariant
            kv_view(out).to_multiset().add(kv_view(remaining).to_multiset())
                == full.to_multiset(),
            pairs_sorted(kv_view(out)),
            forall|oi: int, ri: int|
                0 <= oi < kv_view(out).len() && 0 <= ri < kv_view(remaining).len() ==> lex_le(
                    (#[trigger] kv_view(out)[oi]).0,
                    (#[trigger] kv_view(remaining)[ri]).0,
                ),
        decreases remaining@.len(),
    {
        let n = remaining.len();
        let mut mi: usize = 0;
        let mut q: usize = 1;
        proof {
            lemma_lex_le_refl(kv_view(remaining)[0].0);
        }
        while q < n
            invariant
                n == remaining@.len(),
                mi < n,
                q <= n,
                forall|t: int|
                    0 <= t < q ==> lex_le(
                        kv_view(remaining)[mi as int].0,
                        (#[trigger] kv_view(remaining)[t]).0,
                    ),
            decreases n - q,
        {
            if lex_le_exec(remaining[q].0.as_slice(), remaining[mi].0.as_slice()) {
                proof {
                    let rv = kv_view(remaining);
                    assert forall|t: int| 0 <= t < q + 1 implies lex_le(
                        rv[q as int].0,
                        (#[trigger] rv[t]).0,
                    ) by {
                        if t < q {
                            lemma_lex_le_trans(rv[q as int].0, rv[mi as int].0, rv[t].0);
                        } else {
                            lemma_lex_le_refl(rv[q as int].0);
                        }
                    }
                }
                mi = q;
            } else {
                proof {
                    lemma_lex_le_total(
                        kv_view(remaining)[mi as int].0,
                        kv_view(remaining)[q as int].0,
                    );
                }
            }
            q += 1;
        }
        let ghost oldrem = kv_view(remaining);
        let ghost oldout = kv_view(out);
        let p = remaining.remove(mi);
        let ghost pd = (p.0@, frame_data(p.1));
        out.push(p);
        proof {
            assert(kv_view(remaining) =~= oldrem.remove(mi as int));
            assert(kv_view(out) =~= oldout.push(pd));
            assert(oldrem[mi as int] == pd);
            assert(kv_view(out).to_multiset() =~= oldout.to_multiset().insert(pd));
            assert(kv_view(remaining).to_multiset() =~= oldrem.to_multiset().remove(pd));
            assert(oldrem.to_multiset().contains(pd));
            assert(kv_view(out).to_multiset().add(kv_view(remaining).to_multiset()) =~= oldout
                .to_multiset().add(oldrem.to_multiset()));
        }
    }
    proof {
        assert(kv_view(remaining).to_multiset() =~= Multiset::<(Seq<u8>, FrameData)>::empty());
        assert(kv_view(out).to_multiset().add(Multiset::<(Seq<u8>, FrameData)>::empty())
            =~= kv_view(out).to_multiset());
    }
    out
}

/// Build the reply array from the chosen pair order.
fn flatten_exec(pairs: &Vec<(Vec<u8>, RespFrame)>) -> (r: Vec<RespFrame>)
    ensures
        frames_data(r, 0) == flatten_pairs(kv_view(*pairs)),
{
    let mut out: Vec<RespFrame> = Vec::new();
    let mut i: usize = 0;
    while i < pairs.len()
        invariant
            i <= pairs@.len(),
            out@.len() == 2 * i,
            forall|j: int|
                0 <= j < 2 * i ==> frame_data(#[trigger] out@[j]) == flatten_pairs(
                    kv_view(*pairs),
                )[j],
        decreases pairs@.len() - i,
    {
        let pair = &pairs[i];
        out.push(RespFrame::BulkString(BulkString(clone_bytes(&pair.0))));
        out.push(clone_frame(&pair.1));
        i += 1;
    }
    proof {
        lemma_frames_data_is(out, 0);
        assert(frames_data(out, 0) =~= flatten_pairs(kv_view(*pairs)));
    }
    out
}

impl HGet {
    pub fn try_from(v: RespArray) -> (r: Result<HGet, CommandError>)
        ensures
            match r {
                Ok(h) => parse_hget(v@) == Ok::<CommandData, CommandError>(
                    CommandData::HGet { key: h.key@, field: h.field@ },
                ),
                Err(e) => parse_hget(v@) == Err::<CommandData, CommandError>(e),
            },
    {
        proof {
            assert([104u8, 103u8, 101u8, 116u8]@ =~= name_hget());
        }
        match validate_command(&v, &[104, 103, 101, 116], 2) {
            Ok(()) => {},
            Err(e) => {
                return Err(e);
            },
        }
        match (v.get(1), v.get(2)) {
            (RespFrame::BulkString(k), RespFrame::BulkString(f)) => {
                if !utf8_check(k.0.as_slice()) {
                    return Err(CommandError::FromUtf8Error);
                }
                if !utf8_check(f.0.as_slice()) {
                    return Err(CommandError::FromUtf8Error);
                }
                Ok(HGet { key: clone_bytes(&k.0), field: clone_bytes(&f.0) })
            },
            _ => Err(CommandError::InvalidCommand),
        }
    }

    /// Look the field up; a miss is the Null frame.
    pub fn execute(self, backend: &mut Backend) -> (r: RespFrame)
        ensures
            *final(backend) == *old(backend),
            match old(backend).hm_at(self.key@, self.field@) {
                Some(d) => r@ == d,
                None => r@ == FrameData::Null,
            },
    {
        match backend.hget(self.key.as_slice(), self.field.as_slice()) {
            Some(f) => f,
            None => RespFrame::Null(RespNull),
        }
    }
}

impl HSet {
    pub fn try_from(v: RespArray) -> (r: Result<HSet, CommandError>)
        ensures
            match r {
                Ok(h) => parse_hset(v@) == Ok::<CommandData, CommandError>(
                    CommandData::HSet { key: h.key@, field: h.field@, value: h.value@ },
                ),
                Err(e) => parse_hset(v@) == Err::<CommandData, CommandError>(e),
            },
    {
        proof {
            assert([104u8, 115u8, 101u8, 116u8]@ =~= name_hset());
        }
        match validate_command(&v, &[104, 115, 101, 116], 3) {
            Ok(()) => {},
            Err(e) => {
                return Err(e);
            },
        }
        match (v.get(1), v.get(2)) {
            (RespFrame::BulkString(k), RespFrame::BulkString(f)) => {
                if !utf8_check(k.0.as_slice()) {
                    return Err(CommandError::FromUtf8Error);
                }
                if !utf8_check(f.0.as_slice()) {
                    return Err(CommandError::FromUtf8Error);
                }
                let value = clone_frame(v.get(3));
                Ok(HSet { key: clone_bytes(&k.0), field: clone_bytes(&f.0), value })
            },
            _ => Err(CommandError::InvalidCommand),
        }
    }

    /// Store the field and reply `OK`; the hash appears on its first
    /// field.
    pub fn execute(self, backend: &mut Backend) -> (r: RespFrame)
        ensures
            final(backend).hm_at(self.key@, self.field@) == Some(self.value@),
            forall|f2: Seq<u8>|
                f2 != self.field@ ==> #[trigger] final(backend).hm_at(self.key@, f2) == old(
                    backend,
                ).hm_at(self.key@, f2),
            forall|k2: Seq<u8>|
                k2 != self.key@ ==> #[trigger] final(backend).hpairs(k2) == old(backend).hpairs(
                    k2,
                ),
            forall|k2: Seq<u8>| #[trigger] final(backend).kv_at(k2) == old(backend).kv_at(k2),
            r@ == ok_data(),
    {
        backend.hset(self.key, self.field, self.value);
        resp_ok()
    }
}

impl HGetAll {
    pub fn try_from(v: RespArray) -> (r: Result<HGetAll, CommandError>)
        ensures
            match r {
                Ok(h) => parse_hgetall(v@) == Ok::<CommandData, CommandError>(
                    CommandData::HGetAll { key: h.key@, sort: h.sort },
                ),
                Err(e) => parse_hgetall(v@) == Err::<CommandData, CommandError>(e),
            },
    {
        proof {
            assert([104u8, 103u8, 101u8, 116u8, 97u8, 108u8, 108u8]@ =~= name_hgetall());
        }
        match validate_command(&v, &[104, 103, 101, 116, 97, 108, 108], 1) {
            Ok(()) => {},
            Err(e) => {
                return Err(e);
            },
        }
        match v.get(1) {
            RespFrame::BulkString(k) => {
                if utf8_check(k.0.as_slice()) {
                    Ok(HGetAll { key: clone_bytes(&k.0), sort: false })
                } else {
                    Err(CommandError::FromUtf8Error)
                }
            },
            _ => Err(CommandError::InvalidCommand),
        }
    }

    /// Enumerate the hash as `[field, value, ...]`, sorting by field
    /// when asked; a missing hash is the Null frame.
    pub fn execute(self, backend: &mut Backend) -> (r: RespFrame)
        ensures
            *final(backend) == *old(backend),
            hgetall_post(*old(backend), self.key@, self.sort, r),
    {
        match backend.hgetall(self.key.as_slice()) {
            None => RespFrame::Null(RespNull),
            Some(pairs) => {
                if self.sort {
                    let sorted = sort_pairs(pairs);
                    let items = flatten_exec(&sorted);
                    RespFrame::Array(RespArray(items))
                } else {
                    let items = flatten_exec(&pairs);
                    RespFrame::Array(RespArray(items))
                }
            },
        }
    }
}

} // verus!
