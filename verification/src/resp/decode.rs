//! The verified decoder: restart-safe, two-phase decoding of RESP
//! frames, specified exactly against the model's `parse` and `need`
//! functions. Incomplete input never consumes bytes.

use crate::resp::frame::BulkString;
use crate::resp::frame::RespArray;
use crate::resp::frame::RespDouble;
use crate::resp::frame::RespFrame;
use crate::resp::frame::RespMap;
use crate::resp::frame::RespNull;
use crate::resp::frame::RespNullArray;
use crate::resp::frame::RespNullBulkString;
use crate::resp::frame::RespSet;
use crate::resp::frame::SimpleError;
use crate::resp::frame::SimpleString;
use crate::resp::frame::RespError;
use crate::resp::frame::frame_data;
use crate::resp::frame::frames_data;
use crate::resp::frame::lemma_frames_data_is;
use crate::resp::model::FrameData;
use crate::resp::model::LineRes;
use crate::resp::model::NeedRes;
use crate::resp::model::Parsed;
use crate::resp::model::ParsedEntries;
use crate::resp::model::ParsedSeq;
use crate::resp::model::bool_false_pat;
use crate::resp::model::bool_true_pat;
use crate::resp::model::digits_end;
use crate::resp::model::digits_ok;
use crate::resp::model::digits_val;
use crate::resp::model::double_wf;
use crate::resp::model::exp_ok;
use crate::resp::model::find_crlf_at;
use crate::resp::model::int_body;
use crate::resp::model::int_is_neg;
use crate::resp::model::int_text_val;
use crate::resp::model::is_digit;
use crate::resp::model::is_int_text;
use crate::resp::model::is_uint_text;
use crate::resp::model::line_probe;
use crate::resp::model::lww_fold;
use crate::resp::model::need;
use crate::resp::model::need_bulk;
use crate::resp::model::need_exact;
use crate::resp::model::need_line;
use crate::resp::model::need_list;
use crate::resp::model::need_many;
use crate::resp::model::need_map;
use crate::resp::model::need_pairs;
use crate::resp::model::null_array_pat;
use crate::resp::model::null_bulk_pat;
use crate::resp::model::null_pat;
use crate::resp::model::parse;
use crate::resp::model::parse_boolean;
use crate::resp::model::parse_bulk;
use crate::resp::model::parse_double;
use crate::resp::model::parse_exact;
use crate::resp::model::parse_integer;
use crate::resp::model::parse_list;
use crate::resp::model::parse_many;
use crate::resp::model::parse_map;
use crate::resp::model::parse_pairs;
use crate::resp::model::parse_simple;
use crate::resp::model::simple_payload;
use crate::resp::model::uint_body;
use crate::resp::model::uint_text_val;
use vstd::prelude::*;
use vstd::string::StringSliceAdditionalSpecFns;

verus! {

// ---------------------------------------------------------------------
// Byte scanning
// ---------------------------------------------------------------------

/// Find the first CRLF, scanning from the start of the buffer.
fn find_crlf(buf: &[u8]) -> (r: Option<usize>)
    ensures
        match r {
            Some(e) => find_crlf_at(buf@, 0) == e as int,
            None => find_crlf_at(buf@, 0) == -1,
        },
{
    let mut i: usize = 0;
    while i + 1 < buf.len()
        invariant
            find_crlf_at(buf@, 0) == find_crlf_at(buf@, i as int),
            i <= buf@.len(),
            i < usize::MAX,
        decreases buf@.len() - i,
    {
        if buf[i] == 13 && buf[i + 1] == 10 {
            return Some(i);
        }
        i += 1;
    }
    None
}

/// Copy a slice into a fresh vector.
pub(crate) fn to_vec_bytes(src: &[u8]) -> (r: Vec<u8>)
    ensures
        r@ == src@,
{
    let mut out: Vec<u8> = Vec::new();
    let mut i: usize = 0;
    while i < src.len()
        invariant
            i <= src@.len(),
            out@ == src@.subrange(0, i as int),
        decreases src@.len() - i,
    {
        out.push(src[i]);
        proof {
            assert(out@ =~= src@.subrange(0, i + 1));
        }
        i += 1;
    }
    proof {
        assert(out@ =~= src@);
    }
    out
}

/// Remove the first `n` bytes of the buffer.
fn drop_front(buf: &mut Vec<u8>, n: usize)
    requires
        n <= old(buf)@.len(),
    ensures
        final(buf)@ == old(buf)@.skip(n as int),
{
    let rest = buf.split_off(n);
    *buf = rest;
}

/// Locate the payload of a line frame: the prefix byte `p`, the
/// payload, then CRLF. `Ok(end)` is the index of the CR.
fn simple_end(buf: &[u8], p: u8) -> (r: Result<usize, RespError>)
    ensures
        match r {
            Ok(end) => line_probe(buf@, p) == LineRes::Line { end: end as int } && 1 <= end && end
                + 2 <= buf@.len() && end + 2 <= usize::MAX,
            Err(e) => {
                &&& (e == RespError::NotComplete || e == RespError::InvalidFrameType)
                &&& (e == RespError::NotComplete ==> line_probe(buf@, p) == LineRes::Short)
                &&& (e == RespError::InvalidFrameType ==> line_probe(buf@, p) == LineRes::Wrong)
            },
        },
{
    proof {
        crate::resp::model::lemma_find_crlf_at(buf@, 0);
    }
    if buf.len() < 3 {
        return Err(RespError::NotComplete);
    }
    if buf[0] != p {
        return Err(RespError::InvalidFrameType);
    }
    match find_crlf(buf) {
        None => Err(RespError::NotComplete),
        Some(e) => {
            if e == 0 {
                Err(RespError::NotComplete)
            } else {
                Ok(e)
            }
        },
    }
}

// ---------------------------------------------------------------------
// Number texts
// ---------------------------------------------------------------------

proof fn lemma_digits_val_nonneg(s: Seq<u8>)
    requires
        forall|j: int| 0 <= j < s.len() ==> is_digit(#[trigger] s[j]),
    ensures
        digits_val(s) >= 0,
    decreases s.len(),
{
    if s.len() > 0 {
        lemma_digits_val_nonneg(s.drop_last());
    }
}

/// A digit prefix never exceeds the whole number.
proof fn lemma_digits_prefix_le(s: Seq<u8>, i: int)
    requires
        0 <= i <= s.len(),
        forall|j: int| 0 <= j < s.len() ==> is_digit(#[trigger] s[j]),
    ensures
        digits_val(s.subrange(0, i)) <= digits_val(s),
    decreases s.len() - i,
{
    if i == s.len() {
        assert(s.subrange(0, i) =~= s);
    } else {
        lemma_digits_prefix_le(s, i + 1);
        let t = s.subrange(0, i + 1);
        assert(t.drop_last() =~= s.subrange(0, i));
        lemma_digits_val_nonneg(s.subrange(0, i));
        assert(digits_val(s.subrange(0, i)) <= digits_val(t));
    }
}

/// Read an unsigned decimal, rejecting values above `limit`.
fn digits_value(t: &[u8], limit: u64) -> (r: Result<u64, RespError>)
    ensures
        match r {
            Ok(v) => digits_ok(t@) && digits_val(t@) == v as int && v <= limit,
            Err(e) => e == RespError::ParseIntError && !(digits_ok(t@) && digits_val(t@)
                <= limit as int),
        },
{
    if t.len() == 0 {
        return Err(RespError::ParseIntError);
    }
    let mut acc: u128 = 0;
    let mut i: usize = 0;
    while i < t.len()
        invariant
            0 < t@.len(),
            i <= t@.len(),
            forall|j: int| 0 <= j < i ==> is_digit(#[trigger] t@[j]),
            acc == digits_val(t@.subrange(0, i as int)),
            acc <= limit,
        decreases t@.len() - i,
    {
        let b = t[i];
        if b < 48 || b > 57 {
            return Err(RespError::ParseIntError);
        }
        let acc2: u128 = acc * 10 + (b - 48) as u128;
        proof {
            assert(t@.subrange(0, i + 1).drop_last() =~= t@.subrange(0, i as int));
            assert(acc2 == digits_val(t@.subrange(0, i + 1)));
        }
        if acc2 > limit as u128 {
            proof {
                if digits_ok(t@) {
                    lemma_digits_prefix_le(t@, i + 1);
                }
            }
            return Err(RespError::ParseIntError);
        }
        acc = acc2;
        i += 1;
    }
    proof {
        assert(t@.subrange(0, t@.len() as int) =~= t@);
    }
    Ok(acc as u64)
}

/// Read the text of a length: optional `+`, digits, bounded by `usize`.
fn parse_uint_text(t: &[u8]) -> (r: Result<usize, RespError>)
    ensures
        match r {
            Ok(v) => is_uint_text(t@) && uint_text_val(t@) == v as int,
            Err(e) => e == RespError::ParseIntError && !is_uint_text(t@),
        },
{
    let body: &[u8] = if t.len() > 0 && t[0] == 43 {
        &t[1..t.len()]
    } else {
        &t[0..t.len()]
    };
    proof {
        assert(body@ =~= uint_body(t@));
    }
    match digits_value(body, usize::MAX as u64) {
        Ok(v) => Ok(v as usize),
        Err(e) => Err(e),
    }
}

/// Read the text of a signed 64-bit integer.
fn parse_int_text(t: &[u8]) -> (r: Result<i64, RespError>)
    ensures
        match r {
            Ok(v) => is_int_text(t@) && int_text_val(t@) == v as int,
            Err(e) => e == RespError::ParseIntError && !is_int_text(t@),
        },
{
    let neg = t.len() > 0 && t[0] == 45;
    let body: &[u8] = if t.len() > 0 && (t[0] == 43 || t[0] == 45) {
        &t[1..t.len()]
    } else {
        &t[0..t.len()]
    };
    proof {
        assert(body@ =~= int_body(t@));
        assert(neg == int_is_neg(t@));
    }
    if neg {
        match digits_value(body, 9223372036854775808u64) {
            Ok(v) => {
                if v == 9223372036854775808u64 {
                    Ok(i64::MIN)
                } else {
                    Ok(-(v as i64))
                }
            },
            Err(e) => Err(e),
        }
    } else {
        match digits_value(body, 9223372036854775807u64) {
            Ok(v) => Ok(v as i64),
            Err(e) => Err(e),
        }
    }
}

// ---------------------------------------------------------------------
// Expect-length: how many bytes the head frame requires
// ---------------------------------------------------------------------

/// Byte need of a line frame with prefix `p`.
fn line_needed(buf: &[u8], p: u8) -> (r: Result<usize, RespError>)
    ensures
        match r {
            Ok(n) => need_line(buf@, p) == NeedRes::Found { n: n as int } && 3 <= n && n
                <= buf@.len(),
            Err(e) => if e == RespError::NotComplete {
                need_line(buf@, p) == NeedRes::More
            } else {
                need_line(buf@, p) == NeedRes::Bad { e }
            },
        },
{
    match simple_end(buf, p) {
        Ok(end) => Ok(end + 2),
        Err(e) => Err(e),
    }
}

/// Byte need of a bulk string, from its header alone.
fn bulk_needed(buf: &[u8]) -> (r: Result<usize, RespError>)
    ensures
        match r {
            Ok(n) => need_bulk(buf@) == NeedRes::Found { n: n as int } && 3 <= n,
            Err(e) => if e == RespError::NotComplete {
                need_bulk(buf@) == NeedRes::More
            } else {
                need_bulk(buf@) == NeedRes::Bad { e }
            },
        },
{
    let end = match simple_end(buf, 36) {
        Ok(end) => end,
        Err(e) => {
            return Err(e);
        },
    };
    let len = match parse_uint_text(&buf[1..end]) {
        Ok(v) => v,
        Err(e) => {
            return Err(e);
        },
    };
    let total: u128 = end as u128 + 4 + len as u128;
    if total > usize::MAX as u128 {
        return Err(RespError::NotComplete);
    }
    Ok(end + 2 + len + 2)
}

/// The expect-length walk over `k` frames, and over `k` map entries:
/// the core of `calc_total_len`. `p` picks the container kind.
fn total_len_core(buf: &[u8], end: usize, len: usize, p: u8) -> (r: Result<usize, RespError>)
    requires
        end + 2 <= buf@.len(),
        p == 42 || p == 126 || p == 37,
    ensures
        ({
            let walk = if p == 37 {
                need_pairs(buf@.skip(end + 2), len as int)
            } else {
                need_many(buf@.skip(end + 2), len as int)
            };
            match r {
                Ok(n) => walk == NeedRes::Found { n: n - end - 2 } && end + 2 <= n
                    && n <= buf@.len(),
                Err(e) => if e == RespError::NotComplete {
                    walk == NeedRes::More
                } else {
                    walk == NeedRes::Bad { e }
                },
            }
        }),
    decreases buf@.len(), 1int,
{
    let ghost s0 = buf@.skip(end + 2);
    let avail = buf.len();
    let mut total: usize = end + 2;
    let mut i: usize = 0;
    if p == 37 {
        while i < len
            invariant
                p == 37,
                end + 2 <= total <= buf@.len(),
                i <= len,
                s0 == buf@.skip(end + 2),
                need_pairs(s0, len as int) == (match need_pairs(
                    buf@.skip(total as int),
                    len - i,
                ) {
                    NeedRes::Found { n } => NeedRes::Found { n: total - end - 2 + n },
                    o => o,
                }),
            decreases len - i,
        {
            let c1 = match line_needed(&buf[total..buf.len()], 43) {
                Ok(c) => c,
                Err(e) => {
                    return Err(e);
                },
            };
            if c1 > buf.len() - total {
                return Err(RespError::NotComplete);
            }
            proof {
                assert(buf@.skip(total as int).skip(c1 as int) =~= buf@.skip(total + c1));
            }
            let c2 = match frame_needed(&buf[total + c1..buf.len()]) {
                Ok(c) => c,
                Err(e) => {
                    return Err(e);
                },
            };
            if c2 > buf.len() - total - c1 {
                return Err(RespError::NotComplete);
            }
            proof {
                let s_t = buf@.skip(total as int);
                assert(s_t.skip(c1 as int) =~= buf@.skip(total + c1));
                assert(buf@.skip(total + c1).skip(c2 as int) =~= buf@.skip(total + c1 + c2));
                assert(s_t.skip(c1 + c2) =~= buf@.skip(total + c1 + c2));
                assert(need_pairs(s_t, len - i) == (match need_pairs(
                    buf@.skip(total + c1 + c2),
                    len - i - 1,
                ) {
                    NeedRes::Found { n } => NeedRes::Found { n: c1 + c2 + n },
                    o => o,
                }));
            }
            total = total + c1 + c2;
            i += 1;
        }
    } else {
        while i < len
            invariant
                p != 37,
                end + 2 <= total <= buf@.len(),
                i <= len,
                s0 == buf@.skip(end + 2),
                need_many(s0, len as int) == (match need_many(buf@.skip(total as int), len - i) {
                    NeedRes::Found { n } => NeedRes::Found { n: total - end - 2 + n },
                    o => o,
                }),
            decreases len - i,
        {
            let c = match frame_needed(&buf[total..buf.len()]) {
                Ok(c) => c,
                Err(e) => {
                    return Err(e);
                },
            };
            if c > buf.len() - total {
                return Err(RespError::NotComplete);
            }
            proof {
                let s_t = buf@.skip(total as int);
                assert(s_t.skip(c as int) =~= buf@.skip((total + c) as int));
                assert(need_many(s_t, len - i) == (match need_many(
                    buf@.skip((total + c) as int),
                    len - i - 1,
                ) {
                    NeedRes::Found { n } => NeedRes::Found { n: c + n },
                    o => o,
                }));
            }
            total = total + c;
            i += 1;
        }
    }
    Ok(total)
}

/// Byte need of an array or set, walking its children.
fn list_needed(buf: &[u8], p: u8) -> (r: Result<usize, RespError>)
    requires
        p == 42 || p == 126,
    ensures
        match r {
            Ok(n) => need_list(buf@, p) == NeedRes::Found { n: n as int } && 3 <= n && n
                <= buf@.len(),
            Err(e) => if e == RespError::NotComplete {
                need_list(buf@, p) == NeedRes::More
            } else {
                need_list(buf@, p) == NeedRes::Bad { e }
            },
        },
    decreases buf@.len(), 2int,
{
    proof {
        crate::resp::model::lemma_find_crlf_at(buf@, 0);
    }
    let end = match simple_end(buf, p) {
        Ok(end) => end,
        Err(e) => {
            return Err(e);
        },
    };
    let len = match parse_uint_text(&buf[1..end]) {
        Ok(v) => v,
        Err(e) => {
            return Err(e);
        },
    };
    total_len_core(buf, end, len, p)
}

/// Byte need of a map, walking its entries.
fn map_needed(buf: &[u8]) -> (r: Result<usize, RespError>)
    ensures
        match r {
            Ok(n) => need_map(buf@) == NeedRes::Found { n: n as int } && 3 <= n && n
                <= buf@.len(),
            Err(e) => if e == RespError::NotComplete {
                need_map(buf@) == NeedRes::More
            } else {
                need_map(buf@) == NeedRes::Bad { e }
            },
        },
    decreases buf@.len(), 2int,
{
    proof {
        crate::resp::model::lemma_find_crlf_at(buf@, 0);
    }
    let end = match simple_end(buf, 37) {
        Ok(end) => end,
        Err(e) => {
            return Err(e);
        },
    };
    let len = match parse_uint_text(&buf[1..end]) {
        Ok(v) => v,
        Err(e) => {
            return Err(e);
        },
    };
    total_len_core(buf, end, len, 37)
}

/// Compare the head of `buf` with a fixed pattern: too short is
/// `NotComplete`, a mismatch is `InvalidFrameType`.
fn fixed_needed(buf: &[u8], pat: &[u8]) -> (r: Result<usize, RespError>)
    ensures
        match r {
            Ok(n) => need_exact(buf@, pat@) == NeedRes::Found { n: n as int } && n == pat@.len()
                && buf@.subrange(0, pat@.len() as int) == pat@,
            Err(e) => if e == RespError::NotComplete {
                need_exact(buf@, pat@) == NeedRes::More && buf@.len() < pat@.len()
            } else {
                need_exact(buf@, pat@) == NeedRes::Bad { e } && buf@.len() >= pat@.len()
                    && buf@.subrange(0, pat@.len() as int) != pat@
            },
        },
{
    if buf.len() < pat.len() {
        return Err(RespError::NotComplete);
    }
    let mut i: usize = 0;
    while i < pat.len()
        invariant
            pat@.len() <= buf@.len(),
            i <= pat@.len(),
            forall|j: int| 0 <= j < i ==> buf@[j] == pat@[j],
        decreases pat@.len() - i,
    {
        if buf[i] != pat[i] {
            proof {
                assert(buf@.subrange(0, pat@.len() as int)[i as int] != pat@[i as int]);
            }
            return Err(RespError::InvalidFrameType);
        }
        i += 1;
    }
    proof {
        assert(buf@.subrange(0, pat@.len() as int) =~= pat@);
    }
    Ok(pat.len())
}

/// Bytes needed by the frame at the head of the buffer, over every
/// frame kind: the expect-length dispatch.
pub fn frame_needed(buf: &[u8]) -> (r: Result<usize, RespError>)
    ensures
        match r {
            Ok(n) => need(buf@) == NeedRes::Found { n: n as int } && 3 <= n,
            Err(e) => if e == RespError::NotComplete {
                need(buf@) == NeedRes::More
            } else {
                need(buf@) == NeedRes::Bad { e }
            },
        },
    decreases buf@.len(), 3int,
{
    if buf.len() == 0 {
        return Err(RespError::NotComplete);
    }
    let b = buf[0];
    if b == 43 || b == 45 || b == 58 || b == 44 {
        line_needed(buf, b)
    } else if b == 36 {
        match fixed_needed(buf, &[36, 45, 49, 13, 10]) {
            Ok(n) => {
                proof {
                    assert([36u8, 45u8, 49u8, 13u8, 10u8]@ =~= null_bulk_pat());
                }
                Ok(n)
            },
            Err(RespError::NotComplete) => {
                proof {
                    assert([36u8, 45u8, 49u8, 13u8, 10u8]@ =~= null_bulk_pat());
                }
                Err(RespError::NotComplete)
            },
            Err(_) => {
                proof {
                    assert([36u8, 45u8, 49u8, 13u8, 10u8]@ =~= null_bulk_pat());
                }
                bulk_needed(buf)
            },
        }
    } else if b == 42 {
        match fixed_needed(buf, &[42, 45, 49, 13, 10]) {
            Ok(n) => {
                proof {
                    assert([42u8, 45u8, 49u8, 13u8, 10u8]@ =~= null_array_pat());
                }
                Ok(n)
            },
            Err(RespError::NotComplete) => {
                proof {
                    assert([42u8, 45u8, 49u8, 13u8, 10u8]@ =~= null_array_pat());
                }
                Err(RespError::NotComplete)
            },
            Err(_) => {
                proof {
                    assert([42u8, 45u8, 49u8, 13u8, 10u8]@ =~= null_array_pat());
                }
                list_needed(buf, 42)
            },
        }
    } else if b == 126 {
        list_needed(buf, 126)
    } else if b == 37 {
        map_needed(buf)
    } else if b == 95 {
        Ok(3)
    } else if b == 35 {
        Ok(4)
    } else {
        Err(RespError::NotComplete)
    }
}


// ---------------------------------------------------------------------
// Committing readers: the parse phase
// ---------------------------------------------------------------------

/// The frame a line with prefix `p` parses to.
pub open spec fn line_frame_data(p: u8, s: Seq<u8>) -> FrameData {
    if p == 43 {
        FrameData::SimpleString(s)
    } else {
        FrameData::Error(s)
    }
}

/// The frame a list with prefix `p` parses to.
pub open spec fn list_frame_data(p: u8, items: Seq<FrameData>) -> FrameData {
    if p == 42 {
        FrameData::Array(items)
    } else {
        FrameData::SetValue(items)
    }
}

/// Read a SimpleString or SimpleError line: the payload bytes and the
/// count of bytes consumed.
fn read_simple(buf: &[u8], p: u8) -> (r: Result<(Vec<u8>, usize), RespError>)
    requires
        p == 43 || p == 45,
    ensures
        match r {
            Ok((v, n)) => parse_simple(buf@, p) == Parsed::Found {
                d: line_frame_data(p, v@),
                n: n as int,
            } && 3 <= n && n <= buf@.len(),
            Err(e) => if e == RespError::NotComplete {
                parse_simple(buf@, p) == Parsed::More
            } else {
                parse_simple(buf@, p) == Parsed::Bad { e }
            },
        },
{
    let end = match simple_end(buf, p) {
        Ok(end) => end,
        Err(e) => {
            return Err(e);
        },
    };
    let payload = to_vec_bytes(&buf[1..end]);
    Ok((payload, end + 2))
}

/// Read an Integer line.
fn read_integer(buf: &[u8]) -> (r: Result<(i64, usize), RespError>)
    ensures
        match r {
            Ok((v, n)) => parse_integer(buf@) == Parsed::Found {
                d: FrameData::Integer(v as int),
                n: n as int,
            } && 3 <= n && n <= buf@.len(),
            Err(e) => if e == RespError::NotComplete {
                parse_integer(buf@) == Parsed::More
            } else {
                parse_integer(buf@) == Parsed::Bad { e }
            },
        },
{
    let end = match simple_end(buf, 58) {
        Ok(end) => end,
        Err(e) => {
            return Err(e);
        },
    };
    let v = match parse_int_text(&buf[1..end]) {
        Ok(v) => v,
        Err(e) => {
            return Err(e);
        },
    };
    Ok((v, end + 2))
}

/// First index at or after `start` holding no decimal digit.
fn digits_end_exec(t: &[u8], start: usize) -> (r: usize)
    requires
        start <= t@.len(),
    ensures
        r as int == digits_end(t@, start as int),
        start <= r <= t@.len(),
{
    let mut j = start;
    while j < t.len() && t[j] >= 48 && t[j] <= 57
        invariant
            start <= j <= t@.len(),
            digits_end(t@, start as int) == digits_end(t@, j as int),
        decreases t@.len() - j,
    {
        j += 1;
    }
    j
}

/// Whether `t[j..]` is a well-formed exponent part ending the text.
fn exp_check(t: &[u8], j: usize) -> (r: bool)
    requires
        j <= t@.len(),
    ensures
        r == exp_ok(t@, j as int),
{
    if j >= t.len() {
        return false;
    }
    let b = t[j];
    if !(b == 101 || b == 69) {
        return false;
    }
    let k: usize = if j + 1 < t.len() && (t[j + 1] == 43 || t[j + 1] == 45) {
        j + 2
    } else {
        j + 1
    };
    let e = digits_end_exec(t, k);
    e > k && e == t.len()
}

/// Whether `t` matches the accepted decimal-number grammar.
fn double_check(t: &[u8]) -> (r: bool)
    ensures
        r == double_wf(t@),
{
    let i0: usize = if t.len() > 0 && (t[0] == 43 || t[0] == 45) {
        1
    } else {
        0
    };
    let i1 = digits_end_exec(t, i0);
    if i1 <= i0 {
        return false;
    }
    if i1 == t.len() {
        return true;
    }
    if t[i1] == 46 {
        let i2 = digits_end_exec(t, i1 + 1);
        if i2 <= i1 + 1 {
            return false;
        }
        if i2 == t.len() {
            return true;
        }
        return exp_check(t, i2);
    }
    exp_check(t, i1)
}

impl RespDouble {
    /// Accept a decimal text in the grammar the wire allows.
    pub fn new(s: Vec<u8>) -> (r: Result<RespDouble, RespError>)
        ensures
            match r {
                Ok(d) => double_wf(s@) && d@ == s@,
                Err(e) => !double_wf(s@) && e == RespError::ParseFloatError,
            },
    {
        if double_check(s.as_slice()) {
            Ok(RespDouble(s))
        } else {
            Err(RespError::ParseFloatError)
        }
    }
}

/// Read a Double line, keeping its validated text.
fn read_double(buf: &[u8]) -> (r: Result<(RespDouble, usize), RespError>)
    ensures
        match r {
            Ok((v, n)) => parse_double(buf@) == Parsed::Found {
                d: FrameData::Double(v@),
                n: n as int,
            } && 3 <= n && n <= buf@.len(),
            Err(e) => if e == RespError::NotComplete {
                parse_double(buf@) == Parsed::More
            } else {
                parse_double(buf@) == Parsed::Bad { e }
            },
        },
{
    let end = match simple_end(buf, 44) {
        Ok(end) => end,
        Err(e) => {
            return Err(e);
        },
    };
    if !double_check(&buf[1..end]) {
        return Err(RespError::ParseFloatError);
    }
    let payload = to_vec_bytes(&buf[1..end]);
    Ok((RespDouble(payload), end + 2))
}

/// Read a Boolean frame.
fn read_bool(buf: &[u8]) -> (r: Result<(bool, usize), RespError>)
    ensures
        match r {
            Ok((v, n)) => parse_boolean(buf@) == Parsed::Found {
                d: FrameData::Boolean(v),
                n: n as int,
            } && n == 4 && n <= buf@.len(),
            Err(e) => if e == RespError::NotComplete {
                parse_boolean(buf@) == Parsed::More
            } else {
                parse_boolean(buf@) == Parsed::Bad { e }
            },
        },
{
    if buf.len() < 4 {
        return Err(RespError::NotComplete);
    }
    match fixed_needed(buf, &[35, 116, 13, 10]) {
        Ok(_) => {
            proof {
                assert([35u8, 116u8, 13u8, 10u8]@ =~= bool_true_pat());
            }
            Ok((true, 4))
        },
        Err(_) => {
            proof {
                assert([35u8, 116u8, 13u8, 10u8]@ =~= bool_true_pat());
            }
            match fixed_needed(buf, &[35, 102, 13, 10]) {
                Ok(_) => {
                    proof {
                        assert([35u8, 102u8, 13u8, 10u8]@ =~= bool_false_pat());
                    }
                    Ok((false, 4))
                },
                Err(_) => {
                    proof {
                        assert([35u8, 102u8, 13u8, 10u8]@ =~= bool_false_pat());
                    }
                    Err(RespError::InvalidFrameType)
                },
            }
        },
    }
}

/// Read a BulkString: header, then the exact payload length.
fn read_bulk(buf: &[u8]) -> (r: Result<(BulkString, usize), RespError>)
    ensures
        match r {
            Ok((v, n)) => parse_bulk(buf@) == Parsed::Found {
                d: FrameData::BulkString(v@),
                n: n as int,
            } && 3 <= n && n <= buf@.len(),
            Err(e) => if e == RespError::NotComplete {
                parse_bulk(buf@) == Parsed::More
            } else {
                parse_bulk(buf@) == Parsed::Bad { e }
            },
        },
{
    let end = match simple_end(buf, 36) {
        Ok(end) => end,
        Err(e) => {
            return Err(e);
        },
    };
    let len = match parse_uint_text(&buf[1..end]) {
        Ok(v) => v,
        Err(e) => {
            return Err(e);
        },
    };
    let rem = buf.len() - (end + 2);
    if rem < len {
        return Err(RespError::NotComplete);
    }
    if rem - len < 2 {
        return Err(RespError::NotComplete);
    }
    let payload = to_vec_bytes(&buf[end + 2..end + 2 + len]);
    Ok((BulkString(payload), end + 2 + len + 2))
}

/// Read an Array or Set: the header, the expect-length walk, then the
/// committing parse of each child.
fn read_list(buf: &[u8], p: u8) -> (r: Result<(Vec<RespFrame>, usize), RespError>)
    requires
        p == 42 || p == 126,
    ensures
        match r {
            Ok((items, n)) => parse_list(buf@, p) == Parsed::Found {
                d: list_frame_data(p, frames_data(items, 0)),
                n: n as int,
            } && 3 <= n && n <= buf@.len(),
            Err(e) => if e == RespError::NotComplete {
                parse_list(buf@, p) == Parsed::More
            } else {
                parse_list(buf@, p) == Parsed::Bad { e }
            },
        },
    decreases buf@.len(), 2int,
{
    let end = match simple_end(buf, p) {
        Ok(end) => end,
        Err(e) => {
            return Err(e);
        },
    };
    let k = match parse_uint_text(&buf[1..end]) {
        Ok(v) => v,
        Err(e) => {
            return Err(e);
        },
    };
    let total = match total_len_core(buf, end, k, p) {
        Ok(t) => t,
        Err(e) => {
            return Err(e);
        },
    };
    if buf.len() < total {
        return Err(RespError::NotComplete);
    }
    let mut items: Vec<RespFrame> = Vec::new();
    let mut used: usize = end + 2;
    let mut j: usize = 0;
    while j < k
        invariant
            p == 42 || p == 126,
            end + 2 <= used <= buf@.len(),
            j <= k,
            items@.len() == j,
            parse_list(buf@, p) == (match parse_many(buf@.skip(end + 2), k as int) {
                ParsedSeq::More => Parsed::More,
                ParsedSeq::Bad { e } => Parsed::Bad { e },
                ParsedSeq::Found { items: its, n } => Parsed::Found {
                    d: list_frame_data(p, its),
                    n: end + 2 + n,
                },
            }),
            parse_many(buf@.skip(end + 2), k as int) == (match parse_many(
                buf@.skip(used as int),
                k - j,
            ) {
                ParsedSeq::Found { items: rest, n } => ParsedSeq::Found {
                    items: frames_data(items, 0) + rest,
                    n: used - end - 2 + n,
                },
                o => o,
            }),
        decreases k - j,
    {
        let child = match read_frame(&buf[used..buf.len()]) {
            Ok(x) => x,
            Err(e) => {
                return Err(e);
            },
        };
        let f = child.0;
        let c = child.1;
        let ghost prev = frames_data(items, 0);
        let ghost s_u = buf@.skip(used as int);
        proof {
            lemma_frames_data_is(items, 0);
            assert(s_u.skip(c as int) =~= buf@.skip((used + c) as int));
        }
        items.push(f);
        proof {
            lemma_frames_data_is(items, 0);
            assert(frames_data(items, 0) =~= prev + seq![frame_data(items@[j as int])]);
            match parse_many(buf@.skip((used + c) as int), k - j - 1) {
                ParsedSeq::Found { items: rest, n } => {
                    assert((prev + seq![frame_data(items@[j as int])]) + rest =~= prev + (seq![
                        frame_data(items@[j as int]),
                    ] + rest));
                },
                _ => {},
            }
        }
        used = used + c;
        j += 1;
    }
    proof {
        assert(frames_data(items, 0) + Seq::<FrameData>::empty() =~= frames_data(items, 0));
    }
    Ok((items, used))
}

/// Read a Map: the header, the expect-length walk, then keys and
/// values committed into the container with last-write-wins.
fn read_map(buf: &[u8]) -> (r: Result<(RespMap, usize), RespError>)
    ensures
        match r {
            Ok((m, n)) => parse_map(buf@) == Parsed::Found {
                d: FrameData::MapValue(m@),
                n: n as int,
            } && 3 <= n && n <= buf@.len(),
            Err(e) => if e == RespError::NotComplete {
                parse_map(buf@) == Parsed::More
            } else {
                parse_map(buf@) == Parsed::Bad { e }
            },
        },
    decreases buf@.len(), 2int,
{
    let end = match simple_end(buf, 37) {
        Ok(end) => end,
        Err(e) => {
            return Err(e);
        },
    };
    let k = match parse_uint_text(&buf[1..end]) {
        Ok(v) => v,
        Err(e) => {
            return Err(e);
        },
    };
    let total = match total_len_core(buf, end, k, 37) {
        Ok(t) => t,
        Err(e) => {
            return Err(e);
        },
    };
    if buf.len() < total {
        return Err(RespError::NotComplete);
    }
    let mut acc = RespMap::new();
    let ghost done: Seq<(Seq<u8>, FrameData)> = Seq::empty();
    let mut done_g = Ghost(done);
    let mut used: usize = end + 2;
    let mut j: usize = 0;
    while j < k
        invariant
            end + 2 <= used <= buf@.len(),
            j <= k,
            acc@ == lww_fold(done_g@),
            parse_map(buf@) == (match parse_pairs(buf@.skip(end + 2), k as int) {
                ParsedEntries::More => Parsed::More,
                ParsedEntries::Bad { e } => Parsed::Bad { e },
                ParsedEntries::Found { items: its, n } => Parsed::Found {
                    d: FrameData::MapValue(lww_fold(its)),
                    n: end + 2 + n,
                },
            }),
            parse_pairs(buf@.skip(end + 2), k as int) == (match parse_pairs(
                buf@.skip(used as int),
                k - j,
            ) {
                ParsedEntries::Found { items: rest, n } => ParsedEntries::Found {
                    items: done_g@ + rest,
                    n: used - end - 2 + n,
                },
                o => o,
            }),
        decreases k - j,
    {
        let keyr = match read_simple(&buf[used..buf.len()], 43) {
            Ok(x) => x,
            Err(e) => {
                return Err(e);
            },
        };
        let key = keyr.0;
        let c1 = keyr.1;
        proof {
            assert(buf@.skip(used as int).skip(c1 as int) =~= buf@.skip((used + c1) as int));
        }
        let valr = match read_frame(&buf[used + c1..buf.len()]) {
            Ok(x) => x,
            Err(e) => {
                return Err(e);
            },
        };
        let value = valr.0;
        let c2 = valr.1;
        let ghost kview = key@;
        let ghost vview = frame_data(value);
        let ghost olddone = done_g@;
        proof {
            assert(buf@.skip(used as int).skip(c1 + c2) =~= buf@.skip((used + c1 + c2) as int));
            assert(simple_payload(line_frame_data(43, kview)) == kview);
        }
        acc.insert(key, value);
        proof {
            done_g@ = olddone.push((kview, vview));
        }
        proof {
            assert(done_g@.drop_last() =~= olddone);
            assert(lww_fold(done_g@) == crate::resp::model::lww_insert(
                lww_fold(olddone),
                kview,
                vview,
            ));
            match parse_pairs(buf@.skip((used + c1 + c2) as int), k - j - 1) {
                ParsedEntries::Found { items: rest, n } => {
                    assert((olddone + seq![(kview, vview)]) + rest =~= olddone + (seq![
                        (kview, vview),
                    ] + rest));
                    assert(done_g@ =~= olddone + seq![(kview, vview)]);
                },
                _ => {
                    assert(done_g@ =~= olddone + seq![(kview, vview)]);
                },
            }
        }
        used = used + c1 + c2;
        j += 1;
    }
    proof {
        assert(done_g@ + Seq::<(Seq<u8>, FrameData)>::empty() =~= done_g@);
    }
    Ok((acc, used))
}

/// Parse the frame at the head of `buf`: on success the frame and how
/// many bytes it occupied. The buffer itself is untouched.
pub fn read_frame(buf: &[u8]) -> (r: Result<(RespFrame, usize), RespError>)
    ensures
        match r {
            Ok((f, n)) => parse(buf@) == Parsed::Found { d: f@, n: n as int } && 3 <= n && n
                <= buf@.len(),
            Err(e) => if e == RespError::NotComplete {
                parse(buf@) == Parsed::More
            } else {
                parse(buf@) == Parsed::Bad { e }
            },
        },
    decreases buf@.len(), 3int,
{
    if buf.len() == 0 {
        return Err(RespError::NotComplete);
    }
    let b = buf[0];
    if b == 43 {
        match read_simple(buf, 43) {
            Ok((v, n)) => Ok((RespFrame::SimpleString(SimpleString(v)), n)),
            Err(e) => Err(e),
        }
    } else if b == 45 {
        match read_simple(buf, 45) {
            Ok((v, n)) => Ok((RespFrame::Error(SimpleError(v)), n)),
            Err(e) => Err(e),
        }
    } else if b == 58 {
        match read_integer(buf) {
            Ok((v, n)) => Ok((RespFrame::Integer(v), n)),
            Err(e) => Err(e),
        }
    } else if b == 36 {
        match fixed_needed(buf, &[36, 45, 49, 13, 10]) {
            Ok(n) => {
                proof {
                    assert([36u8, 45u8, 49u8, 13u8, 10u8]@ =~= null_bulk_pat());
                }
                Ok((RespFrame::NullBulkString(RespNullBulkString), n))
            },
            Err(RespError::NotComplete) => {
                proof {
                    assert([36u8, 45u8, 49u8, 13u8, 10u8]@ =~= null_bulk_pat());
                }
                Err(RespError::NotComplete)
            },
            Err(_) => {
                proof {
                    assert([36u8, 45u8, 49u8, 13u8, 10u8]@ =~= null_bulk_pat());
                }
                match read_bulk(buf) {
                    Ok((v, n)) => Ok((RespFrame::BulkString(v), n)),
                    Err(e) => Err(e),
                }
            },
        }
    } else if b == 42 {
        match fixed_needed(buf, &[42, 45, 49, 13, 10]) {
            Ok(n) => {
                proof {
                    assert([42u8, 45u8, 49u8, 13u8, 10u8]@ =~= null_array_pat());
                }
                Ok((RespFrame::NullArray(RespNullArray), n))
            },
            Err(RespError::NotComplete) => {
                proof {
                    assert([42u8, 45u8, 49u8, 13u8, 10u8]@ =~= null_array_pat());
                }
                Err(RespError::NotComplete)
            },
            Err(_) => {
                proof {
                    assert([42u8, 45u8, 49u8, 13u8, 10u8]@ =~= null_array_pat());
                }
                match read_list(buf, 42) {
                    Ok((items, n)) => Ok((RespFrame::Array(RespArray(items)), n)),
                    Err(e) => Err(e),
                }
            },
        }
    } else if b == 95 {
        match fixed_needed(buf, &[95, 13, 10]) {
            Ok(n) => {
                proof {
                    assert([95u8, 13u8, 10u8]@ =~= null_pat());
                }
                Ok((RespFrame::Null(RespNull), n))
            },
            Err(e) => {
                proof {
                    assert([95u8, 13u8, 10u8]@ =~= null_pat());
                }
                Err(e)
            },
        }
    } else if b == 35 {
        match read_bool(buf) {
            Ok((v, n)) => Ok((RespFrame::Boolean(v), n)),
            Err(e) => Err(e),
        }
    } else if b == 44 {
        match read_double(buf) {
            Ok((v, n)) => Ok((RespFrame::Double(v), n)),
            Err(e) => Err(e),
        }
    } else if b == 37 {
        match read_map(buf) {
            Ok((m, n)) => Ok((RespFrame::MapValue(m), n)),
            Err(e) => Err(e),
        }
    } else if b == 126 {
        match read_list(buf, 126) {
            Ok((items, n)) => Ok((RespFrame::SetValue(RespSet(items)), n)),
            Err(e) => Err(e),
        }
    } else {
        Err(RespError::InvalidFrameType)
    }
}


// ---------------------------------------------------------------------
// The buffer-consuming interface
// ---------------------------------------------------------------------

/// Decode one frame from the front of `buf`. On success the frame's
/// bytes are removed; on any error, `buf` is byte-for-byte unchanged,
/// and `NotComplete` means more input may still produce a frame.
pub fn decode_frame(buf: &mut Vec<u8>) -> (r: Result<RespFrame, RespError>)
    ensures
        match r {
            Ok(f) => parse(old(buf)@) matches Parsed::Found { d, n } && d == f@ && final(buf)@
                == old(buf)@.skip(n),
            Err(e) => final(buf)@ == old(buf)@ && (if e == RespError::NotComplete {
                parse(old(buf)@) == Parsed::More
            } else {
                parse(old(buf)@) == Parsed::Bad { e }
            }),
        },
{
    match read_frame(buf.as_slice()) {
        Ok((f, n)) => {
            drop_front(buf, n);
            Ok(f)
        },
        Err(e) => Err(e),
    }
}

/// The number a `calc_total_len` call reports, by container prefix.
pub open spec fn calc_len_spec(s: Seq<u8>, end: int, len: int, p: u8) -> NeedRes {
    if p == 42 || p == 126 {
        match need_many(s.skip(end + 2), len) {
            NeedRes::Found { n } => NeedRes::Found { n: end + 2 + n },
            o => o,
        }
    } else if p == 37 {
        match need_pairs(s.skip(end + 2), len) {
            NeedRes::Found { n } => NeedRes::Found { n: end + 2 + n },
            o => o,
        }
    } else {
        NeedRes::Found { n: len + 2 }
    }
}

/// Total byte count of the composite frame whose header line ends at
/// `end` and announces `len` children: the expect-length walk of the
/// two-phase decode. For `*` and `~` it walks `len` frames, for `%` it
/// walks `len` key-value entries; any other prefix is a plain length.
pub fn calc_total_len(buf: &[u8], end: usize, len: usize, prefix: &str) -> (r: Result<
    usize,
    RespError,
>)
    requires
        prefix.is_ascii(),
        prefix@.len() == 1,
        end + 2 <= buf@.len(),
        len <= usize::MAX - 2,
    ensures
        match r {
            Ok(n) => calc_len_spec(buf@, end as int, len as int, prefix.spec_bytes()[0])
                == NeedRes::Found { n: n as int },
            Err(e) => if e == RespError::NotComplete {
                calc_len_spec(buf@, end as int, len as int, prefix.spec_bytes()[0])
                    == NeedRes::More
            } else {
                calc_len_spec(buf@, end as int, len as int, prefix.spec_bytes()[0])
                    == NeedRes::Bad { e }
            },
        },
{
    proof {
        broadcast use vstd::string::is_ascii_spec_bytes;

    }
    let pb = prefix.as_bytes();
    let p = pb[0];
    if p == 42 || p == 126 || p == 37 {
        total_len_core(buf, end, len, p)
    } else {
        Ok(len + 2)
    }
}

/// Parse the header line of a length-prefixed frame: the index of its
/// CR and the announced length.
pub fn parse_length(buf: &[u8], prefix: &str) -> (r: Result<(usize, usize), RespError>)
    requires
        prefix.is_ascii(),
        prefix@.len() == 1,
    ensures
        ({
            let p = prefix.spec_bytes()[0];
            match r {
                Ok((end, len)) => line_probe(buf@, p) == LineRes::Line { end: end as int }
                    && is_uint_text(buf@.subrange(1, end as int)) && len as int == uint_text_val(
                    buf@.subrange(1, end as int),
                ) && 1 <= end && end + 2 <= buf@.len(),
                Err(e) => {
                    &&& e == RespError::NotComplete ==> line_probe(buf@, p) == LineRes::Short
                    &&& e == RespError::InvalidFrameType ==> line_probe(buf@, p) == LineRes::Wrong
                    &&& e == RespError::ParseIntError ==> (line_probe(buf@, p) matches
                        LineRes::Line { end } && !is_uint_text(buf@.subrange(1, end)))
                    &&& (e == RespError::NotComplete || e == RespError::InvalidFrameType || e
                        == RespError::ParseIntError)
                },
            }
        }),
{
    proof {
        broadcast use vstd::string::is_ascii_spec_bytes;

    }
    let pb = prefix.as_bytes();
    let p = pb[0];
    let end = match simple_end(buf, p) {
        Ok(end) => end,
        Err(e) => {
            return Err(e);
        },
    };
    let len = match parse_uint_text(&buf[1..end]) {
        Ok(v) => v,
        Err(e) => {
            return Err(e);
        },
    };
    Ok((end, len))
}

/// Locate the first CRLF of a line frame, checking the prefix: the
/// payload of the line is `buf[1..end]`.
pub fn extract_simple_frame_data(buf: &[u8], prefix: &str) -> (r: Result<usize, RespError>)
    requires
        prefix.is_ascii(),
        prefix@.len() == 1,
    ensures
        ({
            let p = prefix.spec_bytes()[0];
            match r {
                Ok(end) => line_probe(buf@, p) == LineRes::Line { end: end as int } && 1 <= end
                    && end + 2 <= buf@.len(),
                Err(e) => {
                    &&& (e == RespError::NotComplete || e == RespError::InvalidFrameType)
                    &&& (e == RespError::NotComplete ==> line_probe(buf@, p) == LineRes::Short)
                    &&& (e == RespError::InvalidFrameType ==> line_probe(buf@, p)
                        == LineRes::Wrong)
                },
            }
        }),
{
    proof {
        broadcast use vstd::string::is_ascii_spec_bytes;

    }
    let pb = prefix.as_bytes();
    simple_end(buf, pb[0])
}

/// Consume an exact expected text from the front of the buffer, such
/// as a null sentinel. Anything but a full match leaves `buf` alone.
pub fn extract_fixed_data(buf: &mut Vec<u8>, expect: &str, expect_type: &str) -> (r: Result<
    (),
    RespError,
>)
    requires
        expect.is_ascii(),
    ensures
        ({
            let pat = expect.spec_bytes();
            match r {
                Ok(()) => old(buf)@.len() >= pat.len() && old(buf)@.subrange(0, pat.len() as int)
                    == pat && final(buf)@ == old(buf)@.skip(pat.len() as int),
                Err(e) => {
                    &&& final(buf)@ == old(buf)@
                    &&& (e == RespError::NotComplete || e == RespError::InvalidFrameType)
                    &&& (e == RespError::NotComplete ==> old(buf)@.len() < pat.len())
                    &&& (e == RespError::InvalidFrameType ==> old(buf)@.len() >= pat.len() && old(
                        buf,
                    )@.subrange(0, pat.len() as int) != pat)
                },
            }
        }),
{
    proof {
        broadcast use vstd::string::is_ascii_spec_bytes;

    }
    let _ = expect_type;
    let pat = expect.as_bytes();
    match fixed_needed(buf.as_slice(), pat) {
        Ok(n) => {
            drop_front(buf, n);
            Ok(())
        },
        Err(e) => Err(e),
    }
}

/// Decoding from the front of a growable byte buffer. `decode` removes
/// exactly the bytes of one frame on success and nothing otherwise;
/// `expect_length` reports how many bytes the head frame needs without
/// touching the buffer. Each implementor names the piece of the model
/// it decides (`head_parse`, `head_need`) and what a decoded value
/// stands for (`decoded`).
pub trait RespDecode: Sized {
    /// The abstract frame a decoded value carries.
    spec fn decoded(&self) -> FrameData;

    /// The model parser for this frame kind at the head of a buffer.
    spec fn head_parse(s: Seq<u8>) -> Parsed;

    /// The model expect-length probe for this frame kind.
    spec fn head_need(s: Seq<u8>) -> NeedRes;

    fn decode(buf: &mut Vec<u8>) -> (r: Result<Self, RespError>)
        ensures
            match r {
                Ok(v) => Self::head_parse(old(buf)@) matches Parsed::Found { d, n } && d
                    == v.decoded() && final(buf)@ == old(buf)@.skip(n),
                Err(e) => final(buf)@ == old(buf)@ && (if e == RespError::NotComplete {
                    Self::head_parse(old(buf)@) == Parsed::More
                } else {
                    Self::head_parse(old(buf)@) == (Parsed::Bad { e })
                }),
            },
    ;

    fn expect_length(buf: &[u8]) -> (r: Result<usize, RespError>)
        ensures
            match r {
                Ok(n) => Self::head_need(buf@) == (NeedRes::Found { n: n as int }),
                Err(e) => if e == RespError::NotComplete {
                    Self::head_need(buf@) == NeedRes::More
                } else {
                    Self::head_need(buf@) == (NeedRes::Bad { e })
                },
            },
    ;
}

impl RespDecode for RespFrame {
    open spec fn decoded(&self) -> FrameData {
        frame_data(*self)
    }

    open spec fn head_parse(s: Seq<u8>) -> Parsed {
        parse(s)
    }

    open spec fn head_need(s: Seq<u8>) -> NeedRes {
        need(s)
    }

    fn decode(buf: &mut Vec<u8>) -> (r: Result<Self, RespError>) {
        decode_frame(buf)
    }

    fn expect_length(buf: &[u8]) -> Result<usize, RespError> {
        frame_needed(buf)
    }
}

impl RespDecode for SimpleString {
    open spec fn decoded(&self) -> FrameData {
        FrameData::SimpleString(self@)
    }

    open spec fn head_parse(s: Seq<u8>) -> Parsed {
        parse_simple(s, 43)
    }

    open spec fn head_need(s: Seq<u8>) -> NeedRes {
        need_line(s, 43)
    }

    fn decode(buf: &mut Vec<u8>) -> (r: Result<Self, RespError>) {
        match read_simple(buf.as_slice(), 43) {
            Ok((v, n)) => {
                drop_front(buf, n);
                Ok(SimpleString(v))
            },
            Err(e) => Err(e),
        }
    }

    fn expect_length(buf: &[u8]) -> Result<usize, RespError> {
        line_needed(buf, 43)
    }
}

impl RespDecode for SimpleError {
    open spec fn decoded(&self) -> FrameData {
        FrameData::Error(self@)
    }

    open spec fn head_parse(s: Seq<u8>) -> Parsed {
        parse_simple(s, 45)
    }

    open spec fn head_need(s: Seq<u8>) -> NeedRes {
        need_line(s, 45)
    }

    fn decode(buf: &mut Vec<u8>) -> (r: Result<Self, RespError>) {
        match read_simple(buf.as_slice(), 45) {
            Ok((v, n)) => {
                drop_front(buf, n);
                Ok(SimpleError(v))
            },
            Err(e) => Err(e),
        }
    }

    fn expect_length(buf: &[u8]) -> Result<usize, RespError> {
        line_needed(buf, 45)
    }
}

impl RespDecode for i64 {
    open spec fn decoded(&self) -> FrameData {
        FrameData::Integer(*self as int)
    }

    open spec fn head_parse(s: Seq<u8>) -> Parsed {
        parse_integer(s)
    }

    open spec fn head_need(s: Seq<u8>) -> NeedRes {
        need_line(s, 58)
    }

    fn decode(buf: &mut Vec<u8>) -> (r: Result<Self, RespError>) {
        match read_integer(buf.as_slice()) {
            Ok((v, n)) => {
                drop_front(buf, n);
                Ok(v)
            },
            Err(e) => Err(e),
        }
    }

    fn expect_length(buf: &[u8]) -> Result<usize, RespError> {
        line_needed(buf, 58)
    }
}

impl RespDecode for BulkString {
    open spec fn decoded(&self) -> FrameData {
        FrameData::BulkString(self@)
    }

    open spec fn head_parse(s: Seq<u8>) -> Parsed {
        parse_bulk(s)
    }

    open spec fn head_need(s: Seq<u8>) -> NeedRes {
        need_bulk(s)
    }

    fn decode(buf: &mut Vec<u8>) -> (r: Result<Self, RespError>) {
        match read_bulk(buf.as_slice()) {
            Ok((v, n)) => {
                drop_front(buf, n);
                Ok(v)
            },
            Err(e) => Err(e),
        }
    }

    fn expect_length(buf: &[u8]) -> Result<usize, RespError> {
        bulk_needed(buf)
    }
}

impl RespDecode for RespNullBulkString {
    open spec fn decoded(&self) -> FrameData {
        FrameData::NullBulkString
    }

    open spec fn head_parse(s: Seq<u8>) -> Parsed {
        parse_exact(s, null_bulk_pat(), FrameData::NullBulkString)
    }

    open spec fn head_need(s: Seq<u8>) -> NeedRes {
        NeedRes::Found { n: 5 }
    }

    fn decode(buf: &mut Vec<u8>) -> (r: Result<Self, RespError>) {
        match fixed_needed(buf.as_slice(), &[36, 45, 49, 13, 10]) {
            Ok(n) => {
                drop_front(buf, n);
                Ok(RespNullBulkString)
            },
            Err(e) => Err(e),
        }
    }

    fn expect_length(buf: &[u8]) -> Result<usize, RespError> {
        let _ = buf;
        Ok(5)
    }
}

impl RespDecode for RespArray {
    open spec fn decoded(&self) -> FrameData {
        FrameData::Array(self@)
    }

    open spec fn head_parse(s: Seq<u8>) -> Parsed {
        parse_list(s, 42)
    }

    open spec fn head_need(s: Seq<u8>) -> NeedRes {
        need_list(s, 42)
    }

    fn decode(buf: &mut Vec<u8>) -> (r: Result<Self, RespError>) {
        match read_list(buf.as_slice(), 42) {
            Ok((items, n)) => {
                drop_front(buf, n);
                Ok(RespArray(items))
            },
            Err(e) => Err(e),
        }
    }

    fn expect_length(buf: &[u8]) -> Result<usize, RespError> {
        list_needed(buf, 42)
    }
}

impl RespDecode for RespNullArray {
    open spec fn decoded(&self) -> FrameData {
        FrameData::NullArray
    }

    open spec fn head_parse(s: Seq<u8>) -> Parsed {
        parse_exact(s, null_array_pat(), FrameData::NullArray)
    }

    open spec fn head_need(s: Seq<u8>) -> NeedRes {
        NeedRes::Found { n: 5 }
    }

    fn decode(buf: &mut Vec<u8>) -> (r: Result<Self, RespError>) {
        match fixed_needed(buf.as_slice(), &[42, 45, 49, 13, 10]) {
            Ok(n) => {
                drop_front(buf, n);
                Ok(RespNullArray)
            },
            Err(e) => Err(e),
        }
    }

    fn expect_length(buf: &[u8]) -> Result<usize, RespError> {
        let _ = buf;
        Ok(5)
    }
}

impl RespDecode for RespNull {
    open spec fn decoded(&self) -> FrameData {
        FrameData::Null
    }

    open spec fn head_parse(s: Seq<u8>) -> Parsed {
        parse_exact(s, null_pat(), FrameData::Null)
    }

    open spec fn head_need(s: Seq<u8>) -> NeedRes {
        NeedRes::Found { n: 3 }
    }

    fn decode(buf: &mut Vec<u8>) -> (r: Result<Self, RespError>) {
        match fixed_needed(buf.as_slice(), &[95, 13, 10]) {
            Ok(n) => {
                drop_front(buf, n);
                Ok(RespNull)
            },
            Err(e) => Err(e),
        }
    }

    fn expect_length(buf: &[u8]) -> Result<usize, RespError> {
        let _ = buf;
        Ok(3)
    }
}

impl RespDecode for bool {
    open spec fn decoded(&self) -> FrameData {
        FrameData::Boolean(*self)
    }

    open spec fn head_parse(s: Seq<u8>) -> Parsed {
        parse_boolean(s)
    }

    open spec fn head_need(s: Seq<u8>) -> NeedRes {
        NeedRes::Found { n: 4 }
    }

    fn decode(buf: &mut Vec<u8>) -> (r: Result<Self, RespError>) {
        match read_bool(buf.as_slice()) {
            Ok((v, n)) => {
                drop_front(buf, n);
                Ok(v)
            },
            Err(e) => Err(e),
        }
    }

    fn expect_length(buf: &[u8]) -> Result<usize, RespError> {
        let _ = buf;
        Ok(4)
    }
}

impl RespDecode for RespDouble {
    open spec fn decoded(&self) -> FrameData {
        FrameData::Double(self@)
    }

    open spec fn head_parse(s: Seq<u8>) -> Parsed {
        parse_double(s)
    }

    open spec fn head_need(s: Seq<u8>) -> NeedRes {
        need_line(s, 44)
    }

    fn decode(buf: &mut Vec<u8>) -> (r: Result<Self, RespError>) {
        match read_double(buf.as_slice()) {
            Ok((v, n)) => {
                drop_front(buf, n);
                Ok(v)
            },
            Err(e) => Err(e),
        }
    }

    fn expect_length(buf: &[u8]) -> Result<usize, RespError> {
        line_needed(buf, 44)
    }
}

impl RespDecode for RespMap {
    open spec fn decoded(&self) -> FrameData {
        FrameData::MapValue(self@)
    }

    open spec fn head_parse(s: Seq<u8>) -> Parsed {
        parse_map(s)
    }

    open spec fn head_need(s: Seq<u8>) -> NeedRes {
        need_map(s)
    }

    fn decode(buf: &mut Vec<u8>) -> (r: Result<Self, RespError>) {
        match read_map(buf.as_slice()) {
            Ok((m, n)) => {
                drop_front(buf, n);
                Ok(m)
            },
            Err(e) => Err(e),
        }
    }

    fn expect_length(buf: &[u8]) -> Result<usize, RespError> {
        map_needed(buf)
    }
}

impl RespDecode for RespSet {
    open spec fn decoded(&self) -> FrameData {
        FrameData::SetValue(self@)
    }

    open spec fn head_parse(s: Seq<u8>) -> Parsed {
        parse_list(s, 126)
    }

    open spec fn head_need(s: Seq<u8>) -> NeedRes {
        need_list(s, 126)
    }

    fn decode(buf: &mut Vec<u8>) -> (r: Result<Self, RespError>) {
        match read_list(buf.as_slice(), 126) {
            Ok((items, n)) => {
                drop_front(buf, n);
                Ok(RespSet(items))
            },
            Err(e) => Err(e),
        }
    }

    fn expect_length(buf: &[u8]) -> Result<usize, RespError> {
        list_needed(buf, 126)
    }
}

} // verus!
