//! The verified encoder: every frame kind serialises to exactly the
//! bytes that `enc_data` gives for its abstract value.

use crate::resp::frame::BulkString;
use crate::resp::frame::RespArray;
use crate::resp::frame::RespDouble;
use crate::resp::frame::RespFrame;
use crate::resp::frame::RespMap;
use crate::resp::frame::RespNull;
use crate::resp::frame::RespNullArray;
use crate::resp::frame::RespNullBulkString;
use crate::resp::frame::RespSet;
use crate::resp::frame::SimpleError;
use crate::resp::frame::SimpleString;
use crate::resp::frame::entries_data;
use crate::resp::frame::frames_data;
use crate::resp::frame::lemma_entries_data_index;
use crate::resp::frame::lemma_entries_data_len;
use crate::resp::frame::lemma_frames_data_index;
use crate::resp::frame::lemma_frames_data_len;
use crate::resp::model::FrameData;
use crate::resp::model::bool_false_pat;
use crate::resp::model::bool_true_pat;
use crate::resp::model::dec_digits;
use crate::resp::model::enc_data;
use crate::resp::model::enc_datas;
use crate::resp::model::enc_entries;
use crate::resp::model::enc_int;
use crate::resp::model::null_array_pat;
use crate::resp::model::null_bulk_pat;
use crate::resp::model::null_pat;
use vstd::prelude::*;

verus! {

broadcast use vstd::std_specs::vec::axiom_vec_index_decreases;

/// Append the bytes of `src` to `out`.
pub fn push_bytes(out: &mut Vec<u8>, src: &[u8])
    ensures
        final(out)@ == old(out)@ + src@,
{
    let mut i: usize = 0;
    while i < src.len()
        invariant
            i <= src@.len(),
            out@ == old(out)@ + src@.subrange(0, i as int),
        decreases src@.len() - i,
    {
        out.push(src[i]);
        proof {
            assert(old(out)@ + src@.subrange(0, i as int) + seq![src@[i as int]] =~= old(out)@
                + src@.subrange(0, i + 1));
        }
        i += 1;
    }
    proof {
        assert(src@.subrange(0, src@.len() as int) =~= src@);
    }
}

/// Append the decimal digits of `n`, most significant first.
pub fn push_dec(out: &mut Vec<u8>, n: u64)
    ensures
        final(out)@ == old(out)@ + dec_digits(n as nat),
    decreases n,
{
    if n < 10 {
        out.push(48 + n as u8);
        proof {
            assert(old(out)@.push((48 + n as nat) as u8) =~= old(out)@ + dec_digits(n as nat));
        }
    } else {
        push_dec(out, n / 10);
        out.push(48 + (n % 10) as u8);
        proof {
            assert(old(out)@ + dec_digits((n / 10) as nat) + seq![(48 + (n as nat) % 10) as u8]
                =~= old(out)@ + dec_digits(n as nat));
        }
    }
}

/// Append the signed decimal text of `i`: `+` for zero and above.
pub fn push_int(out: &mut Vec<u8>, i: i64)
    ensures
        final(out)@ == old(out)@ + enc_int(i as int),
{
    if i >= 0 {
        out.push(43);
        push_dec(out, i as u64);
        proof {
            assert(old(out)@.push(43u8) + dec_digits(i as nat) =~= old(out)@ + enc_int(i as int));
        }
    } else {
        out.push(45);
        let mag: u64 = (-(i as i128)) as u64;
        proof {
            assert(mag as nat == (-(i as int)) as nat);
        }
        push_dec(out, mag);
        proof {
            assert(old(out)@.push(45u8) + dec_digits((-(i as int)) as nat) =~= old(out)@ + enc_int(
                i as int,
            ));
        }
    }
}

/// Append the full encoding of a frame.
pub fn encode_frame(f: &RespFrame, out: &mut Vec<u8>)
    ensures
        final(out)@ == old(out)@ + enc_data(f@),
    decreases f,
{
    match f {
        RespFrame::SimpleString(s) => {
            out.push(43);
            push_bytes(out, s.0.as_slice());
            out.push(13);
            out.push(10);
            proof {
                assert(old(out)@.push(43u8) + s.0@ + seq![13u8] + seq![10u8] =~= old(out)@
                    + enc_data(f@));
                assert(out@ == old(out)@.push(43u8) + s.0@ + seq![13u8] + seq![10u8]) by {
                    assert(old(out)@.push(43u8) + s.0@ + seq![13u8] =~= (old(out)@.push(43u8)
                        + s.0@).push(13u8));
                }
            }
        },
        RespFrame::Error(e) => {
            out.push(45);
            push_bytes(out, e.0.as_slice());
            out.push(13);
            out.push(10);
            proof {
                assert(old(out)@.push(45u8) + e.0@ + seq![13u8] + seq![10u8] =~= old(out)@
                    + enc_data(f@));
                assert(out@ == old(out)@.push(45u8) + e.0@ + seq![13u8] + seq![10u8]) by {
                    assert(old(out)@.push(45u8) + e.0@ + seq![13u8] =~= (old(out)@.push(45u8)
                        + e.0@).push(13u8));
                }
            }
        },
        RespFrame::Integer(i) => {
            out.push(58);
            push_int(out, *i);
            out.push(13);
            out.push(10);
            proof {
                assert((old(out)@.push(58u8) + enc_int(*i as int)).push(13u8).push(10u8) =~= old(
                    out,
                )@ + enc_data(f@));
            }
        },
        RespFrame::BulkString(b) => {
            out.push(36);
            push_dec(out, b.0.len() as u64);
            out.push(13);
            out.push(10);
            push_bytes(out, b.0.as_slice());
            out.push(13);
            out.push(10);
            proof {
                assert(((old(out)@.push(36u8) + dec_digits(b.0@.len())).push(13u8).push(10u8)
                    + b.0@).push(13u8).push(10u8) =~= old(out)@ + enc_data(f@));
            }
        },
        RespFrame::NullBulkString(_) => {
            push_bytes(out, &[36, 45, 49, 13, 10]);
            proof {
                assert([36u8, 45u8, 49u8, 13u8, 10u8]@ =~= null_bulk_pat());
            }
        },
        RespFrame::Array(a) => {
            out.push(42);
            push_dec(out, a.0.len() as u64);
            out.push(13);
            out.push(10);
            encode_frames(&a.0, out);
            proof {
                assert((old(out)@.push(42u8) + dec_digits(a.0@.len())).push(13u8).push(10u8)
                    + enc_datas(frames_data(a.0, 0), 0) =~= old(out)@ + enc_data(f@)) by {
                    lemma_frames_data_len(a.0, 0);
                }
            }
        },
        RespFrame::NullArray(_) => {
            push_bytes(out, &[42, 45, 49, 13, 10]);
            proof {
                assert([42u8, 45u8, 49u8, 13u8, 10u8]@ =~= null_array_pat());
            }
        },
        RespFrame::Null(_) => {
            push_bytes(out, &[95, 13, 10]);
            proof {
                assert([95u8, 13u8, 10u8]@ =~= null_pat());
            }
        },
        RespFrame::Boolean(b) => {
            if *b {
                push_bytes(out, &[35, 116, 13, 10]);
                proof {
                    assert([35u8, 116u8, 13u8, 10u8]@ =~= bool_true_pat());
                }
            } else {
                push_bytes(out, &[35, 102, 13, 10]);
                proof {
                    assert([35u8, 102u8, 13u8, 10u8]@ =~= bool_false_pat());
                }
            }
        },
        RespFrame::Double(d) => {
            out.push(44);
            push_bytes(out, d.0.as_slice());
            out.push(13);
            out.push(10);
            proof {
                assert(old(out)@.push(44u8) + d.0@ + seq![13u8] + seq![10u8] =~= old(out)@
                    + enc_data(f@));
                assert(out@ == old(out)@.push(44u8) + d.0@ + seq![13u8] + seq![10u8]) by {
                    assert(old(out)@.push(44u8) + d.0@ + seq![13u8] =~= (old(out)@.push(44u8)
                        + d.0@).push(13u8));
                }
            }
        },
        RespFrame::MapValue(m) => {
            out.push(37);
            push_dec(out, m.0.len() as u64);
            out.push(13);
            out.push(10);
            encode_entries(&m.0, out);
            proof {
                assert((old(out)@.push(37u8) + dec_digits(m.0@.len())).push(13u8).push(10u8)
                    + enc_entries(entries_data(m.0, 0), 0) =~= old(out)@ + enc_data(f@))
                    by {
                    lemma_entries_data_len(m.0, 0);
                }
            }
        },
        RespFrame::SetValue(s) => {
            out.push(126);
            push_dec(out, s.0.len() as u64);
            out.push(13);
            out.push(10);
            encode_frames(&s.0, out);
            proof {
                assert((old(out)@.push(126u8) + dec_digits(s.0@.len())).push(13u8).push(10u8)
                    + enc_datas(frames_data(s.0, 0), 0) =~= old(out)@ + enc_data(f@)) by {
                    lemma_frames_data_len(s.0, 0);
                }
            }
        },
    }
}

/// Append the encodings of all frames in `v`, in order.
fn encode_frames(v: &Vec<RespFrame>, out: &mut Vec<u8>)
    ensures
        final(out)@ == old(out)@ + enc_datas(frames_data(*v, 0), 0),
    decreases v,
{
    let ghost items = frames_data(*v, 0);
    proof {
        lemma_frames_data_len(*v, 0);
    }
    let mut i: usize = 0;
    while i < v.len()
        invariant
            i <= v@.len(),
            items == frames_data(*v, 0),
            items.len() == v@.len(),
            out@ + enc_datas(items, i as int) == old(out)@ + enc_datas(items, 0),
        decreases v@.len() - i,
    {
        proof {
            lemma_frames_data_index(*v, 0, i as int);
        }
        encode_frame(&v[i], out);
        i += 1;
    }
    proof {
        assert(out@ + enc_datas(items, v@.len() as int) =~= out@);
    }
}

/// Append the encodings of all map entries in `v`, in order: the key
/// as a SimpleString, then the value.
fn encode_entries(v: &Vec<(Vec<u8>, RespFrame)>, out: &mut Vec<u8>)
    ensures
        final(out)@ == old(out)@ + enc_entries(entries_data(*v, 0), 0),
    decreases v,
{
    let ghost items = entries_data(*v, 0);
    proof {
        lemma_entries_data_len(*v, 0);
    }
    let mut i: usize = 0;
    while i < v.len()
        invariant
            i <= v@.len(),
            items == entries_data(*v, 0),
            items.len() == v@.len(),
            out@ + enc_entries(items, i as int) == old(out)@ + enc_entries(items, 0),
        decreases v@.len() - i,
    {
        proof {
            lemma_entries_data_index(*v, 0, i as int);
        }
        let pair = &v[i];
        out.push(43);
        push_bytes(out, pair.0.as_slice());
        out.push(13);
        out.push(10);
        encode_frame(&pair.1, out);
        proof {
            assert(out@ + enc_entries(items, i + 1) =~= old(out)@ + enc_entries(items, 0));
        }
        i += 1;
    }
    proof {
        assert(out@ + enc_entries(items, v@.len() as int) =~= out@);
    }
}

/// Serialisation into a fresh buffer. The contract is the same for
/// every implementor: the bytes are the canonical encoding `self.enc()`.
pub trait RespEncode {
    /// The bytes this value encodes to.
    spec fn enc(&self) -> Seq<u8>;

    fn encode(self) -> (r: Vec<u8>)
        ensures
            r@ == self.enc(),
    ;
}

impl RespEncode for RespFrame {
    open spec fn enc(&self) -> Seq<u8> {
        enc_data(self@)
    }

    fn encode(self) -> (r: Vec<u8>) {
        let mut out: Vec<u8> = Vec::new();
        encode_frame(&self, &mut out);
        proof {
            assert(Seq::<u8>::empty() + enc_data(self@) =~= enc_data(self@));
        }
        out
    }
}

impl RespEncode for SimpleString {
    open spec fn enc(&self) -> Seq<u8> {
        enc_data(FrameData::SimpleString(self@))
    }

    fn encode(self) -> (r: Vec<u8>) {
        RespFrame::SimpleString(self).encode()
    }
}

impl RespEncode for SimpleError {
    open spec fn enc(&self) -> Seq<u8> {
        enc_data(FrameData::Error(self@))
    }

    fn encode(self) -> (r: Vec<u8>) {
        RespFrame::Error(self).encode()
    }
}

impl RespEncode for i64 {
    open spec fn enc(&self) -> Seq<u8> {
        enc_data(FrameData::Integer(*self as int))
    }

    fn encode(self) -> (r: Vec<u8>) {
        RespFrame::Integer(self).encode()
    }
}

impl RespEncode for BulkString {
    open spec fn enc(&self) -> Seq<u8> {
        enc_data(FrameData::BulkString(self@))
    }

    fn encode(self) -> (r: Vec<u8>) {
        RespFrame::BulkString(self).encode()
    }
}

impl RespEncode for RespNullBulkString {
    open spec fn enc(&self) -> Seq<u8> {
        null_bulk_pat()
    }

    fn encode(self) -> (r: Vec<u8>) {
        RespFrame::NullBulkString(self).encode()
    }
}

impl RespEncode for RespArray {
    open spec fn enc(&self) -> Seq<u8> {
        enc_data(FrameData::Array(self@))
    }

    fn encode(self) -> (r: Vec<u8>) {
        RespFrame::Array(self).encode()
    }
}

impl RespEncode for RespNullArray {
    open spec fn enc(&self) -> Seq<u8> {
        null_array_pat()
    }

    fn encode(self) -> (r: Vec<u8>) {
        RespFrame::NullArray(self).encode()
    }
}

impl RespEncode for RespNull {
    open spec fn enc(&self) -> Seq<u8> {
        null_pat()
    }

    fn encode(self) -> (r: Vec<u8>) {
        RespFrame::Null(self).encode()
    }
}

impl RespEncode for bool {
    open spec fn enc(&self) -> Seq<u8> {
        enc_data(FrameData::Boolean(*self))
    }

    fn encode(self) -> (r: Vec<u8>) {
        RespFrame::Boolean(self).encode()
    }
}

impl RespEncode for RespDouble {
    open spec fn enc(&self) -> Seq<u8> {
        enc_data(FrameData::Double(self@))
    }

    fn encode(self) -> (r: Vec<u8>) {
        RespFrame::Double(self).encode()
    }
}

impl RespEncode for RespMap {
    open spec fn enc(&self) -> Seq<u8> {
        enc_data(FrameData::MapValue(self@))
    }

    fn encode(self) -> (r: Vec<u8>) {
        RespFrame::MapValue(self).encode()
    }
}

impl RespEncode for RespSet {
    open spec fn enc(&self) -> Seq<u8> {
        enc_data(FrameData::SetValue(self@))
    }

    fn encode(self) -> (r: Vec<u8>) {
        RespFrame::SetValue(self).encode()
    }
}

} // verus!
