//! Laws of the codec, proved against the model: decoding an encoded
//! frame gives back exactly that frame and consumes exactly its bytes.

use crate::resp::model::FrameData;
use crate::resp::model::LineRes;
use crate::resp::model::NeedRes;
use crate::resp::model::Parsed;
use crate::resp::model::ParsedEntries;
use crate::resp::model::ParsedSeq;
use crate::resp::model::crlf;
use crate::resp::model::data_wf;
use crate::resp::model::datas_wf;
use crate::resp::model::dec_digits;
use crate::resp::model::digits_ok;
use crate::resp::model::digits_val;
use crate::resp::model::enc_data;
use crate::resp::model::enc_datas;
use crate::resp::model::enc_entries;
use crate::resp::model::enc_int;
use crate::resp::model::entries_wf;
use crate::resp::model::find_crlf_at;
use crate::resp::model::int_body;
use crate::resp::model::int_is_neg;
use crate::resp::model::int_text_val;
use crate::resp::model::is_digit;
use crate::resp::model::is_int_text;
use crate::resp::model::is_uint_text;
use crate::resp::model::key_index;
use crate::resp::model::line_probe;
use crate::resp::model::lww_fold;
use crate::resp::model::lww_insert;
use crate::resp::model::need;
use crate::resp::model::need_line;
use crate::resp::model::need_many;
use crate::resp::model::need_pairs;
use crate::resp::model::no_crlf;
use crate::resp::model::parse;
use crate::resp::model::parse_many;
use crate::resp::model::parse_pairs;
use crate::resp::model::uint_body;
use crate::resp::model::uint_text_val;
use vstd::prelude::*;

verus! {

/// Whether the frame's encoding can close a buffer: an empty Array
/// whose bytes end the buffer looks to the decoder like a null-array
/// sentinel still in flight, so it never completes. Anything else
/// does.
pub open spec fn tail_ok(d: FrameData) -> bool
    decreases d,
{
    match d {
        FrameData::Array(items) => items.len() > 0 && tail_ok(items.last()),
        FrameData::SetValue(items) => items.len() == 0 || tail_ok(items.last()),
        FrameData::MapValue(entries) => entries.len() == 0 || tail_ok(entries.last().1),
        _ => true,
    }
}

// ---------------------------------------------------------------------
// Digit texts
// ---------------------------------------------------------------------

proof fn lemma_dec_digits(n: nat)
    ensures
        dec_digits(n).len() >= 1,
        digits_ok(dec_digits(n)),
        digits_val(dec_digits(n)) == n,
        no_crlf(dec_digits(n)),
        is_digit(dec_digits(n)[0]),
    decreases n,
{
    if n < 10 {
        assert(dec_digits(n) == seq![(48 + n) as u8]);
        assert(dec_digits(n).drop_last() =~= Seq::<u8>::empty());
        assert(digits_val(dec_digits(n)) == 10 * digits_val(Seq::<u8>::empty()) + ((48
            + n) as u8 - 48));
    } else {
        lemma_dec_digits(n / 10);
        let x = dec_digits(n / 10);
        let dd = dec_digits(n);
        assert(dd == x + seq![(48 + n % 10) as u8]);
        assert(dd.drop_last() =~= x);
        assert(dd.last() == (48 + n % 10) as u8);
        assert(digits_val(dd) == 10 * digits_val(x) + ((48 + n % 10) as u8 - 48));
        assert forall|i: int| 0 <= i < dd.len() implies is_digit(#[trigger] dd[i]) by {
            if i < x.len() {
                assert(dd[i] == x[i]);
            }
        }
        assert forall|i: int| 0 <= i < dd.len() implies #[trigger] dd[i] != 13 && dd[i] != 10 by {
            assert(is_digit(dd[i]));
        }
    }
}

proof fn lemma_uint_text(n: nat)
    requires
        n <= usize::MAX,
    ensures
        is_uint_text(dec_digits(n)),
        uint_text_val(dec_digits(n)) == n,
        no_crlf(dec_digits(n)),
        dec_digits(n).len() >= 1,
        is_digit(dec_digits(n)[0]),
{
    lemma_dec_digits(n);
    assert(uint_body(dec_digits(n)) == dec_digits(n));
}

proof fn lemma_int_text(i: int)
    requires
        i64::MIN as int <= i <= i64::MAX as int,
    ensures
        is_int_text(enc_int(i)),
        int_text_val(enc_int(i)) == i,
        no_crlf(enc_int(i)),
        enc_int(i).len() >= 2,
        enc_int(i)[0] == 43 || enc_int(i)[0] == 45,
{
    let t = enc_int(i);
    if i >= 0 {
        lemma_dec_digits(i as nat);
        assert(t == seq![43u8] + dec_digits(i as nat));
        assert(int_body(t) =~= dec_digits(i as nat));
        assert(!int_is_neg(t));
        assert forall|j: int| 0 <= j < t.len() implies #[trigger] t[j] != 13 && t[j] != 10 by {
            if j >= 1 {
                assert(t[j] == dec_digits(i as nat)[j - 1]);
                assert(is_digit(t[j]));
            }
        }
    } else {
        lemma_dec_digits((-i) as nat);
        assert(t == seq![45u8] + dec_digits((-i) as nat));
        assert(int_body(t) =~= dec_digits((-i) as nat));
        assert(int_is_neg(t));
        assert forall|j: int| 0 <= j < t.len() implies #[trigger] t[j] != 13 && t[j] != 10 by {
            if j >= 1 {
                assert(t[j] == dec_digits((-i) as nat)[j - 1]);
                assert(is_digit(t[j]));
            }
        }
    }
}

// ---------------------------------------------------------------------
// Line shapes
// ---------------------------------------------------------------------

proof fn lemma_find_crlf_hits(s: Seq<u8>, i: int, e: int)
    requires
        0 <= i <= e,
        e + 2 <= s.len(),
        s[e] == 13,
        s[e + 1] == 10,
        forall|j: int| i <= j < e ==> !(#[trigger] s[j] == 13 && s[j + 1] == 10),
    ensures
        find_crlf_at(s, i) == e,
    decreases e - i,
{
    if i < e {
        lemma_find_crlf_hits(s, i + 1, e);
    }
}

/// The shape of every line frame: prefix byte, CR-free payload, CRLF.
proof fn lemma_line_shape(p: u8, text: Seq<u8>, tail: Seq<u8>)
    requires
        p != 13,
        no_crlf(text),
    ensures
        ({
            let s = seq![p] + text + crlf() + tail;
            &&& line_probe(s, p) == LineRes::Line { end: text.len() as int + 1 }
            &&& s.subrange(1, text.len() as int + 1) == text
            &&& s.len() == 3 + text.len() + tail.len()
        }),
{
    let s = seq![p] + text + crlf() + tail;
    let e: int = text.len() as int + 1;
    assert(s[0] == p);
    assert(s[e] == 13);
    assert(s[e + 1] == 10);
    assert forall|j: int| 0 <= j < e implies !(#[trigger] s[j] == 13 && s[j + 1] == 10) by {
        if j >= 1 {
            assert(s[j] == text[j - 1]);
        }
    }
    lemma_find_crlf_hits(s, 0, e);
    assert(s.subrange(1, e) =~= text);
}

// ---------------------------------------------------------------------
// The expect-length walk over an encoded frame
// ---------------------------------------------------------------------

/// The byte need of an encoded frame is exactly its length, whatever
/// follows it (and something must follow an empty Array).
#[verifier::rlimit(100)]
pub proof fn lemma_need_enc(d: FrameData, rest: Seq<u8>)
    requires
        data_wf(d),
        rest.len() > 0 || tail_ok(d),
    ensures
        need(enc_data(d) + rest) == (NeedRes::Found { n: enc_data(d).len() as int }),
        enc_data(d).len() >= 3,
    decreases d, 0int,
{
    let s = enc_data(d) + rest;
    match d {
        FrameData::SimpleString(text) => {
            assert(s =~= seq![43u8] + text + crlf() + rest);
            lemma_line_shape(43, text, rest);
        },
        FrameData::Error(text) => {
            assert(s =~= seq![45u8] + text + crlf() + rest);
            lemma_line_shape(45, text, rest);
        },
        FrameData::Integer(i) => {
            lemma_int_text(i);
            assert(s =~= seq![58u8] + enc_int(i) + crlf() + rest);
            lemma_line_shape(58, enc_int(i), rest);
        },
        FrameData::Double(t) => {
            assert(s =~= seq![44u8] + t + crlf() + rest);
            lemma_line_shape(44, t, rest);
        },
        FrameData::BulkString(b) => {
            let dd = dec_digits(b.len());
            lemma_uint_text(b.len());
            assert(s =~= seq![36u8] + dd + crlf() + (b + crlf() + rest));
            lemma_line_shape(36, dd, b + crlf() + rest);
            assert(s.len() >= 6);
            assert(s[1] == dd[0]);
            assert(s.subrange(0, 5)[1] == dd[0]);
            assert(is_digit(dd[0]));
            assert(s.subrange(0, 5) != crate::resp::model::null_bulk_pat());
            assert(s.subrange(1, dd.len() as int + 1) == dd);
            assert(enc_data(d).len() == 1 + dd.len() + 2 + b.len() + 2);
        },
        FrameData::NullBulkString => {
            assert(s.subrange(0, 5) =~= crate::resp::model::null_bulk_pat());
        },
        FrameData::NullArray => {
            assert(s.subrange(0, 5) =~= crate::resp::model::null_array_pat());
        },
        FrameData::Null => {
            assert(s[0] == 95);
        },
        FrameData::Boolean(b) => {
            assert(s[0] == 35);
        },
        FrameData::Array(items) => {
            let dd = dec_digits(items.len());
            let body = enc_datas(items, 0);
            lemma_uint_text(items.len());
            assert(s =~= seq![42u8] + dd + crlf() + (body + rest));
            lemma_line_shape(42, dd, body + rest);
            assert(s.len() >= 5) by {
                if items.len() > 0 {
                    lemma_enc_datas_ge(items, 0);
                }
            }
            assert(s[1] == dd[0]);
            assert(s.subrange(0, 5)[1] == dd[0]);
            assert(is_digit(dd[0]));
            assert(s.subrange(0, 5) != crate::resp::model::null_array_pat());
            assert(s.subrange(1, dd.len() as int + 1) == dd);
            let h: int = dd.len() as int + 3;
            assert(s.skip(h) =~= body + rest);
            lemma_need_datas(items, 0, rest);
        },
        FrameData::SetValue(items) => {
            let dd = dec_digits(items.len());
            let body = enc_datas(items, 0);
            lemma_uint_text(items.len());
            assert(s =~= seq![126u8] + dd + crlf() + (body + rest));
            lemma_line_shape(126, dd, body + rest);
            assert(s.subrange(1, dd.len() as int + 1) == dd);
            let h: int = dd.len() as int + 3;
            assert(s.skip(h) =~= body + rest);
            lemma_need_datas(items, 0, rest);
        },
        FrameData::MapValue(entries) => {
            let dd = dec_digits(entries.len());
            let body = enc_entries(entries, 0);
            lemma_uint_text(entries.len());
            assert(s =~= seq![37u8] + dd + crlf() + (body + rest));
            lemma_line_shape(37, dd, body + rest);
            assert(s.subrange(1, dd.len() as int + 1) == dd);
            let h: int = dd.len() as int + 3;
            assert(s.skip(h) =~= body + rest);
            lemma_need_entries(entries, 0, rest);
        },
    }
}

/// A nonempty run encodes at least one frame's bytes.
proof fn lemma_enc_datas_ge(items: Seq<FrameData>, i: int)
    requires
        0 <= i < items.len(),
    ensures
        enc_datas(items, i).len() >= 1,
    decreases items, items.len() - i,
{
    lemma_enc_data_pos(items[i]);
}

/// No frame encodes to nothing.
proof fn lemma_enc_data_pos(d: FrameData)
    ensures
        enc_data(d).len() >= 3,
    decreases d,
{
    match d {
        FrameData::Integer(i) => {
        },
        FrameData::BulkString(b) => {
            lemma_dec_digits(b.len());
        },
        FrameData::Array(items) => {
            lemma_dec_digits(items.len());
        },
        FrameData::SetValue(items) => {
            lemma_dec_digits(items.len());
        },
        FrameData::MapValue(entries) => {
            lemma_dec_digits(entries.len());
        },
        _ => {},
    }
}

/// The walk over an encoded run of frames finds exactly its length.
proof fn lemma_need_datas(items: Seq<FrameData>, i: int, rest: Seq<u8>)
    requires
        0 <= i <= items.len(),
        datas_wf(items, i),
        rest.len() > 0 || i == items.len() || tail_ok(items.last()),
    ensures
        need_many(enc_datas(items, i) + rest, items.len() - i) == (NeedRes::Found {
            n: enc_datas(items, i).len() as int,
        }),
    decreases items, items.len() - i,
{
    if i == items.len() {
        assert(enc_datas(items, i) + rest =~= rest);
        assert(enc_datas(items, i).len() == 0);
    } else {
        let child = enc_data(items[i]);
        let after = enc_datas(items, i + 1);
        let s = enc_datas(items, i) + rest;
        assert(s =~= child + (after + rest));
        lemma_enc_datas_tail_pos(items, i, rest);
        lemma_need_enc(items[i], after + rest);
        assert(s.skip(child.len() as int) =~= after + rest);
        lemma_need_datas(items, i + 1, rest);
    }
}

/// Whatever follows a non-final child is nonempty; the final child
/// inherits the run's own tail condition.
proof fn lemma_enc_datas_tail_pos(items: Seq<FrameData>, i: int, rest: Seq<u8>)
    requires
        0 <= i < items.len(),
        rest.len() > 0 || tail_ok(items.last()),
    ensures
        (enc_datas(items, i + 1) + rest).len() > 0 || tail_ok(items[i]),
    decreases items, items.len() - i,
{
    if i + 1 == items.len() {
        assert(enc_datas(items, i + 1) + rest =~= rest);
        assert(items[i] == items.last());
    } else {
        lemma_enc_datas_ge(items, i + 1);
    }
}

/// The walk over encoded map entries finds exactly their length.
proof fn lemma_need_entries(entries: Seq<(Seq<u8>, FrameData)>, i: int, rest: Seq<u8>)
    requires
        0 <= i <= entries.len(),
        entries_wf(entries, i),
        rest.len() > 0 || i == entries.len() || tail_ok(entries.last().1),
    ensures
        need_pairs(enc_entries(entries, i) + rest, entries.len() - i) == (NeedRes::Found {
            n: enc_entries(entries, i).len() as int,
        }),
    decreases entries, entries.len() - i,
{
    if i == entries.len() {
        assert(enc_entries(entries, i) + rest =~= rest);
        assert(enc_entries(entries, i).len() == 0);
    } else {
        let key = entries[i].0;
        let kenc = seq![43u8] + key + crlf();
        let venc = enc_data(entries[i].1);
        let after = enc_entries(entries, i + 1);
        let s = enc_entries(entries, i) + rest;
        assert(s =~= seq![43u8] + key + crlf() + (venc + after + rest));
        lemma_line_shape(43, key, venc + after + rest);
        let c1: int = key.len() as int + 3;
        assert(s.skip(c1) =~= venc + (after + rest));
        lemma_enc_entries_tail_pos(entries, i, rest);
        lemma_need_enc(entries[i].1, after + rest);
        assert(s.skip(c1).skip(venc.len() as int) =~= after + rest);
        assert(s.skip(c1 + venc.len()) =~= after + rest);
        lemma_need_entries(entries, i + 1, rest);
        assert(s.len() == c1 + venc.len() + after.len() + rest.len());
    }
}

proof fn lemma_enc_entries_tail_pos(entries: Seq<(Seq<u8>, FrameData)>, i: int, rest: Seq<u8>)
    requires
        0 <= i < entries.len(),
        rest.len() > 0 || tail_ok(entries.last().1),
    ensures
        (enc_entries(entries, i + 1) + rest).len() > 0 || tail_ok(entries[i].1),
    decreases entries, entries.len() - i,
{
    if i + 1 == entries.len() {
        assert(enc_entries(entries, i + 1) + rest =~= rest);
        assert(entries[i] == entries.last());
    } else {
        lemma_enc_entries_ge(entries, i + 1);
    }
}

proof fn lemma_enc_entries_ge(entries: Seq<(Seq<u8>, FrameData)>, i: int)
    requires
        0 <= i < entries.len(),
    ensures
        enc_entries(entries, i).len() >= 1,
    decreases entries, entries.len() - i,
{
}

// ---------------------------------------------------------------------
// The committing parse of an encoded frame
// ---------------------------------------------------------------------

/// Parsing an encoded frame yields that frame and consumes exactly
/// its bytes, whatever follows it.
#[verifier::rlimit(100)]
pub proof fn lemma_parse_enc(d: FrameData, rest: Seq<u8>)
    requires
        data_wf(d),
        rest.len() > 0 || tail_ok(d),
    ensures
        parse(enc_data(d) + rest) == (Parsed::Found { d, n: enc_data(d).len() as int }),
    decreases d, 0int,
{
    let s = enc_data(d) + rest;
    lemma_need_enc(d, rest);
    match d {
        FrameData::SimpleString(text) => {
            assert(s =~= seq![43u8] + text + crlf() + rest);
            lemma_line_shape(43, text, rest);
            assert(s[0] == 43);
        },
        FrameData::Error(text) => {
            assert(s =~= seq![45u8] + text + crlf() + rest);
            lemma_line_shape(45, text, rest);
            assert(s[0] == 45);
        },
        FrameData::Integer(i) => {
            lemma_int_text(i);
            assert(s =~= seq![58u8] + enc_int(i) + crlf() + rest);
            lemma_line_shape(58, enc_int(i), rest);
            assert(s[0] == 58);
        },
        FrameData::Double(t) => {
            assert(s =~= seq![44u8] + t + crlf() + rest);
            lemma_line_shape(44, t, rest);
            assert(s[0] == 44);
        },
        FrameData::BulkString(b) => {
            let dd = dec_digits(b.len());
            lemma_uint_text(b.len());
            assert(s =~= seq![36u8] + dd + crlf() + (b + crlf() + rest));
            lemma_line_shape(36, dd, b + crlf() + rest);
            assert(s[0] == 36);
            assert(s.len() >= 6);
            assert(s.subrange(0, 5)[1] == dd[0]);
            assert(is_digit(dd[0]));
            assert(s.subrange(0, 5) != crate::resp::model::null_bulk_pat());
            assert(s.subrange(1, dd.len() as int + 1) == dd);
            let e: int = dd.len() as int + 1;
            assert(s.subrange(e + 2, e + 2 + b.len() as int) =~= b);
        },
        FrameData::NullBulkString => {
            assert(s[0] == 36);
            assert(s.subrange(0, 5) =~= crate::resp::model::null_bulk_pat());
        },
        FrameData::NullArray => {
            assert(s[0] == 42);
            assert(s.subrange(0, 5) =~= crate::resp::model::null_array_pat());
        },
        FrameData::Null => {
            assert(s[0] == 95);
            assert(s.subrange(0, 3) =~= crate::resp::model::null_pat());
        },
        FrameData::Boolean(b) => {
            assert(s[0] == 35);
            if b {
                assert(s.subrange(0, 4) =~= crate::resp::model::bool_true_pat());
            } else {
                assert(s.subrange(0, 4) =~= crate::resp::model::bool_false_pat());
                assert(s.subrange(0, 4) != crate::resp::model::bool_true_pat());
            }
        },
        FrameData::Array(items) => {
            let dd = dec_digits(items.len());
            let body = enc_datas(items, 0);
            lemma_uint_text(items.len());
            assert(s =~= seq![42u8] + dd + crlf() + (body + rest));
            lemma_line_shape(42, dd, body + rest);
            assert(s[0] == 42);
            assert(s.len() >= 5) by {
                if items.len() > 0 {
                    lemma_enc_datas_ge(items, 0);
                }
            }
            assert(s.subrange(0, 5)[1] == dd[0]);
            assert(is_digit(dd[0]));
            assert(s.subrange(0, 5) != crate::resp::model::null_array_pat());
            assert(s.subrange(1, dd.len() as int + 1) == dd);
            let h: int = dd.len() as int + 3;
            assert(s.skip(h) =~= body + rest);
            lemma_need_datas(items, 0, rest);
            lemma_parse_datas(items, 0, rest);
            assert(items.skip(0) =~= items);
        },
        FrameData::SetValue(items) => {
            let dd = dec_digits(items.len());
            let body = enc_datas(items, 0);
            lemma_uint_text(items.len());
            assert(s =~= seq![126u8] + dd + crlf() + (body + rest));
            lemma_line_shape(126, dd, body + rest);
            assert(s[0] == 126);
            assert(s.subrange(1, dd.len() as int + 1) == dd);
            let h: int = dd.len() as int + 3;
            assert(s.skip(h) =~= body + rest);
            lemma_need_datas(items, 0, rest);
            lemma_parse_datas(items, 0, rest);
            assert(items.skip(0) =~= items);
        },
        FrameData::MapValue(entries) => {
            let dd = dec_digits(entries.len());
            let body = enc_entries(entries, 0);
            lemma_uint_text(entries.len());
            assert(s =~= seq![37u8] + dd + crlf() + (body + rest));
            lemma_line_shape(37, dd, body + rest);
            assert(s[0] == 37);
            assert(s.subrange(1, dd.len() as int + 1) == dd);
            let h: int = dd.len() as int + 3;
            assert(s.skip(h) =~= body + rest);
            lemma_need_entries(entries, 0, rest);
            lemma_parse_entries(entries, 0, rest);
            assert(entries.skip(0) =~= entries);
            lemma_lww_fold_id(entries);
        },
    }
}

proof fn lemma_parse_datas(items: Seq<FrameData>, i: int, rest: Seq<u8>)
    requires
        0 <= i <= items.len(),
        datas_wf(items, i),
        rest.len() > 0 || i == items.len() || tail_ok(items.last()),
    ensures
        parse_many(enc_datas(items, i) + rest, items.len() - i) == (ParsedSeq::Found {
            items: items.skip(i),
            n: enc_datas(items, i).len() as int,
        }),
    decreases items, items.len() - i,
{
    if i == items.len() {
        assert(enc_datas(items, i) + rest =~= rest);
        assert(items.skip(i) =~= Seq::<FrameData>::empty());
    } else {
        let child = enc_data(items[i]);
        let after = enc_datas(items, i + 1);
        let s = enc_datas(items, i) + rest;
        assert(s =~= child + (after + rest));
        lemma_enc_datas_tail_pos(items, i, rest);
        lemma_parse_enc(items[i], after + rest);
        lemma_enc_data_pos(items[i]);
        assert(s.len() == child.len() + after.len() + rest.len());
        assert(s.skip(child.len() as int) =~= after + rest);
        lemma_parse_datas(items, i + 1, rest);
        assert(seq![items[i]] + items.skip(i + 1) =~= items.skip(i));
    }
}

proof fn lemma_parse_entries(entries: Seq<(Seq<u8>, FrameData)>, i: int, rest: Seq<u8>)
    requires
        0 <= i <= entries.len(),
        entries_wf(entries, i),
        rest.len() > 0 || i == entries.len() || tail_ok(entries.last().1),
    ensures
        parse_pairs(enc_entries(entries, i) + rest, entries.len() - i) == (ParsedEntries::Found {
            items: entries.skip(i),
            n: enc_entries(entries, i).len() as int,
        }),
    decreases entries, entries.len() - i,
{
    if i == entries.len() {
        assert(enc_entries(entries, i) + rest =~= rest);
        assert(entries.skip(i) =~= Seq::<(Seq<u8>, FrameData)>::empty());
    } else {
        let key = entries[i].0;
        let venc = enc_data(entries[i].1);
        let after = enc_entries(entries, i + 1);
        let s = enc_entries(entries, i) + rest;
        assert(s =~= seq![43u8] + key + crlf() + (venc + after + rest));
        lemma_line_shape(43, key, venc + after + rest);
        let c1: int = key.len() as int + 3;
        assert(s.skip(c1) =~= venc + (after + rest));
        lemma_enc_entries_tail_pos(entries, i, rest);
        lemma_parse_enc(entries[i].1, after + rest);
        lemma_enc_data_pos(entries[i].1);
        assert(s.len() == c1 + venc.len() + after.len() + rest.len());
        assert(s.skip(c1).skip(venc.len() as int) =~= after + rest);
        assert(s.skip(c1 + venc.len()) =~= after + rest);
        lemma_parse_entries(entries, i + 1, rest);
        assert(seq![(key, entries[i].1)] + entries.skip(i + 1) =~= entries.skip(i));
    }
}

/// Folding entries whose keys are distinct reproduces them unchanged.
proof fn lemma_lww_fold_id(entries: Seq<(Seq<u8>, FrameData)>)
    requires
        forall|i: int, j: int|
            0 <= i < j < entries.len() ==> (#[trigger] entries[i].0) != (#[trigger] entries[j].0),
    ensures
        lww_fold(entries) == entries,
    decreases entries.len(),
{
    if entries.len() > 0 {
        let front = entries.drop_last();
        lemma_lww_fold_id(front);
        let k = entries.last().0;
        lemma_key_index_none(front, k, 0);
        assert(lww_insert(front, k, entries.last().1) =~= entries);
    }
}

proof fn lemma_key_index_none(m: Seq<(Seq<u8>, FrameData)>, k: Seq<u8>, i: int)
    requires
        0 <= i <= m.len(),
        forall|j: int| 0 <= j < m.len() ==> (#[trigger] m[j].0) != k,
    ensures
        key_index(m, k, i) == -1,
    decreases m.len() - i,
{
    if i < m.len() {
        lemma_key_index_none(m, k, i + 1);
    }
}

/// Round trip: an encoded well-formed frame decodes back to exactly
/// that frame, consuming exactly its bytes. A lone empty Array is the
/// one exception: its bytes at the very end of a buffer look like an
/// unfinished null-array sentinel.
pub proof fn lemma_round_trip(d: FrameData)
    requires
        data_wf(d),
        tail_ok(d),
    ensures
        parse(enc_data(d)) == (Parsed::Found { d, n: enc_data(d).len() as int }),
{
    lemma_parse_enc(d, Seq::empty());
    assert(enc_data(d) + Seq::<u8>::empty() =~= enc_data(d));
}


// ---------------------------------------------------------------------
// Incremental completeness: strict prefixes never commit
// ---------------------------------------------------------------------

proof fn lemma_find_crlf_absent(s: Seq<u8>, i: int)
    requires
        0 <= i,
        forall|j: int| 0 <= j && j + 2 <= s.len() ==> !(#[trigger] s[j] == 13 && s[j + 1] == 10),
    ensures
        find_crlf_at(s, i) == -1,
    decreases s.len() - i,
{
    if i + 2 <= s.len() {
        lemma_find_crlf_absent(s, i + 1);
    }
}

/// A line frame cut anywhere before its end still waits for the CRLF.
proof fn lemma_line_prefix(p: u8, text: Seq<u8>, k: int)
    requires
        p != 13,
        no_crlf(text),
        0 <= k < 3 + text.len(),
    ensures
        line_probe((seq![p] + text + crlf()).take(k), p) == LineRes::Short,
{
    let full = seq![p] + text + crlf();
    let s = full.take(k);
    if k >= 3 {
        assert(s[0] == p);
        assert forall|j: int| 0 <= j && j + 2 <= s.len() implies !(#[trigger] s[j] == 13 && s[j
            + 1] == 10) by {
            assert(s[j] == full[j]);
            assert(s[j + 1] == full[j + 1]);
            if j >= 1 && j < 1 + text.len() {
                assert(full[j] == text[j - 1]);
            }
            if j == 1 + text.len() {
                assert(j + 2 <= k < full.len());
            }
        }
        lemma_find_crlf_absent(s, 0);
    }
}

/// A cut encoded frame either still waits, or announces a byte need
/// larger than what is present.
proof fn lemma_need_prefix(d: FrameData, k: int)
    requires
        data_wf(d),
        0 <= k < enc_data(d).len(),
    ensures
        need(enc_data(d).take(k)) == NeedRes::More || (need(enc_data(d).take(k)) matches
            NeedRes::Found { n } && n > k),
    decreases d, 1int,
{
    let full = enc_data(d);
    let s = full.take(k);
    if k == 0 {
        assert(s.len() == 0);
    } else {
        assert(s[0] == full[0]);
        match d {
            FrameData::SimpleString(text) => {
                assert(full =~= seq![43u8] + text + crlf());
                lemma_line_prefix(43, text, k);
            },
            FrameData::Error(text) => {
                assert(full =~= seq![45u8] + text + crlf());
                lemma_line_prefix(45, text, k);
            },
            FrameData::Integer(i) => {
                lemma_int_text(i);
                assert(full =~= seq![58u8] + enc_int(i) + crlf());
                lemma_line_prefix(58, enc_int(i), k);
            },
            FrameData::Double(t) => {
                assert(full =~= seq![44u8] + t + crlf());
                lemma_line_prefix(44, t, k);
            },
            FrameData::BulkString(b) => {
                let dd = dec_digits(b.len());
                lemma_uint_text(b.len());
                let h: int = dd.len() as int + 3;
                if k < h {
                    assert((seq![36u8] + dd + crlf()).take(k) =~= s);
                    lemma_line_prefix(36, dd, k);
                } else {
                    assert(s =~= seq![36u8] + dd + crlf() + (b + crlf()).take(k - h));
                    lemma_line_shape(36, dd, (b + crlf()).take(k - h));
                    assert(s.subrange(1, dd.len() as int + 1) == dd);
                }
            },
            FrameData::NullBulkString => {
                assert(s.len() < 5);
            },
            FrameData::NullArray => {
                assert(s.len() < 5);
            },
            FrameData::Null => {
                assert(s.len() < 3);
            },
            FrameData::Boolean(bv) => {
                assert(s.len() < 4);
                assert(s[0] == 35);
            },
            FrameData::Array(items) => {
                lemma_list_need_prefix(d, items, 42, k);
            },
            FrameData::SetValue(items) => {
                lemma_list_need_prefix(d, items, 126, k);
            },
            FrameData::MapValue(entries) => {
                let dd = dec_digits(entries.len());
                lemma_uint_text(entries.len());
                let h: int = dd.len() as int + 3;
                let body = enc_entries(entries, 0);
                assert(full =~= seq![37u8] + dd + crlf() + body);
                if k < h {
                    assert((seq![37u8] + dd + crlf()).take(k) =~= s);
                    lemma_line_prefix(37, dd, k);
                } else {
                    assert(s =~= seq![37u8] + dd + crlf() + body.take(k - h));
                    lemma_line_shape(37, dd, body.take(k - h));
                    assert(s.subrange(1, dd.len() as int + 1) == dd);
                    lemma_need_pairs_prefix(entries, 0, k - h);
                    assert(s.skip(h) =~= body.take(k - h));
                }
            },
        }
    }
}

/// Shared shape of the array and set cases above.
proof fn lemma_list_need_prefix(d: FrameData, items: Seq<FrameData>, p: u8, k: int)
    requires
        data_wf(d),
        d == FrameData::Array(items) || d == FrameData::SetValue(items),
        p == 42 || p == 126,
        d == FrameData::Array(items) ==> p == 42,
        d == FrameData::SetValue(items) ==> p == 126,
        0 < k < enc_data(d).len(),
    ensures
        need(enc_data(d).take(k)) == NeedRes::More,
    decreases d, 0int,
{
    let full = enc_data(d);
    let s = full.take(k);
    let dd = dec_digits(items.len());
    lemma_uint_text(items.len());
    let h: int = dd.len() as int + 3;
    let body = enc_datas(items, 0);
    assert(full =~= seq![p] + dd + crlf() + body);
    if k < h {
        assert((seq![p] + dd + crlf()).take(k) =~= s);
        lemma_line_prefix(p, dd, k);
        if k >= 5 {
            assert(s[1] == dd[0]);
            assert(is_digit(dd[0]));
            assert(s.subrange(0, 5)[1] == dd[0]);
            assert(s.subrange(0, 5) != crate::resp::model::null_array_pat());
        }
    } else {
        assert(s =~= seq![p] + dd + crlf() + body.take(k - h));
        lemma_line_shape(p, dd, body.take(k - h));
        assert(s.subrange(1, dd.len() as int + 1) == dd);
        lemma_need_datas_prefix(items, 0, k - h);
        assert(s.skip(h) =~= body.take(k - h));
        if k >= 5 {
            assert(s[1] == dd[0]);
            assert(is_digit(dd[0]));
            assert(s.subrange(0, 5)[1] == dd[0]);
            assert(s.subrange(0, 5) != crate::resp::model::null_array_pat());
        }
    }
}

/// The expect-length walk over a cut run of frames always waits.
proof fn lemma_need_datas_prefix(items: Seq<FrameData>, i: int, k: int)
    requires
        0 <= i <= items.len(),
        datas_wf(items, i),
        0 <= k < enc_datas(items, i).len(),
    ensures
        need_many(enc_datas(items, i).take(k), items.len() - i) == NeedRes::More,
    decreases items, items.len() - i,
{
    let run = enc_datas(items, i);
    let s = run.take(k);
    let child = enc_data(items[i]);
    let after = enc_datas(items, i + 1);
    lemma_enc_data_pos(items[i]);
    if k < child.len() {
        assert(s =~= child.take(k));
        lemma_need_prefix(items[i], k);
    } else if k == child.len() {
        assert(s =~= child);
        if i + 1 == items.len() {
            assert(after =~= Seq::<u8>::empty());
            assert(run.len() == child.len());
        }
        assert(i + 1 < items.len());
        if tail_ok(items[i]) {
            lemma_need_enc(items[i], Seq::empty());
            assert(child + Seq::<u8>::empty() =~= child);
            assert(s.skip(child.len() as int) =~= Seq::<u8>::empty());
            assert(need(Seq::<u8>::empty()) == NeedRes::More);
            assert(need_many(Seq::<u8>::empty(), items.len() - i - 1) == NeedRes::More);
        } else {
            lemma_need_enc_no_tail(items[i]);
        }
    } else {
        assert(s =~= child + after.take(k - child.len()));
        lemma_need_enc(items[i], after.take(k - child.len()));
        assert(s.skip(child.len() as int) =~= after.take(k - child.len()));
        lemma_need_datas_prefix(items, i + 1, k - child.len());
    }
}

/// The expect-length walk over a cut run of map entries always waits.
#[verifier::rlimit(100)]
proof fn lemma_need_pairs_prefix(entries: Seq<(Seq<u8>, FrameData)>, i: int, k: int)
    requires
        0 <= i <= entries.len(),
        entries_wf(entries, i),
        0 <= k < enc_entries(entries, i).len(),
    ensures
        need_pairs(enc_entries(entries, i).take(k), entries.len() - i) == NeedRes::More,
    decreases entries, entries.len() - i,
{
    let run = enc_entries(entries, i);
    let s = run.take(k);
    let key = entries[i].0;
    let kenc_len: int = key.len() as int + 3;
    let venc = enc_data(entries[i].1);
    let after = enc_entries(entries, i + 1);
    lemma_enc_data_pos(entries[i].1);
    if k < kenc_len {
        assert((seq![43u8] + key + crlf()).take(k) =~= s);
        lemma_line_prefix(43, key, k);
    } else {
        let k2 = k - kenc_len;
        assert(s =~= seq![43u8] + key + crlf() + (venc + after).take(k2));
        lemma_line_shape(43, key, (venc + after).take(k2));
        assert(s.skip(kenc_len) =~= (venc + after).take(k2));
        if k2 < venc.len() {
            assert((venc + after).take(k2) =~= venc.take(k2));
            lemma_need_prefix(entries[i].1, k2);
        } else if k2 == venc.len() {
            assert((venc + after).take(k2) =~= venc);
            if tail_ok(entries[i].1) {
                lemma_need_enc(entries[i].1, Seq::empty());
                assert(venc + Seq::<u8>::empty() =~= venc);
                assert(s.skip(kenc_len).skip(venc.len() as int) =~= Seq::<u8>::empty());
                assert(s.skip(kenc_len + venc.len()) =~= Seq::<u8>::empty());
                assert(need_line(Seq::<u8>::empty(), 43) == NeedRes::More);
                assert(need_pairs(Seq::<u8>::empty(), entries.len() - i - 1) == NeedRes::More);
            } else {
                lemma_need_enc_no_tail(entries[i].1);
            }
        } else {
            assert((venc + after).take(k2) =~= venc + after.take(k2 - venc.len()));
            assert(s.skip(kenc_len) =~= venc + (after.take(k2 - venc.len())));
            lemma_need_enc(entries[i].1, after.take(k2 - venc.len()));
            assert(s.skip(kenc_len).skip(venc.len() as int) =~= after.take(k2 - venc.len()));
            assert(s.skip(kenc_len + venc.len()) =~= after.take(k2 - venc.len()));
            lemma_need_pairs_prefix(entries, i + 1, k2 - venc.len());
        }
    }
}

/// A frame that cannot close a buffer never satisfies the walk even
/// when all its bytes are present: its trailing empty Array looks like
/// an unfinished sentinel.
#[verifier::rlimit(100)]
proof fn lemma_need_enc_no_tail(d: FrameData)
    requires
        data_wf(d),
        !tail_ok(d),
    ensures
        need(enc_data(d)) == NeedRes::More,
    decreases d, 0int,
{
    let s = enc_data(d);
    match d {
        FrameData::Array(items) => {
            let dd = dec_digits(items.len());
            lemma_uint_text(items.len());
            let h: int = dd.len() as int + 3;
            let body = enc_datas(items, 0);
            assert(s =~= seq![42u8] + dd + crlf() + body);
            if items.len() == 0 {
                assert(body =~= Seq::<u8>::empty());
                assert(s.len() == 4);
            } else {
                lemma_line_shape(42, dd, body);
                assert(s.subrange(1, dd.len() as int + 1) == dd);
                assert(s.len() >= 5) by {
                    lemma_enc_datas_ge(items, 0);
                }
                assert(s[1] == dd[0]);
                assert(is_digit(dd[0]));
                assert(s.subrange(0, 5)[1] == dd[0]);
                assert(s.subrange(0, 5) != crate::resp::model::null_array_pat());
                assert(s.skip(h) =~= body);
                lemma_need_datas_no_tail(items, 0);
            }
        },
        FrameData::SetValue(items) => {
            let dd = dec_digits(items.len());
            lemma_uint_text(items.len());
            let h: int = dd.len() as int + 3;
            let body = enc_datas(items, 0);
            assert(s =~= seq![126u8] + dd + crlf() + body);
            lemma_line_shape(126, dd, body);
            assert(s.subrange(1, dd.len() as int + 1) == dd);
            assert(s.skip(h) =~= body);
            lemma_need_datas_no_tail(items, 0);
        },
        FrameData::MapValue(entries) => {
            let dd = dec_digits(entries.len());
            lemma_uint_text(entries.len());
            let h: int = dd.len() as int + 3;
            let body = enc_entries(entries, 0);
            assert(s =~= seq![37u8] + dd + crlf() + body);
            lemma_line_shape(37, dd, body);
            assert(s.subrange(1, dd.len() as int + 1) == dd);
            assert(s.skip(h) =~= body);
            lemma_need_pairs_no_tail(entries, 0);
        },
        _ => {},
    }
}

proof fn lemma_need_datas_no_tail(items: Seq<FrameData>, i: int)
    requires
        0 <= i < items.len(),
        datas_wf(items, i),
        !tail_ok(items.last()),
    ensures
        need_many(enc_datas(items, i), items.len() - i) == NeedRes::More,
    decreases items, items.len() - i,
{
    let run = enc_datas(items, i);
    let child = enc_data(items[i]);
    let after = enc_datas(items, i + 1);
    lemma_enc_data_pos(items[i]);
    if i + 1 == items.len() {
        assert(items[i] == items.last());
        assert(after =~= Seq::<u8>::empty());
        assert(run =~= child);
        lemma_need_enc_no_tail(items[i]);
    } else {
        lemma_enc_datas_ge(items, i + 1);
        lemma_need_enc(items[i], after);
        assert(run =~= child + after);
        assert(run.skip(child.len() as int) =~= after);
        lemma_need_datas_no_tail(items, i + 1);
    }
}

#[verifier::rlimit(100)]
proof fn lemma_need_pairs_no_tail(entries: Seq<(Seq<u8>, FrameData)>, i: int)
    requires
        0 <= i < entries.len(),
        entries_wf(entries, i),
        !tail_ok(entries.last().1),
    ensures
        need_pairs(enc_entries(entries, i), entries.len() - i) == NeedRes::More,
    decreases entries, entries.len() - i,
{
    let run = enc_entries(entries, i);
    let key = entries[i].0;
    let kenc_len: int = key.len() as int + 3;
    let venc = enc_data(entries[i].1);
    let after = enc_entries(entries, i + 1);
    lemma_enc_data_pos(entries[i].1);
    if i + 1 == entries.len() {
        assert(entries[i] == entries.last());
        assert(after =~= Seq::<u8>::empty());
        assert(run =~= seq![43u8] + key + crlf() + venc);
        lemma_line_shape(43, key, venc);
        assert(run.skip(kenc_len) =~= venc);
        lemma_need_enc_no_tail(entries[i].1);
        assert(venc + Seq::<u8>::empty() =~= venc);
    } else {
        lemma_enc_entries_ge(entries, i + 1);
        assert(run =~= seq![43u8] + key + crlf() + (venc + after));
        lemma_line_shape(43, key, venc + after);
        assert(run.skip(kenc_len) =~= venc + after);
        lemma_need_enc(entries[i].1, after);
        assert(run.skip(kenc_len).skip(venc.len() as int) =~= after);
        assert(run.skip(kenc_len + venc.len()) =~= after);
        lemma_need_pairs_no_tail(entries, i + 1);
    }
}

/// A strict prefix of an encoded frame parses to "more input needed".
#[verifier::rlimit(100)]
pub proof fn lemma_parse_prefix(d: FrameData, k: int)
    requires
        data_wf(d),
        0 <= k < enc_data(d).len(),
    ensures
        parse(enc_data(d).take(k)) == Parsed::More,
    decreases d, 1int,
{
    let full = enc_data(d);
    let s = full.take(k);
    if k == 0 {
        assert(s.len() == 0);
    } else {
        assert(s[0] == full[0]);
        match d {
            FrameData::SimpleString(text) => {
                assert(full =~= seq![43u8] + text + crlf());
                lemma_line_prefix(43, text, k);
                assert(s[0] == 43);
            },
            FrameData::Error(text) => {
                assert(full =~= seq![45u8] + text + crlf());
                lemma_line_prefix(45, text, k);
                assert(s[0] == 45);
            },
            FrameData::Integer(i) => {
                lemma_int_text(i);
                assert(full =~= seq![58u8] + enc_int(i) + crlf());
                lemma_line_prefix(58, enc_int(i), k);
                assert(s[0] == 58);
            },
            FrameData::Double(t) => {
                assert(full =~= seq![44u8] + t + crlf());
                lemma_line_prefix(44, t, k);
                assert(s[0] == 44);
            },
            FrameData::BulkString(b) => {
                let dd = dec_digits(b.len());
                lemma_uint_text(b.len());
                let h: int = dd.len() as int + 3;
                assert(s[0] == 36);
                assert(s.len() < 5 || s.subrange(0, 5) != crate::resp::model::null_bulk_pat())
                    by {
                    if s.len() >= 5 {
                        assert(s[1] == dd[0]);
                        assert(is_digit(dd[0]));
                        assert(s.subrange(0, 5)[1] == dd[0]);
                    }
                }
                if k < h {
                    assert((seq![36u8] + dd + crlf()).take(k) =~= s);
                    lemma_line_prefix(36, dd, k);
                } else {
                    assert(s =~= seq![36u8] + dd + crlf() + (b + crlf()).take(k - h));
                    lemma_line_shape(36, dd, (b + crlf()).take(k - h));
                    assert(s.subrange(1, dd.len() as int + 1) == dd);
                    assert(s.len() < h + b.len() + 2);
                }
            },
            FrameData::NullBulkString => {
                assert(s.len() < 5);
                assert(s[0] == 36);
            },
            FrameData::NullArray => {
                assert(s.len() < 5);
                assert(s[0] == 42);
            },
            FrameData::Null => {
                assert(s.len() < 3);
                assert(s[0] == 95);
            },
            FrameData::Boolean(bv) => {
                assert(s.len() < 4);
                assert(s[0] == 35);
            },
            FrameData::Array(items) => {
                let dd = dec_digits(items.len());
                lemma_uint_text(items.len());
                let h: int = dd.len() as int + 3;
                let body = enc_datas(items, 0);
                assert(full =~= seq![42u8] + dd + crlf() + body);
                assert(s[0] == 42);
                assert(s.len() < 5 || s.subrange(0, 5) != crate::resp::model::null_array_pat())
                    by {
                    if s.len() >= 5 {
                        assert(s[1] == dd[0]);
                        assert(is_digit(dd[0]));
                        assert(s.subrange(0, 5)[1] == dd[0]);
                    }
                }
                if k < h {
                    assert((seq![42u8] + dd + crlf()).take(k) =~= s);
                    lemma_line_prefix(42, dd, k);
                } else {
                    assert(s =~= seq![42u8] + dd + crlf() + body.take(k - h));
                    lemma_line_shape(42, dd, body.take(k - h));
                    assert(s.subrange(1, dd.len() as int + 1) == dd);
                    lemma_need_datas_prefix(items, 0, k - h);
                    assert(s.skip(h) =~= body.take(k - h));
                }
            },
            FrameData::SetValue(items) => {
                let dd = dec_digits(items.len());
                lemma_uint_text(items.len());
                let h: int = dd.len() as int + 3;
                let body = enc_datas(items, 0);
                assert(full =~= seq![126u8] + dd + crlf() + body);
                assert(s[0] == 126);
                if k < h {
                    assert((seq![126u8] + dd + crlf()).take(k) =~= s);
                    lemma_line_prefix(126, dd, k);
                } else {
                    assert(s =~= seq![126u8] + dd + crlf() + body.take(k - h));
                    lemma_line_shape(126, dd, body.take(k - h));
                    assert(s.subrange(1, dd.len() as int + 1) == dd);
                    lemma_need_datas_prefix(items, 0, k - h);
                    assert(s.skip(h) =~= body.take(k - h));
                }
            },
            FrameData::MapValue(entries) => {
                let dd = dec_digits(entries.len());
                lemma_uint_text(entries.len());
                let h: int = dd.len() as int + 3;
                let body = enc_entries(entries, 0);
                assert(full =~= seq![37u8] + dd + crlf() + body);
                assert(s[0] == 37);
                if k < h {
                    assert((seq![37u8] + dd + crlf()).take(k) =~= s);
                    lemma_line_prefix(37, dd, k);
                } else {
                    assert(s =~= seq![37u8] + dd + crlf() + body.take(k - h));
                    lemma_line_shape(37, dd, body.take(k - h));
                    assert(s.subrange(1, dd.len() as int + 1) == dd);
                    lemma_need_pairs_prefix(entries, 0, k - h);
                    assert(s.skip(h) =~= body.take(k - h));
                }
            },
        }
    }
}

/// Incremental completeness: any strict prefix of an encoded frame
/// decodes to "not complete", and appending the rest of the bytes then
/// decodes the whole frame, exactly as feeding it in one piece would.
pub proof fn lemma_incremental(d: FrameData, k: int)
    requires
        data_wf(d),
        tail_ok(d),
        0 <= k < enc_data(d).len(),
    ensures
        parse(enc_data(d).take(k)) == Parsed::More,
        parse(enc_data(d).take(k) + enc_data(d).skip(k)) == (Parsed::Found {
            d,
            n: enc_data(d).len() as int,
        }),
{
    lemma_parse_prefix(d, k);
    assert(enc_data(d).take(k) + enc_data(d).skip(k) =~= enc_data(d));
    lemma_round_trip(d);
}
} // verus!
