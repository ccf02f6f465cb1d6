//! The mathematical model of RESP: an abstract frame value (`FrameData`),
//! the canonical encoding of a frame into bytes, and the incremental
//! parser over byte sequences. The executable encoder and decoder are
//! specified against these functions.

use crate::resp::frame::RespError;
use vstd::prelude::*;

verus! {

broadcast use vstd::seq::axiom_seq_index_decreases;

/// The abstract value of one RESP frame, with byte payloads as sequences.
pub enum FrameData {
    SimpleString(Seq<u8>),
    Error(Seq<u8>),
    Integer(int),
    BulkString(Seq<u8>),
    NullBulkString,
    Array(Seq<FrameData>),
    NullArray,
    Null,
    Boolean(bool),
    Double(Seq<u8>),
    MapValue(Seq<(Seq<u8>, FrameData)>),
    SetValue(Seq<FrameData>),
}

// ---------------------------------------------------------------------
// Byte-level building blocks
// ---------------------------------------------------------------------

pub open spec fn crlf() -> Seq<u8> {
    seq![13u8, 10u8]
}

pub open spec fn is_digit(b: u8) -> bool {
    48 <= b <= 57
}

/// Decimal digits of `n`, most significant first, no leading zeros.
pub open spec fn dec_digits(n: nat) -> Seq<u8>
    decreases n,
{
    if n < 10 {
        seq![(48 + n) as u8]
    } else {
        dec_digits(n / 10) + seq![(48 + n % 10) as u8]
    }
}

/// The wire text of an integer: an explicit sign, then decimal digits.
pub open spec fn enc_int(i: int) -> Seq<u8> {
    if i >= 0 {
        seq![43u8] + dec_digits(i as nat)
    } else {
        seq![45u8] + dec_digits((-i) as nat)
    }
}

/// Value of a digit sequence read as a decimal number.
pub open spec fn digits_val(s: Seq<u8>) -> int
    decreases s.len(),
{
    if s.len() == 0 {
        0
    } else {
        10 * digits_val(s.drop_last()) + (s.last() - 48)
    }
}

pub open spec fn digits_ok(s: Seq<u8>) -> bool {
    s.len() > 0 && forall|i: int| 0 <= i < s.len() ==> is_digit(#[trigger] s[i])
}

/// The body of an unsigned number text: an optional leading `+` is skipped.
pub open spec fn uint_body(s: Seq<u8>) -> Seq<u8> {
    if s.len() > 0 && s[0] == 43 {
        s.skip(1)
    } else {
        s
    }
}

/// Whether `s` is the text of a length that fits in `usize`.
pub open spec fn is_uint_text(s: Seq<u8>) -> bool {
    digits_ok(uint_body(s)) && digits_val(uint_body(s)) <= usize::MAX
}

pub open spec fn uint_text_val(s: Seq<u8>) -> int {
    digits_val(uint_body(s))
}

pub open spec fn int_body(s: Seq<u8>) -> Seq<u8> {
    if s.len() > 0 && (s[0] == 43 || s[0] == 45) {
        s.skip(1)
    } else {
        s
    }
}

pub open spec fn int_is_neg(s: Seq<u8>) -> bool {
    s.len() > 0 && s[0] == 45
}

/// Whether `s` is the text of a signed 64-bit integer.
pub open spec fn is_int_text(s: Seq<u8>) -> bool {
    &&& digits_ok(int_body(s))
    &&& if int_is_neg(s) {
        -digits_val(int_body(s)) >= i64::MIN as int
    } else {
        digits_val(int_body(s)) <= i64::MAX as int
    }
}

pub open spec fn int_text_val(s: Seq<u8>) -> int {
    if int_is_neg(s) {
        -digits_val(int_body(s))
    } else {
        digits_val(int_body(s))
    }
}

// ---------------------------------------------------------------------
// The double grammar: [+|-] digits [. digits] [(e|E) [+|-] digits]
// ---------------------------------------------------------------------

/// First index at or after `i` that does not hold a decimal digit.
pub open spec fn digits_end(s: Seq<u8>, i: int) -> int
    decreases s.len() - i,
{
    if 0 <= i < s.len() && is_digit(s[i]) {
        digits_end(s, i + 1)
    } else {
        i
    }
}

/// Whether `s[j..]` is a well-formed exponent part: `e` or `E`, an
/// optional sign, and at least one digit reaching the end of `s`.
pub open spec fn exp_ok(s: Seq<u8>, j: int) -> bool {
    &&& j < s.len()
    &&& (s[j] == 101 || s[j] == 69)
    &&& {
        let k = if j + 1 < s.len() && (s[j + 1] == 43 || s[j + 1] == 45) {
            j + 2
        } else {
            j + 1
        };
        let e = digits_end(s, k);
        e > k && e == s.len()
    }
}

/// The decimal-text grammar accepted for a Double payload.
pub open spec fn double_wf(s: Seq<u8>) -> bool {
    let i0: int = if s.len() > 0 && (s[0] == 43 || s[0] == 45) {
        1
    } else {
        0
    };
    let i1 = digits_end(s, i0);
    &&& i1 > i0
    &&& {
        ||| i1 == s.len()
        ||| (i1 < s.len() && s[i1] == 46 && {
            let i2 = digits_end(s, i1 + 1);
            &&& i2 > i1 + 1
            &&& (i2 == s.len() || exp_ok(s, i2))
        })
        ||| exp_ok(s, i1)
    }
}

// ---------------------------------------------------------------------
// Canonical encoding of a frame
// ---------------------------------------------------------------------

pub open spec fn null_bulk_pat() -> Seq<u8> {
    seq![36u8, 45u8, 49u8, 13u8, 10u8]
}

pub open spec fn null_array_pat() -> Seq<u8> {
    seq![42u8, 45u8, 49u8, 13u8, 10u8]
}

pub open spec fn null_pat() -> Seq<u8> {
    seq![95u8, 13u8, 10u8]
}

pub open spec fn bool_true_pat() -> Seq<u8> {
    seq![35u8, 116u8, 13u8, 10u8]
}

pub open spec fn bool_false_pat() -> Seq<u8> {
    seq![35u8, 102u8, 13u8, 10u8]
}

/// The exact bytes that the encoder emits for a frame.
pub open spec fn enc_data(d: FrameData) -> Seq<u8>
    decreases d, 0int,
{
    match d {
        FrameData::SimpleString(s) => seq![43u8] + s + crlf(),
        FrameData::Error(s) => seq![45u8] + s + crlf(),
        FrameData::Integer(i) => seq![58u8] + enc_int(i) + crlf(),
        FrameData::BulkString(b) => seq![36u8] + dec_digits(b.len()) + crlf() + b + crlf(),
        FrameData::NullBulkString => null_bulk_pat(),
        FrameData::Array(items) => seq![42u8] + dec_digits(items.len()) + crlf() + enc_datas(
            items,
            0,
        ),
        FrameData::NullArray => null_array_pat(),
        FrameData::Null => null_pat(),
        FrameData::Boolean(b) => if b {
            bool_true_pat()
        } else {
            bool_false_pat()
        },
        FrameData::Double(t) => seq![44u8] + t + crlf(),
        FrameData::MapValue(entries) => seq![37u8] + dec_digits(entries.len()) + crlf() + enc_entries(
            entries,
            0,
        ),
        FrameData::SetValue(items) => seq![126u8] + dec_digits(items.len()) + crlf() + enc_datas(
            items,
            0,
        ),
    }
}

/// Concatenated encodings of `items[i..]`.
pub open spec fn enc_datas(items: Seq<FrameData>, i: int) -> Seq<u8>
    decreases items, items.len() - i,
{
    if i < 0 || i >= items.len() {
        Seq::empty()
    } else {
        enc_data(items[i]) + enc_datas(items, i + 1)
    }
}

/// Concatenated encodings of map entries `entries[i..]`: each key as a
/// SimpleString, then the value frame.
pub open spec fn enc_entries(entries: Seq<(Seq<u8>, FrameData)>, i: int) -> Seq<u8>
    decreases entries, entries.len() - i,
{
    if i < 0 || i >= entries.len() {
        Seq::empty()
    } else {
        seq![43u8] + entries[i].0 + crlf() + enc_data(entries[i].1) + enc_entries(entries, i + 1)
    }
}

// ---------------------------------------------------------------------
// Well-formed frames: those the encoder round-trips
// ---------------------------------------------------------------------

pub open spec fn no_crlf(s: Seq<u8>) -> bool {
    forall|i: int| 0 <= i < s.len() ==> #[trigger] s[i] != 13 && s[i] != 10
}

/// Frames whose encoding decodes back to the same value: line payloads
/// hold no CR or LF, numbers are in range, containers are small enough
/// for their lengths to be machine lengths, and map keys are distinct.
pub open spec fn data_wf(d: FrameData) -> bool
    decreases d, 0int,
{
    match d {
        FrameData::SimpleString(s) => no_crlf(s),
        FrameData::Error(s) => no_crlf(s),
        FrameData::Integer(i) => i64::MIN as int <= i <= i64::MAX as int,
        FrameData::BulkString(b) => b.len() + dec_digits(b.len()).len() + 5 <= usize::MAX,
        FrameData::NullBulkString => true,
        FrameData::Array(items) => items.len() <= usize::MAX && datas_wf(items, 0),
        FrameData::NullArray => true,
        FrameData::Null => true,
        FrameData::Boolean(_) => true,
        FrameData::Double(t) => no_crlf(t) && double_wf(t),
        FrameData::MapValue(entries) => {
            &&& entries.len() <= usize::MAX
            &&& entries_wf(entries, 0)
            &&& forall|i: int, j: int|
                0 <= i < j < entries.len() ==> (#[trigger] entries[i].0) != (
                #[trigger] entries[j].0)
        },
        FrameData::SetValue(items) => items.len() <= usize::MAX && datas_wf(items, 0),
    }
}

pub open spec fn datas_wf(items: Seq<FrameData>, i: int) -> bool
    decreases items, items.len() - i,
{
    if i < 0 || i >= items.len() {
        true
    } else {
        data_wf(items[i]) && datas_wf(items, i + 1)
    }
}

pub open spec fn entries_wf(entries: Seq<(Seq<u8>, FrameData)>, i: int) -> bool
    decreases entries, entries.len() - i,
{
    if i < 0 || i >= entries.len() {
        true
    } else {
        no_crlf(entries[i].0) && data_wf(entries[i].1) && entries_wf(entries, i + 1)
    }
}

// ---------------------------------------------------------------------
// The incremental parser over byte sequences
// ---------------------------------------------------------------------

/// Result of probing one simple line `<prefix> ... CRLF`.
pub enum LineRes {
    /// A full line: `end` is the index of the CR.
    Line { end: int },
    /// Not enough bytes yet.
    Short,
    /// The first byte is not the expected prefix.
    Wrong,
}

/// First index at or after `i` where CRLF begins, or -1.
pub open spec fn find_crlf_at(s: Seq<u8>, i: int) -> int
    decreases s.len() - i,
{
    if i < 0 || i + 2 > s.len() {
        -1
    } else if s[i] == 13 && s[i + 1] == 10 {
        i
    } else {
        find_crlf_at(s, i + 1)
    }
}

/// Probe a line frame starting with prefix byte `p`: at least three
/// bytes, the prefix, and a CRLF after at least one payload byte.
pub open spec fn line_probe(s: Seq<u8>, p: u8) -> LineRes {
    if s.len() < 3 {
        LineRes::Short
    } else if s[0] != p {
        LineRes::Wrong
    } else {
        let e = find_crlf_at(s, 0);
        if e <= 0 {
            LineRes::Short
        } else {
            LineRes::Line { end: e }
        }
    }
}

/// Result of asking how many bytes one frame at the head of `s` needs.
pub enum NeedRes {
    Found { n: int },
    More,
    Bad { e: RespError },
}

/// Result of parsing one frame at the head of `s`.
pub enum Parsed {
    Found { d: FrameData, n: int },
    More,
    Bad { e: RespError },
}

/// Result of parsing a run of frames.
pub enum ParsedSeq {
    Found { items: Seq<FrameData>, n: int },
    More,
    Bad { e: RespError },
}

/// Result of parsing a run of map entries.
pub enum ParsedEntries {
    Found { items: Seq<(Seq<u8>, FrameData)>, n: int },
    More,
    Bad { e: RespError },
}

/// Bytes needed by the frame at the head of `s` (the expect-length
/// probe): it never consumes, and walks children of composite frames.
pub open spec fn need(s: Seq<u8>) -> NeedRes
    decreases s.len(), 1int, 0int,
{
    if s.len() == 0 {
        NeedRes::More
    } else if s[0] == 43 || s[0] == 45 || s[0] == 58 || s[0] == 44 {
        need_line(s, s[0])
    } else if s[0] == 36 {
        match need_exact(s, null_bulk_pat()) {
            NeedRes::Bad { .. } => need_bulk(s),
            o => o,
        }
    } else if s[0] == 42 {
        match need_exact(s, null_array_pat()) {
            NeedRes::Bad { .. } => need_list(s, 42),
            o => o,
        }
    } else if s[0] == 126 {
        need_list(s, 126)
    } else if s[0] == 37 {
        need_map(s)
    } else if s[0] == 95 {
        NeedRes::Found { n: 3 }
    } else if s[0] == 35 {
        NeedRes::Found { n: 4 }
    } else {
        NeedRes::More
    }
}

pub open spec fn need_line(s: Seq<u8>, p: u8) -> NeedRes {
    match line_probe(s, p) {
        LineRes::Short => NeedRes::More,
        LineRes::Wrong => NeedRes::Bad { e: RespError::InvalidFrameType },
        LineRes::Line { end } => NeedRes::Found { n: end + 2 },
    }
}

pub open spec fn need_exact(s: Seq<u8>, pat: Seq<u8>) -> NeedRes {
    if s.len() < pat.len() {
        NeedRes::More
    } else if s.subrange(0, pat.len() as int) == pat {
        NeedRes::Found { n: pat.len() as int }
    } else {
        NeedRes::Bad { e: RespError::InvalidFrameType }
    }
}

pub open spec fn need_bulk(s: Seq<u8>) -> NeedRes {
    match line_probe(s, 36) {
        LineRes::Short => NeedRes::More,
        LineRes::Wrong => NeedRes::Bad { e: RespError::InvalidFrameType },
        LineRes::Line { end } => {
            let t = s.subrange(1, end);
            if is_uint_text(t) {
                if end + 2 + uint_text_val(t) + 2 > usize::MAX {
                    NeedRes::More
                } else {
                    NeedRes::Found { n: end + 2 + uint_text_val(t) + 2 }
                }
            } else {
                NeedRes::Bad { e: RespError::ParseIntError }
            }
        },
    }
}

/// Expect-length of an array or set: the header line, then the walk
/// over its children.
pub open spec fn need_list(s: Seq<u8>, p: u8) -> NeedRes
    decreases s.len(), 0int, 0int,
    via need_list_dec
{
    match line_probe(s, p) {
        LineRes::Short => NeedRes::More,
        LineRes::Wrong => NeedRes::Bad { e: RespError::InvalidFrameType },
        LineRes::Line { end } => {
            let t = s.subrange(1, end);
            if is_uint_text(t) {
                match need_many(s.skip(end + 2), uint_text_val(t)) {
                    NeedRes::Found { n } => NeedRes::Found { n: end + 2 + n },
                    o => o,
                }
            } else {
                NeedRes::Bad { e: RespError::ParseIntError }
            }
        },
    }
}

pub open spec fn need_map(s: Seq<u8>) -> NeedRes
    decreases s.len(), 0int, 0int,
    via need_map_dec
{
    match line_probe(s, 37) {
        LineRes::Short => NeedRes::More,
        LineRes::Wrong => NeedRes::Bad { e: RespError::InvalidFrameType },
        LineRes::Line { end } => {
            let t = s.subrange(1, end);
            if is_uint_text(t) {
                match need_pairs(s.skip(end + 2), uint_text_val(t)) {
                    NeedRes::Found { n } => NeedRes::Found { n: end + 2 + n },
                    o => o,
                }
            } else {
                NeedRes::Bad { e: RespError::ParseIntError }
            }
        },
    }
}

/// Sum of the byte needs of `k` frames at the head of `s`. A child that
/// claims more bytes than remain means the buffer is still short.
pub open spec fn need_many(s: Seq<u8>, k: int) -> NeedRes
    decreases s.len(), 2int, k,
{
    if k <= 0 {
        NeedRes::Found { n: 0 }
    } else {
        match need(s) {
            NeedRes::More => NeedRes::More,
            NeedRes::Bad { e } => NeedRes::Bad { e },
            NeedRes::Found { n: c } => {
                if c <= 0 || c > s.len() {
                    NeedRes::More
                } else {
                    match need_many(s.skip(c), k - 1) {
                        NeedRes::Found { n } => NeedRes::Found { n: c + n },
                        o => o,
                    }
                }
            },
        }
    }
}

/// Sum of the byte needs of `k` key-value entries at the head of `s`:
/// each a SimpleString key, then a value frame.
pub open spec fn need_pairs(s: Seq<u8>, k: int) -> NeedRes
    decreases s.len(), 2int, k,
{
    if k <= 0 {
        NeedRes::Found { n: 0 }
    } else {
        match need_line(s, 43) {
            NeedRes::More => NeedRes::More,
            NeedRes::Bad { e } => NeedRes::Bad { e },
            NeedRes::Found { n: c1 } => {
                if c1 <= 0 || c1 > s.len() {
                    NeedRes::More
                } else {
                    match need(s.skip(c1)) {
                        NeedRes::More => NeedRes::More,
                        NeedRes::Bad { e } => NeedRes::Bad { e },
                        NeedRes::Found { n: c2 } => {
                            if c2 <= 0 || c2 > s.len() - c1 {
                                NeedRes::More
                            } else {
                                match need_pairs(s.skip(c1 + c2), k - 1) {
                                    NeedRes::Found { n } => NeedRes::Found { n: c1 + c2 + n },
                                    o => o,
                                }
                            }
                        },
                    }
                }
            },
        }
    }
}

/// Parse the frame at the head of `s`: the model of `decode`. The null
/// sentinels are probed before the generic `$` and `*` paths, and a
/// short sentinel probe does not fall through.
pub open spec fn parse(s: Seq<u8>) -> Parsed
    decreases s.len(), 1int, 0int,
{
    if s.len() == 0 {
        Parsed::More
    } else if s[0] == 43 {
        parse_simple(s, 43)
    } else if s[0] == 45 {
        parse_simple(s, 45)
    } else if s[0] == 58 {
        parse_integer(s)
    } else if s[0] == 36 {
        match parse_exact(s, null_bulk_pat(), FrameData::NullBulkString) {
            Parsed::Bad { .. } => parse_bulk(s),
            o => o,
        }
    } else if s[0] == 42 {
        match parse_exact(s, null_array_pat(), FrameData::NullArray) {
            Parsed::Bad { .. } => parse_list(s, 42),
            o => o,
        }
    } else if s[0] == 95 {
        parse_exact(s, null_pat(), FrameData::Null)
    } else if s[0] == 35 {
        parse_boolean(s)
    } else if s[0] == 44 {
        parse_double(s)
    } else if s[0] == 37 {
        parse_map(s)
    } else if s[0] == 126 {
        parse_list(s, 126)
    } else {
        Parsed::Bad { e: RespError::InvalidFrameType }
    }
}

/// A SimpleString (`+`) or SimpleError (`-`) line.
pub open spec fn parse_simple(s: Seq<u8>, p: u8) -> Parsed {
    match line_probe(s, p) {
        LineRes::Short => Parsed::More,
        LineRes::Wrong => Parsed::Bad { e: RespError::InvalidFrameType },
        LineRes::Line { end } => {
            let payload = s.subrange(1, end);
            Parsed::Found {
                d: if p == 43 {
                    FrameData::SimpleString(payload)
                } else {
                    FrameData::Error(payload)
                },
                n: end + 2,
            }
        },
    }
}

pub open spec fn parse_integer(s: Seq<u8>) -> Parsed {
    match line_probe(s, 58) {
        LineRes::Short => Parsed::More,
        LineRes::Wrong => Parsed::Bad { e: RespError::InvalidFrameType },
        LineRes::Line { end } => {
            let t = s.subrange(1, end);
            if is_int_text(t) {
                Parsed::Found { d: FrameData::Integer(int_text_val(t)), n: end + 2 }
            } else {
                Parsed::Bad { e: RespError::ParseIntError }
            }
        },
    }
}

pub open spec fn parse_double(s: Seq<u8>) -> Parsed {
    match line_probe(s, 44) {
        LineRes::Short => Parsed::More,
        LineRes::Wrong => Parsed::Bad { e: RespError::InvalidFrameType },
        LineRes::Line { end } => {
            let t = s.subrange(1, end);
            if double_wf(t) {
                Parsed::Found { d: FrameData::Double(t), n: end + 2 }
            } else {
                Parsed::Bad { e: RespError::ParseFloatError }
            }
        },
    }
}

pub open spec fn parse_exact(s: Seq<u8>, pat: Seq<u8>, d: FrameData) -> Parsed {
    if s.len() < pat.len() {
        Parsed::More
    } else if s.subrange(0, pat.len() as int) == pat {
        Parsed::Found { d, n: pat.len() as int }
    } else {
        Parsed::Bad { e: RespError::InvalidFrameType }
    }
}

pub open spec fn parse_boolean(s: Seq<u8>) -> Parsed {
    if s.len() < 4 {
        Parsed::More
    } else if s.subrange(0, 4) == bool_true_pat() {
        Parsed::Found { d: FrameData::Boolean(true), n: 4 }
    } else if s.subrange(0, 4) == bool_false_pat() {
        Parsed::Found { d: FrameData::Boolean(false), n: 4 }
    } else {
        Parsed::Bad { e: RespError::InvalidFrameType }
    }
}

pub open spec fn parse_bulk(s: Seq<u8>) -> Parsed {
    match line_probe(s, 36) {
        LineRes::Short => Parsed::More,
        LineRes::Wrong => Parsed::Bad { e: RespError::InvalidFrameType },
        LineRes::Line { end } => {
            let t = s.subrange(1, end);
            if is_uint_text(t) {
                let len = uint_text_val(t);
                if s.len() < end + 2 + len + 2 {
                    Parsed::More
                } else {
                    Parsed::Found {
                        d: FrameData::BulkString(s.subrange(end + 2, end + 2 + len)),
                        n: end + 2 + len + 2,
                    }
                }
            } else {
                Parsed::Bad { e: RespError::ParseIntError }
            }
        },
    }
}

/// An array (`*`) or set (`~`): the header, the expect-length walk over
/// the children, and only then the committing parse of each child.
pub open spec fn parse_list(s: Seq<u8>, p: u8) -> Parsed
    decreases s.len(), 0int, 0int,
    via parse_list_dec
{
    match line_probe(s, p) {
        LineRes::Short => Parsed::More,
        LineRes::Wrong => Parsed::Bad { e: RespError::InvalidFrameType },
        LineRes::Line { end } => {
            let t = s.subrange(1, end);
            if is_uint_text(t) {
                let k = uint_text_val(t);
                match need_many(s.skip(end + 2), k) {
                    NeedRes::More => Parsed::More,
                    NeedRes::Bad { e } => Parsed::Bad { e },
                    NeedRes::Found { n: tot } => {
                        if s.len() < end + 2 + tot {
                            Parsed::More
                        } else {
                            match parse_many(s.skip(end + 2), k) {
                                ParsedSeq::More => Parsed::More,
                                ParsedSeq::Bad { e } => Parsed::Bad { e },
                                ParsedSeq::Found { items, n } => Parsed::Found {
                                    d: if p == 42 {
                                        FrameData::Array(items)
                                    } else {
                                        FrameData::SetValue(items)
                                    },
                                    n: end + 2 + n,
                                },
                            }
                        }
                    },
                }
            } else {
                Parsed::Bad { e: RespError::ParseIntError }
            }
        },
    }
}

pub open spec fn parse_many(s: Seq<u8>, k: int) -> ParsedSeq
    decreases s.len(), 2int, k,
{
    if k <= 0 {
        ParsedSeq::Found { items: Seq::empty(), n: 0 }
    } else {
        match parse(s) {
            Parsed::More => ParsedSeq::More,
            Parsed::Bad { e } => ParsedSeq::Bad { e },
            Parsed::Found { d, n: c } => {
                if c <= 0 || c > s.len() {
                    ParsedSeq::Bad { e: RespError::InvalidFrame }
                } else {
                    match parse_many(s.skip(c), k - 1) {
                        ParsedSeq::Found { items, n } => ParsedSeq::Found {
                            items: seq![d] + items,
                            n: c + n,
                        },
                        o => o,
                    }
                }
            },
        }
    }
}

/// A map (`%`): the header, the expect-length walk over the entries,
/// then the committing parse; entries fold into the container with
/// last-write-wins on the key.
pub open spec fn parse_map(s: Seq<u8>) -> Parsed
    decreases s.len(), 0int, 0int,
    via parse_map_dec
{
    match line_probe(s, 37) {
        LineRes::Short => Parsed::More,
        LineRes::Wrong => Parsed::Bad { e: RespError::InvalidFrameType },
        LineRes::Line { end } => {
            let t = s.subrange(1, end);
            if is_uint_text(t) {
                let k = uint_text_val(t);
                match need_pairs(s.skip(end + 2), k) {
                    NeedRes::More => Parsed::More,
                    NeedRes::Bad { e } => Parsed::Bad { e },
                    NeedRes::Found { n: tot } => {
                        if s.len() < end + 2 + tot {
                            Parsed::More
                        } else {
                            match parse_pairs(s.skip(end + 2), k) {
                                ParsedEntries::More => Parsed::More,
                                ParsedEntries::Bad { e } => Parsed::Bad { e },
                                ParsedEntries::Found { items, n } => Parsed::Found {
                                    d: FrameData::MapValue(lww_fold(items)),
                                    n: end + 2 + n,
                                },
                            }
                        }
                    },
                }
            } else {
                Parsed::Bad { e: RespError::ParseIntError }
            }
        },
    }
}

pub open spec fn parse_pairs(s: Seq<u8>, k: int) -> ParsedEntries
    decreases s.len(), 2int, k,
{
    if k <= 0 {
        ParsedEntries::Found { items: Seq::empty(), n: 0 }
    } else {
        match parse_simple(s, 43) {
            Parsed::More => ParsedEntries::More,
            Parsed::Bad { e } => ParsedEntries::Bad { e },
            Parsed::Found { d: kd, n: c1 } => {
                if c1 <= 0 || c1 > s.len() {
                    ParsedEntries::Bad { e: RespError::InvalidFrame }
                } else {
                    match parse(s.skip(c1)) {
                        Parsed::More => ParsedEntries::More,
                        Parsed::Bad { e } => ParsedEntries::Bad { e },
                        Parsed::Found { d: vd, n: c2 } => {
                            if c2 <= 0 || c2 > s.len() - c1 {
                                ParsedEntries::Bad { e: RespError::InvalidFrame }
                            } else {
                                match parse_pairs(s.skip(c1 + c2), k - 1) {
                                    ParsedEntries::Found { items, n } => ParsedEntries::Found {
                                        items: seq![(simple_payload(kd), vd)] + items,
                                        n: c1 + c2 + n,
                                    },
                                    o => o,
                                }
                            }
                        },
                    }
                }
            },
        }
    }
}

pub open spec fn simple_payload(d: FrameData) -> Seq<u8> {
    match d {
        FrameData::SimpleString(s) => s,
        _ => Seq::empty(),
    }
}

// ---------------------------------------------------------------------
// Last-write-wins folding of map entries
// ---------------------------------------------------------------------

/// Index of the first entry with key `k`, or -1.
pub open spec fn key_index(m: Seq<(Seq<u8>, FrameData)>, k: Seq<u8>, i: int) -> int
    decreases m.len() - i,
{
    if i < 0 || i >= m.len() {
        -1
    } else if m[i].0 == k {
        i
    } else {
        key_index(m, k, i + 1)
    }
}

/// Insert one entry: an existing key keeps its place and takes the new
/// value; a new key goes to the end.
pub open spec fn lww_insert(
    m: Seq<(Seq<u8>, FrameData)>,
    k: Seq<u8>,
    v: FrameData,
) -> Seq<(Seq<u8>, FrameData)> {
    let i = key_index(m, k, 0);
    if i >= 0 {
        m.update(i, (k, v))
    } else {
        m.push((k, v))
    }
}

/// Fold a run of entries into a container, last write winning.
pub open spec fn lww_fold(entries: Seq<(Seq<u8>, FrameData)>) -> Seq<(Seq<u8>, FrameData)>
    decreases entries.len(),
{
    if entries.len() == 0 {
        Seq::empty()
    } else {
        lww_insert(lww_fold(entries.drop_last()), entries.last().0, entries.last().1)
    }
}

/// Where `find_crlf_at` finds a CRLF, it lies within `s` at or after
/// the start of the scan, and no CRLF starts before it.
pub proof fn lemma_find_crlf_at(s: Seq<u8>, i: int)
    ensures
        ({
            let r = find_crlf_at(s, i);
            r == -1 || (i <= r && r + 2 <= s.len() && s[r] == 13 && s[r + 1] == 10)
        }),
    decreases s.len() - i,
{
    if i < 0 || i + 2 > s.len() {
    } else if s[i] == 13 && s[i + 1] == 10 {
    } else {
        lemma_find_crlf_at(s, i + 1);
    }
}

#[via_fn]
proof fn need_list_dec(s: Seq<u8>, p: u8) {
    lemma_find_crlf_at(s, 0);
}

#[via_fn]
proof fn need_map_dec(s: Seq<u8>) {
    lemma_find_crlf_at(s, 0);
}

#[via_fn]
proof fn parse_list_dec(s: Seq<u8>, p: u8) {
    lemma_find_crlf_at(s, 0);
}

#[via_fn]
proof fn parse_map_dec(s: Seq<u8>) {
    lemma_find_crlf_at(s, 0);
}

} // verus!
