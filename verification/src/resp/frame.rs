//! The executable frame types. Each views to a `FrameData`, the
//! abstract value that the codec contracts speak of.

use crate::resp::model::FrameData;
use crate::resp::model::key_index;
use crate::resp::model::lww_insert;
use vstd::prelude::*;

verus! {

broadcast use vstd::std_specs::vec::axiom_vec_index_decreases;

/// A `+` line: text with no CR or LF inside.
#[derive(Debug, Clone, PartialEq)]
pub struct SimpleString(pub Vec<u8>);

/// A `-` line: an error message with no CR or LF inside.
#[derive(Debug, Clone, PartialEq)]
pub struct SimpleError(pub Vec<u8>);

/// A `$` frame: length-prefixed opaque bytes.
#[derive(Debug, Clone, PartialEq)]
pub struct BulkString(pub Vec<u8>);

/// The `$-1` sentinel.
#[derive(Debug, Clone, PartialEq)]
pub struct RespNullBulkString;

/// A `*` frame: a sequence of frames.
#[derive(Debug, PartialEq)]
pub struct RespArray(pub Vec<RespFrame>);

/// The `*-1` sentinel.
#[derive(Debug, Clone, PartialEq)]
pub struct RespNullArray;

/// The `_` sentinel.
#[derive(Debug, Clone, PartialEq)]
pub struct RespNull;

/// A `,` frame: the decimal text of the number, kept verbatim.
#[derive(Debug, Clone, PartialEq)]
pub struct RespDouble(pub Vec<u8>);

/// A `%` frame: key-value entries in insertion order, keys distinct by
/// construction (a repeated key overwrites in place).
#[derive(Debug, PartialEq)]
pub struct RespMap(pub Vec<(Vec<u8>, RespFrame)>);

/// A `~` frame: a sequence of frames.
#[derive(Debug, PartialEq)]
pub struct RespSet(pub Vec<RespFrame>);

/// One RESP value of any kind.
#[derive(Debug, PartialEq)]
pub enum RespFrame {
    SimpleString(SimpleString),
    Error(SimpleError),
    Integer(i64),
    BulkString(BulkString),
    NullBulkString(RespNullBulkString),
    Array(RespArray),
    NullArray(RespNullArray),
    Null(RespNull),
    Boolean(bool),
    Double(RespDouble),
    MapValue(RespMap),
    SetValue(RespSet),
}

/// What can go wrong while decoding. `NotComplete` is recoverable: the
/// caller reads more bytes and retries; the others end the connection.
#[derive(Debug, Clone, Copy, PartialEq, Eq, Structural)]
pub enum RespError {
    InvalidFrame,
    InvalidFrameType,
    InvalidFrameLength,
    NotComplete,
    ParseIntError,
    ParseFloatError,
}

// ---------------------------------------------------------------------
// Views
// ---------------------------------------------------------------------

/// The abstract value of a frame.
pub open spec fn frame_data(f: RespFrame) -> FrameData
    decreases f, 0int,
{
    match f {
        RespFrame::SimpleString(s) => FrameData::SimpleString(s.0@),
        RespFrame::Error(e) => FrameData::Error(e.0@),
        RespFrame::Integer(i) => FrameData::Integer(i as int),
        RespFrame::BulkString(b) => FrameData::BulkString(b.0@),
        RespFrame::NullBulkString(_) => FrameData::NullBulkString,
        RespFrame::Array(a) => FrameData::Array(frames_data(a.0, 0)),
        RespFrame::NullArray(_) => FrameData::NullArray,
        RespFrame::Null(_) => FrameData::Null,
        RespFrame::Boolean(b) => FrameData::Boolean(b),
        RespFrame::Double(d) => FrameData::Double(d.0@),
        RespFrame::MapValue(m) => FrameData::MapValue(entries_data(m.0, 0)),
        RespFrame::SetValue(s) => FrameData::SetValue(frames_data(s.0, 0)),
    }
}

/// Abstract values of the frames `v[i..]`.
pub open spec fn frames_data(v: Vec<RespFrame>, i: int) -> Seq<FrameData>
    decreases v, v.len() - i,
{
    if i < 0 || i >= v.len() {
        Seq::empty()
    } else {
        seq![frame_data(v[i as int])] + frames_data(v, i + 1)
    }
}

/// Abstract values of the map entries `v[i..]`.
pub open spec fn entries_data(v: Vec<(Vec<u8>, RespFrame)>, i: int) -> Seq<(Seq<u8>, FrameData)>
    decreases v, v.len() - i,
{
    if i < 0 || i >= v.len() {
        Seq::empty()
    } else {
        seq![(v[i as int].0@, frame_data(v[i as int].1))] + entries_data(v, i + 1)
    }
}

impl View for RespFrame {
    type V = FrameData;

    open spec fn view(&self) -> FrameData {
        frame_data(*self)
    }
}

impl View for SimpleString {
    type V = Seq<u8>;

    open spec fn view(&self) -> Seq<u8> {
        self.0@
    }
}

impl View for SimpleError {
    type V = Seq<u8>;

    open spec fn view(&self) -> Seq<u8> {
        self.0@
    }
}

impl View for BulkString {
    type V = Seq<u8>;

    open spec fn view(&self) -> Seq<u8> {
        self.0@
    }
}

impl View for RespDouble {
    type V = Seq<u8>;

    open spec fn view(&self) -> Seq<u8> {
        self.0@
    }
}

impl View for RespArray {
    type V = Seq<FrameData>;

    open spec fn view(&self) -> Seq<FrameData> {
        frames_data(self.0, 0)
    }
}

impl View for RespSet {
    type V = Seq<FrameData>;

    open spec fn view(&self) -> Seq<FrameData> {
        frames_data(self.0, 0)
    }
}

impl View for RespMap {
    type V = Seq<(Seq<u8>, FrameData)>;

    open spec fn view(&self) -> Seq<(Seq<u8>, FrameData)> {
        entries_data(self.0, 0)
    }
}

// ---------------------------------------------------------------------
// Constructors and accessors
// ---------------------------------------------------------------------

impl SimpleString {
    pub fn new(s: Vec<u8>) -> (r: SimpleString)
        ensures
            r@ == s@,
    {
        SimpleString(s)
    }

    pub fn as_bytes(&self) -> (r: &Vec<u8>)
        ensures
            r@ == self@,
    {
        &self.0
    }
}

impl SimpleError {
    pub fn new(s: Vec<u8>) -> (r: SimpleError)
        ensures
            r@ == s@,
    {
        SimpleError(s)
    }

    pub fn as_bytes(&self) -> (r: &Vec<u8>)
        ensures
            r@ == self@,
    {
        &self.0
    }
}

impl BulkString {
    pub fn new(s: Vec<u8>) -> (r: BulkString)
        ensures
            r@ == s@,
    {
        BulkString(s)
    }

    pub fn as_bytes(&self) -> (r: &Vec<u8>)
        ensures
            r@ == self@,
    {
        &self.0
    }
}

impl RespNullBulkString {
    pub fn new() -> (r: RespNullBulkString) {
        RespNullBulkString
    }
}

impl Default for RespNullBulkString {
    fn default() -> (r: Self) {
        RespNullBulkString
    }
}

impl RespNullArray {
    pub fn new() -> (r: RespNullArray) {
        RespNullArray
    }
}

impl Default for RespNullArray {
    fn default() -> (r: Self) {
        RespNullArray
    }
}

impl RespNull {
    pub fn new() -> (r: RespNull) {
        RespNull
    }
}

impl RespArray {
    pub fn new(s: Vec<RespFrame>) -> (r: RespArray)
        ensures
            r@ == frames_data(s, 0),
    {
        RespArray(s)
    }

    pub fn len(&self) -> (r: usize)
        ensures
            r == self@.len(),
    {
        proof {
            lemma_frames_data_len(self.0, 0);
        }
        self.0.len()
    }

    pub fn get(&self, i: usize) -> (r: &RespFrame)
        requires
            i < self@.len(),
        ensures
            r@ == self@[i as int],
    {
        proof {
            lemma_frames_data_len(self.0, 0);
            lemma_frames_data_index(self.0, 0, i as int);
        }
        &self.0[i]
    }
}

impl RespSet {
    pub fn new(s: Vec<RespFrame>) -> (r: RespSet)
        ensures
            r@ == frames_data(s, 0),
    {
        RespSet(s)
    }

    pub fn len(&self) -> (r: usize)
        ensures
            r == self@.len(),
    {
        proof {
            lemma_frames_data_len(self.0, 0);
        }
        self.0.len()
    }
}

// ---------------------------------------------------------------------
// Small lemmas about the view helpers
// ---------------------------------------------------------------------

pub proof fn lemma_frames_data_len(v: Vec<RespFrame>, i: int)
    requires
        0 <= i <= v.len(),
    ensures
        frames_data(v, i).len() == v.len() - i,
    decreases v.len() - i,
{
    if i < v.len() {
        lemma_frames_data_len(v, i + 1);
    }
}

pub proof fn lemma_frames_data_index(v: Vec<RespFrame>, i: int, j: int)
    requires
        0 <= i <= j < v.len(),
    ensures
        frames_data(v, i).len() == v.len() - i,
        frames_data(v, i)[j - i] == frame_data(v[j]),
    decreases j - i,
{
    lemma_frames_data_len(v, i);
    lemma_frames_data_len(v, i + 1);
    if i < j {
        lemma_frames_data_index(v, i + 1, j);
    }
}

pub proof fn lemma_entries_data_len(v: Vec<(Vec<u8>, RespFrame)>, i: int)
    requires
        0 <= i <= v.len(),
    ensures
        entries_data(v, i).len() == v.len() - i,
    decreases v.len() - i,
{
    if i < v.len() {
        lemma_entries_data_len(v, i + 1);
    }
}

pub proof fn lemma_entries_data_index(v: Vec<(Vec<u8>, RespFrame)>, i: int, j: int)
    requires
        0 <= i <= j < v.len(),
    ensures
        entries_data(v, i).len() == v.len() - i,
        entries_data(v, i)[j - i] == (v[j].0@, frame_data(v[j].1)),
    decreases j - i,
{
    lemma_entries_data_len(v, i);
    lemma_entries_data_len(v, i + 1);
    if i < j {
        lemma_entries_data_index(v, i + 1, j);
    }
}


// ---------------------------------------------------------------------
// Cloning, with the abstract value preserved
// ---------------------------------------------------------------------

/// Copy a byte vector element by element.
pub fn clone_bytes(v: &Vec<u8>) -> (r: Vec<u8>)
    ensures
        r@ == v@,
{
    let mut out: Vec<u8> = Vec::new();
    let mut i: usize = 0;
    while i < v.len()
        invariant
            i <= v.len(),
            out@ == v@.subrange(0, i as int),
        decreases v.len() - i,
    {
        out.push(v[i]);
        i += 1;
    }
    proof {
        assert(out@ =~= v@);
    }
    out
}

/// Copy a frame; the copy has the same abstract value.
pub fn clone_frame(f: &RespFrame) -> (r: RespFrame)
    ensures
        r@ == f@,
    decreases f,
{
    match f {
        RespFrame::SimpleString(s) => RespFrame::SimpleString(SimpleString(clone_bytes(&s.0))),
        RespFrame::Error(e) => RespFrame::Error(SimpleError(clone_bytes(&e.0))),
        RespFrame::Integer(i) => RespFrame::Integer(*i),
        RespFrame::BulkString(b) => RespFrame::BulkString(BulkString(clone_bytes(&b.0))),
        RespFrame::NullBulkString(_) => RespFrame::NullBulkString(RespNullBulkString),
        RespFrame::Array(a) => RespFrame::Array(RespArray(clone_frames(&a.0))),
        RespFrame::NullArray(_) => RespFrame::NullArray(RespNullArray),
        RespFrame::Null(_) => RespFrame::Null(RespNull),
        RespFrame::Boolean(b) => RespFrame::Boolean(*b),
        RespFrame::Double(d) => RespFrame::Double(RespDouble(clone_bytes(&d.0))),
        RespFrame::MapValue(m) => RespFrame::MapValue(RespMap(clone_entries(&m.0))),
        RespFrame::SetValue(s) => RespFrame::SetValue(RespSet(clone_frames(&s.0))),
    }
}

fn clone_frames(v: &Vec<RespFrame>) -> (r: Vec<RespFrame>)
    ensures
        frames_data(r, 0) == frames_data(*v, 0),
    decreases v,
{
    let mut out: Vec<RespFrame> = Vec::new();
    let mut i: usize = 0;
    while i < v.len()
        invariant
            i <= v.len(),
            out@.len() == i,
            forall|j: int| 0 <= j < i ==> frame_data(#[trigger] out@[j]) == frame_data(v@[j]),
        decreases v.len() - i,
    {
        out.push(clone_frame(&v[i]));
        i += 1;
    }
    proof {
        lemma_frames_data_ext(out, *v, 0);
    }
    out
}

fn clone_entries(v: &Vec<(Vec<u8>, RespFrame)>) -> (r: Vec<(Vec<u8>, RespFrame)>)
    ensures
        entries_data(r, 0) == entries_data(*v, 0),
    decreases v,
{
    let mut out: Vec<(Vec<u8>, RespFrame)> = Vec::new();
    let mut i: usize = 0;
    while i < v.len()
        invariant
            i <= v.len(),
            out@.len() == i,
            forall|j: int|
                0 <= j < i ==> (#[trigger] out@[j]).0@ == v@[j].0@ && frame_data(out@[j].1)
                    == frame_data(v@[j].1),
        decreases v.len() - i,
    {
        let pair = &v[i];
        out.push((clone_bytes(&pair.0), clone_frame(&pair.1)));
        i += 1;
    }
    proof {
        lemma_entries_data_ext(out, *v, 0);
    }
    out
}

impl Clone for RespFrame {
    fn clone(&self) -> (r: Self)
        ensures
            r@ == self@,
    {
        clone_frame(self)
    }
}

impl Clone for RespArray {
    fn clone(&self) -> (r: Self)
        ensures
            r@ == self@,
    {
        RespArray(clone_frames(&self.0))
    }
}

impl Clone for RespSet {
    fn clone(&self) -> (r: Self)
        ensures
            r@ == self@,
    {
        RespSet(clone_frames(&self.0))
    }
}

impl Clone for RespMap {
    fn clone(&self) -> (r: Self)
        ensures
            r@ == self@,
    {
        RespMap(clone_entries(&self.0))
    }
}

/// Vectors whose frames agree pointwise in abstract value have the
/// same abstract sequence.
pub proof fn lemma_frames_data_ext(v1: Vec<RespFrame>, v2: Vec<RespFrame>, i: int)
    requires
        0 <= i <= v1.len(),
        v1.len() == v2.len(),
        forall|j: int| 0 <= j < v1.len() ==> frame_data(#[trigger] v1@[j]) == frame_data(v2@[j]),
    ensures
        frames_data(v1, i) == frames_data(v2, i),
    decreases v1.len() - i,
{
    if i < v1.len() {
        lemma_frames_data_ext(v1, v2, i + 1);
    }
}

pub proof fn lemma_entries_data_ext(
    v1: Vec<(Vec<u8>, RespFrame)>,
    v2: Vec<(Vec<u8>, RespFrame)>,
    i: int,
)
    requires
        0 <= i <= v1.len(),
        v1.len() == v2.len(),
        forall|j: int|
            0 <= j < v1.len() ==> (#[trigger] v1@[j]).0@ == v2@[j].0@ && frame_data(v1@[j].1)
                == frame_data(v2@[j].1),
    ensures
        entries_data(v1, i) == entries_data(v2, i),
    decreases v1.len() - i,
{
    if i < v1.len() {
        lemma_entries_data_ext(v1, v2, i + 1);
    }
}


// ---------------------------------------------------------------------
// Byte comparison and the map container
// ---------------------------------------------------------------------

/// Byte-for-byte comparison of two slices.
pub fn bytes_eq(a: &[u8], b: &[u8]) -> (r: bool)
    ensures
        r == (a@ == b@),
{
    if a.len() != b.len() {
        return false;
    }
    let mut i: usize = 0;
    while i < a.len()
        invariant
            a@.len() == b@.len(),
            i <= a@.len(),
            forall|j: int| 0 <= j < i ==> a@[j] == b@[j],
        decreases a@.len() - i,
    {
        if a[i] != b[i] {
            return false;
        }
        i += 1;
    }
    proof {
        assert(a@ =~= b@);
    }
    true
}

/// `frames_data` is the pointwise abstraction of the vector.
pub proof fn lemma_frames_data_is(v: Vec<RespFrame>, i: int)
    requires
        0 <= i <= v.len(),
    ensures
        frames_data(v, i) == Seq::new((v@.len() - i) as nat, |j: int| frame_data(v@[i + j])),
    decreases v.len() - i,
{
    if i < v.len() {
        lemma_frames_data_is(v, i + 1);
    }
    assert(frames_data(v, i) =~= Seq::new((v@.len() - i) as nat, |j: int| frame_data(v@[i + j])));
}

/// `entries_data` is the pointwise abstraction of the vector.
pub proof fn lemma_entries_data_is(v: Vec<(Vec<u8>, RespFrame)>, i: int)
    requires
        0 <= i <= v.len(),
    ensures
        entries_data(v, i) == Seq::new(
            (v@.len() - i) as nat,
            |j: int| (v@[i + j].0@, frame_data(v@[i + j].1)),
        ),
    decreases v.len() - i,
{
    if i < v.len() {
        lemma_entries_data_is(v, i + 1);
    }
    assert(entries_data(v, i) =~= Seq::new(
        (v@.len() - i) as nat,
        |j: int| (v@[i + j].0@, frame_data(v@[i + j].1)),
    ));
}

impl Default for RespMap {
    fn default() -> (r: Self)
        ensures
            r@ == Seq::<(Seq<u8>, FrameData)>::empty(),
    {
        RespMap(Vec::new())
    }
}

impl RespMap {
    pub fn new() -> (r: RespMap)
        ensures
            r@ == Seq::<(Seq<u8>, FrameData)>::empty(),
    {
        RespMap(Vec::new())
    }

    pub fn len(&self) -> (r: usize)
        ensures
            r == self@.len(),
    {
        proof {
            lemma_entries_data_len(self.0, 0);
        }
        self.0.len()
    }

    /// Put one entry: an existing key keeps its position and takes the
    /// new value, a new key goes to the end.
    pub fn insert(&mut self, key: Vec<u8>, value: RespFrame)
        ensures
            final(self)@ == lww_insert(old(self)@, key@, value@),
    {
        let ghost ed = self@;
        proof {
            lemma_entries_data_len(self.0, 0);
        }
        let mut i: usize = 0;
        let n = self.0.len();
        while i < n
            invariant
                n == self.0.len(),
                ed == old(self)@,
                ed == entries_data(self.0, 0),
                ed.len() == n,
                i <= n,
                key_index(ed, key@, 0) == key_index(ed, key@, i as int),
            decreases n - i,
        {
            proof {
                lemma_entries_data_index(self.0, 0, i as int);
            }
            if bytes_eq(self.0[i].0.as_slice(), key.as_slice()) {
                proof {
                    assert(ed[i as int].0 == key@);
                    assert(key_index(ed, key@, i as int) == i as int);
                    lemma_entries_data_is(self.0, 0);
                }
                let ghost kv = key@;
                let ghost vv = frame_data(value);
                self.0[i] = (key, value);
                proof {
                    lemma_entries_data_is(self.0, 0);
                    assert(entries_data(self.0, 0) =~= ed.update(i as int, (kv, vv)));
                    assert(key_index(ed, kv, 0) == i as int);
                    assert(lww_insert(ed, kv, vv) == ed.update(i as int, (kv, vv)));
                    assert(entries_data(self.0, 0) == lww_insert(ed, kv, vv));
                }
                return ;
            }
            i += 1;
        }
        proof {
            lemma_entries_data_is(self.0, 0);
        }
        self.0.push((key, value));
        proof {
            lemma_entries_data_is(self.0, 0);
            assert(entries_data(self.0, 0) =~= ed.push((key@, frame_data(value))));
        }
    }
}

} // verus!
