//! The in-memory store behind the command layer: a flat key-to-frame
//! map and a nested key-to-(field-to-frame) map. Lookups are specified
//! by first match over the entry lists; writers update in place or
//! append, so a key occurs at most once.

use crate::resp::frame::bytes_eq;
use crate::resp::frame::clone_bytes;
use crate::resp::frame::clone_frame;
use crate::resp::frame::frame_data;
use crate::resp::frame::RespFrame;
use crate::resp::model::FrameData;
use vstd::prelude::*;

verus! {

/// The shared store: every connection handler reads and writes the
/// same maps. The handle is wrapped for sharing by the embedding
/// server; each operation here is a complete, atomic step on the data.
pub struct Backend {
    kv: Vec<(Vec<u8>, RespFrame)>,
    hmap: Vec<(Vec<u8>, Vec<(Vec<u8>, RespFrame)>)>,
}

/// First value bound to `k` in an entry list, scanning from `i`.
pub open spec fn assoc_at<T>(m: Seq<(Seq<u8>, T)>, k: Seq<u8>, i: int) -> Option<T>
    decreases m.len() - i,
{
    if i < 0 || i >= m.len() {
        None
    } else if m[i].0 == k {
        Some(m[i].1)
    } else {
        assoc_at(m, k, i + 1)
    }
}

/// Replace the value at the first binding of `k`, or append one.
pub open spec fn assoc_put<T>(m: Seq<(Seq<u8>, T)>, k: Seq<u8>, v: T) -> Seq<(Seq<u8>, T)> {
    let i = first_key_at(m, k, 0);
    if i >= 0 {
        m.update(i, (k, v))
    } else {
        m.push((k, v))
    }
}

/// Index of the first binding of `k` at or after `i`, or -1.
pub open spec fn first_key_at<T>(m: Seq<(Seq<u8>, T)>, k: Seq<u8>, i: int) -> int
    decreases m.len() - i,
{
    if i < 0 || i >= m.len() {
        -1
    } else if m[i].0 == k {
        i
    } else {
        first_key_at(m, k, i + 1)
    }
}

/// The view of one entry list: keys to abstract frame values.
pub open spec fn kv_view(v: Vec<(Vec<u8>, RespFrame)>) -> Seq<(Seq<u8>, FrameData)> {
    Seq::new(v@.len(), |i: int| (v@[i].0@, frame_data(v@[i].1)))
}

/// The view of the nested map: keys to their field entry lists.
pub open spec fn hmap_view(
    v: Vec<(Vec<u8>, Vec<(Vec<u8>, RespFrame)>)>,
) -> Seq<(Seq<u8>, Seq<(Seq<u8>, FrameData)>)> {
    Seq::new(v@.len(), |i: int| (v@[i].0@, kv_view(v@[i].1)))
}

impl Backend {
    /// The value stored under `k`, if any.
    pub closed spec fn kv_at(&self, k: Seq<u8>) -> Option<FrameData> {
        assoc_at(kv_view(self.kv), k, 0)
    }

    /// The field list stored under hash key `k`, in insertion order.
    pub closed spec fn hpairs(&self, k: Seq<u8>) -> Option<Seq<(Seq<u8>, FrameData)>> {
        assoc_at(hmap_view(self.hmap), k, 0)
    }

    /// The value of field `f` under hash key `k`, if any.
    pub open spec fn hm_at(&self, k: Seq<u8>, f: Seq<u8>) -> Option<FrameData> {
        match self.hpairs(k) {
            None => None,
            Some(pairs) => assoc_at(pairs, f, 0),
        }
    }

    /// A fresh, empty store.
    pub fn new() -> (r: Backend)
        ensures
            forall|k: Seq<u8>| #[trigger] r.kv_at(k) is None,
            forall|k: Seq<u8>| #[trigger] r.hpairs(k) is None,
    {
        Backend { kv: Vec::new(), hmap: Vec::new() }
    }

    /// Read the current value of `key`.
    pub fn get(&self, key: &[u8]) -> (r: Option<RespFrame>)
        ensures
            match (r, self.kv_at(key@)) {
                (Some(f), Some(d)) => f@ == d,
                (None, None) => true,
                _ => false,
            },
    {
        let n = self.kv.len();
        let mut i: usize = 0;
        while i < n
            invariant
                n == self.kv@.len(),
                i <= n,
                self.kv_at(key@) == assoc_at(kv_view(self.kv), key@, i as int),
            decreases n - i,
        {
            let pair = &self.kv[i];
            if bytes_eq(pair.0.as_slice(), key) {
                return Some(clone_frame(&pair.1));
            }
            i += 1;
        }
        None
    }

    /// Store `value` under `key`, replacing any previous value. Other
    /// keys and the whole hash map are untouched.
    pub fn set(&mut self, key: Vec<u8>, value: RespFrame)
        ensures
            final(self).kv_at(key@) == Some(value@),
            forall|k2: Seq<u8>|
                k2 != key@ ==> #[trigger] final(self).kv_at(k2) == old(self).kv_at(k2),
            forall|k2: Seq<u8>| #[trigger] final(self).hpairs(k2) == old(self).hpairs(k2),
    {
        let n = self.kv.len();
        let mut i: usize = 0;
        while i < n
            invariant
                n == self.kv@.len(),
                i <= n,
                *self == *old(self),
                forall|j: int| 0 <= j < i ==> kv_view(self.kv)[j].0 != key@,
            decreases n - i,
        {
            let pair = &self.kv[i];
            if bytes_eq(pair.0.as_slice(), key.as_slice()) {
                let ghost oldkv = kv_view(self.kv);
                let ghost vd = frame_data(value);
                self.kv[i] = (key, value);
                proof {
                    assert(kv_view(self.kv) =~= oldkv.update(i as int, (oldkv[i as int].0, vd)));
                    lemma_assoc_update(oldkv, i as int, vd);
                }
                return ;
            }
            i += 1;
        }
        let ghost oldkv = kv_view(self.kv);
        let ghost vd = frame_data(value);
        self.kv.push((key, value));
        proof {
            assert(kv_view(self.kv) =~= oldkv.push((key@, vd)));
            lemma_assoc_append(oldkv, key@, vd);
        }
    }

    /// Read the current value of field `field` under hash key `key`.
    pub fn hget(&self, key: &[u8], field: &[u8]) -> (r: Option<RespFrame>)
        ensures
            match (r, self.hm_at(key@, field@)) {
                (Some(f), Some(d)) => f@ == d,
                (None, None) => true,
                _ => false,
            },
    {
        let n = self.hmap.len();
        let mut i: usize = 0;
        while i < n
            invariant
                n == self.hmap@.len(),
                i <= n,
                self.hpairs(key@) == assoc_at(hmap_view(self.hmap), key@, i as int),
            decreases n - i,
        {
            let entry = &self.hmap[i];
            if bytes_eq(entry.0.as_slice(), key) {
                let fields = &entry.1;
                let m = fields.len();
                let mut j: usize = 0;
                while j < m
                    invariant
                        m == fields@.len(),
                        self.hpairs(key@) == Some(kv_view(*fields)),
                        j <= m,
                        assoc_at(kv_view(*fields), field@, 0) == assoc_at(
                            kv_view(*fields),
                            field@,
                            j as int,
                        ),
                    decreases m - j,
                {
                    let pair = &fields[j];
                    if bytes_eq(pair.0.as_slice(), field) {
                        return Some(clone_frame(&pair.1));
                    }
                    j += 1;
                }
                return None;
            }
            i += 1;
        }
        None
    }

    /// Store `value` under `key`/`field`, creating the hash on its
    /// first field. Other keys, fields, and the flat map are untouched.
    pub fn hset(&mut self, key: Vec<u8>, field: Vec<u8>, value: RespFrame)
        ensures
            final(self).hpairs(key@) == Some(
                match old(self).hpairs(key@) {
                    Some(oldp) => assoc_put(oldp, field@, value@),
                    None => seq![(field@, value@)],
                },
            ),
            final(self).hm_at(key@, field@) == Some(value@),
            forall|f2: Seq<u8>|
                f2 != field@ ==> #[trigger] final(self).hm_at(key@, f2) == old(self).hm_at(
                    key@,
                    f2,
                ),
            forall|k2: Seq<u8>|
                k2 != key@ ==> #[trigger] final(self).hpairs(k2) == old(self).hpairs(k2),
            forall|k2: Seq<u8>| #[trigger] final(self).kv_at(k2) == old(self).kv_at(k2),
    {
        let n = self.hmap.len();
        let mut i: usize = 0;
        while i < n
            invariant
                n == self.hmap@.len(),
                i <= n,
                *self == *old(self),
                forall|j: int| 0 <= j < i ==> hmap_view(self.hmap)[j].0 != key@,
            decreases n - i,
        {
            if bytes_eq(self.hmap[i].0.as_slice(), key.as_slice()) {
                let ghost oldh = hmap_view(self.hmap);
                let ghost oldfields = kv_view(self.hmap@[i as int].1);
                let ghost vd = frame_data(value);
                let ghost fd = field@;
                proof {
                    lemma_assoc_scan_hit(oldh, i as int);
                    assert(old(self).hpairs(key@) == Some(oldfields));
                }
                let entry = &mut self.hmap[i];
                hset_put(&mut entry.1, field, value);
                proof {
                    assert(hmap_view(self.hmap) =~= oldh.update(
                        i as int,
                        (oldh[i as int].0, assoc_put(oldfields, fd, vd)),
                    ));
                    lemma_assoc_update(oldh, i as int, assoc_put(oldfields, fd, vd));
                    lemma_assoc_put_props(oldfields, fd, vd);
                }
                return ;
            }
            i += 1;
        }
        let ghost oldh = hmap_view(self.hmap);
        let ghost vd = frame_data(value);
        let ghost fd = field@;
        let mut fields: Vec<(Vec<u8>, RespFrame)> = Vec::new();
        fields.push((field, value));
        self.hmap.push((key, fields));
        proof {
            lemma_assoc_none(oldh, key@, 0);
            assert(kv_view(self.hmap@[oldh.len() as int].1) =~= seq![(fd, vd)]);
            assert(hmap_view(self.hmap) =~= oldh.push((key@, seq![(fd, vd)])));
            lemma_assoc_append(oldh, key@, seq![(fd, vd)]);
            assert forall|f2: Seq<u8>| f2 != fd implies assoc_at(seq![(fd, vd)], f2, 0)
                == None::<FrameData> by {
                assert(assoc_at(seq![(fd, vd)], f2, 1) == None::<FrameData>);
            }
            assert(assoc_at(seq![(fd, vd)], fd, 0) == Some(vd));
        }
    }

    /// A snapshot of all field-value pairs under `key`, in stored
    /// order, or nothing when the hash does not exist.
    pub fn hgetall(&self, key: &[u8]) -> (r: Option<Vec<(Vec<u8>, RespFrame)>>)
        ensures
            match (r, self.hpairs(key@)) {
                (Some(v), Some(pairs)) => kv_view(v) == pairs,
                (None, None) => true,
                _ => false,
            },
    {
        let n = self.hmap.len();
        let mut i: usize = 0;
        while i < n
            invariant
                n == self.hmap@.len(),
                i <= n,
                self.hpairs(key@) == assoc_at(hmap_view(self.hmap), key@, i as int),
            decreases n - i,
        {
            let entry = &self.hmap[i];
            if bytes_eq(entry.0.as_slice(), key) {
                let fields = &entry.1;
                let m = fields.len();
                let mut out: Vec<(Vec<u8>, RespFrame)> = Vec::new();
                let mut j: usize = 0;
                while j < m
                    invariant
                        m == fields@.len(),
                        j <= m,
                        out@.len() == j,
                        forall|q: int| 0 <= q < j ==> kv_view(out)[q] == kv_view(*fields)[q],
                    decreases m - j,
                {
                    let pair = &fields[j];
                    out.push((clone_bytes(&pair.0), clone_frame(&pair.1)));
                    proof {
                        assert(kv_view(out)[j as int] == kv_view(*fields)[j as int]);
                    }
                    j += 1;
                }
                proof {
                    assert(kv_view(out) =~= kv_view(*fields));
                }
                return Some(out);
            }
            i += 1;
        }
        None
    }
}

/// Update the field list in place: the first matching field replaced,
/// or the new pair appended.
fn hset_put(fields: &mut Vec<(Vec<u8>, RespFrame)>, field: Vec<u8>, value: RespFrame)
    ensures
        kv_view(*final(fields)) == assoc_put(kv_view(*old(fields)), field@, value@),
{
    let n = fields.len();
    let mut i: usize = 0;
    while i < n
        invariant
            n == fields@.len(),
            i <= n,
            *fields == *old(fields),
            forall|j: int| 0 <= j < i ==> kv_view(*fields)[j].0 != field@,
            first_key_at(kv_view(*fields), field@, 0) == first_key_at(
                kv_view(*fields),
                field@,
                i as int,
            ),
        decreases n - i,
    {
        if bytes_eq(fields[i].0.as_slice(), field.as_slice()) {
            let ghost oldv = kv_view(*fields);
            let ghost vd = frame_data(value);
            proof {
                assert(first_key_at(oldv, field@, i as int) == i as int);
            }
            fields[i] = (field, value);
            proof {
                assert(kv_view(*fields) =~= oldv.update(i as int, (field@, vd)));
            }
            return ;
        }
        i += 1;
    }
    let ghost oldv = kv_view(*fields);
    let ghost vd = frame_data(value);
    fields.push((field, value));
    proof {
        assert(kv_view(*fields) =~= oldv.push((field@, vd)));
    }
}

// ---------------------------------------------------------------------
// Lemmas relating entry-list edits to lookups
// ---------------------------------------------------------------------

/// A key bound nowhere looks up to nothing.
proof fn lemma_assoc_none<T>(m: Seq<(Seq<u8>, T)>, k: Seq<u8>, s: int)
    requires
        0 <= s <= m.len(),
        forall|j: int| s <= j < m.len() ==> (#[trigger] m[j]).0 != k,
    ensures
        assoc_at(m, k, s) == None::<T>,
    decreases m.len() - s,
{
    if s < m.len() {
        lemma_assoc_none(m, k, s + 1);
    }
}

/// Scanning a list whose first `i` keys all differ from `m[i].0` finds
/// exactly the entry at `i`.
proof fn lemma_assoc_scan_hit<T>(m: Seq<(Seq<u8>, T)>, i: int)
    requires
        0 <= i < m.len(),
        forall|j: int| 0 <= j < i ==> (#[trigger] m[j]).0 != m[i].0,
    ensures
        assoc_at(m, m[i].0, 0) == Some(m[i].1),
{
    lemma_assoc_scan_hit_from(m, i, 0);
}

proof fn lemma_assoc_scan_hit_from<T>(m: Seq<(Seq<u8>, T)>, i: int, s: int)
    requires
        0 <= s <= i < m.len(),
        forall|j: int| s <= j < i ==> (#[trigger] m[j]).0 != m[i].0,
    ensures
        assoc_at(m, m[i].0, s) == Some(m[i].1),
    decreases i - s,
{
    if s < i {
        lemma_assoc_scan_hit_from(m, i, s + 1);
    }
}

/// Updating the first occurrence of a key rebinds that key and leaves
/// every other key's first occurrence alone.
proof fn lemma_assoc_update<T>(m: Seq<(Seq<u8>, T)>, i: int, v: T)
    requires
        0 <= i < m.len(),
        forall|j: int| 0 <= j < i ==> (#[trigger] m[j]).0 != m[i].0,
    ensures
        assoc_at(m.update(i, (m[i].0, v)), m[i].0, 0) == Some(v),
        forall|k2: Seq<u8>|
            k2 != m[i].0 ==> #[trigger] assoc_at(m.update(i, (m[i].0, v)), k2, 0) == assoc_at(
                m,
                k2,
                0,
            ),
{
    let m2 = m.update(i, (m[i].0, v));
    assert forall|k2: Seq<u8>| k2 != m[i].0 implies #[trigger] assoc_at(m2, k2, 0) == assoc_at(
        m,
        k2,
        0,
    ) by {
        lemma_assoc_update_other(m, i, v, k2, 0);
    }
    lemma_assoc_update_find(m, i, v, 0);
}

proof fn lemma_assoc_update_find<T>(m: Seq<(Seq<u8>, T)>, i: int, v: T, s: int)
    requires
        0 <= s <= i < m.len(),
        forall|j: int| s <= j < i ==> (#[trigger] m[j]).0 != m[i].0,
    ensures
        assoc_at(m.update(i, (m[i].0, v)), m[i].0, s) == Some(v),
    decreases i - s,
{
    if s < i {
        lemma_assoc_update_find(m, i, v, s + 1);
    }
}

proof fn lemma_assoc_update_other<T>(m: Seq<(Seq<u8>, T)>, i: int, v: T, k2: Seq<u8>, s: int)
    requires
        0 <= i < m.len(),
        0 <= s <= m.len(),
        k2 != m[i].0,
    ensures
        assoc_at(m.update(i, (m[i].0, v)), k2, s) == assoc_at(m, k2, s),
    decreases m.len() - s,
{
    if s < m.len() {
        lemma_assoc_update_other(m, i, v, k2, s + 1);
    }
}

/// Appending a fresh key binds it and leaves other keys alone.
proof fn lemma_assoc_append<T>(m: Seq<(Seq<u8>, T)>, k: Seq<u8>, v: T)
    requires
        forall|j: int| 0 <= j < m.len() ==> (#[trigger] m[j]).0 != k,
    ensures
        assoc_at(m.push((k, v)), k, 0) == Some(v),
        forall|k2: Seq<u8>|
            k2 != k ==> #[trigger] assoc_at(m.push((k, v)), k2, 0) == assoc_at(m, k2, 0),
{
    assert forall|k2: Seq<u8>| k2 != k implies #[trigger] assoc_at(m.push((k, v)), k2, 0)
        == assoc_at(m, k2, 0) by {
        lemma_assoc_append_scan(m, k, v, k2, 0);
    }
    lemma_assoc_append_hit(m, k, v, 0);
}

proof fn lemma_assoc_append_hit<T>(m: Seq<(Seq<u8>, T)>, k: Seq<u8>, v: T, s: int)
    requires
        0 <= s <= m.len(),
        forall|j: int| s <= j < m.len() ==> (#[trigger] m[j]).0 != k,
    ensures
        assoc_at(m.push((k, v)), k, s) == Some(v),
    decreases m.len() - s,
{
    if s < m.len() {
        lemma_assoc_append_hit(m, k, v, s + 1);
    }
}

proof fn lemma_assoc_append_scan<T>(m: Seq<(Seq<u8>, T)>, k: Seq<u8>, v: T, k2: Seq<u8>, s: int)
    requires
        0 <= s <= m.len(),
        k2 != k,
    ensures
        assoc_at(m.push((k, v)), k2, s) == assoc_at(m, k2, s),
    decreases m.len() - s,
{
    if s < m.len() {
        lemma_assoc_append_scan(m, k, v, k2, s + 1);
    } else {
        assert(assoc_at(m.push((k, v)), k2, s + 1) == None::<T>);
    }
}

/// What `assoc_put` does to lookups: the put key is bound to the new
/// value, every other key is untouched.
pub proof fn lemma_assoc_put_props<T>(m: Seq<(Seq<u8>, T)>, k: Seq<u8>, v: T)
    ensures
        assoc_at(assoc_put(m, k, v), k, 0) == Some(v),
        forall|f2: Seq<u8>|
            f2 != k ==> #[trigger] assoc_at(assoc_put(m, k, v), f2, 0) == assoc_at(m, f2, 0),
{
    let i = first_key_at(m, k, 0);
    if i >= 0 {
        lemma_first_key_props(m, k, 0);
        lemma_assoc_update(m, i, v);
    } else {
        lemma_first_key_props(m, k, 0);
        lemma_assoc_append(m, k, v);
    }
}

/// `first_key_at` finds the first binding: the entry it points at has
/// the key, and nothing before it does; -1 means no binding at all.
proof fn lemma_first_key_props<T>(m: Seq<(Seq<u8>, T)>, k: Seq<u8>, s: int)
    requires
        0 <= s <= m.len(),
    ensures
        ({
            let i = first_key_at(m, k, s);
            if i >= 0 {
                s <= i < m.len() && m[i].0 == k && forall|j: int|
                    s <= j < i ==> (#[trigger] m[j]).0 != k
            } else {
                forall|j: int| s <= j < m.len() ==> (#[trigger] m[j]).0 != k
            }
        }),
    decreases m.len() - s,
{
    if s < m.len() && m[s].0 != k {
        lemma_first_key_props(m, k, s + 1);
    }
}

} // verus!
