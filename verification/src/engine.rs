//! The log-structured storage engine.
//!
//! Data lives in append-only segments, each named by a generation number.
//! An in-memory index maps every live key to the segment, position and
//! length of the `Put` record that currently defines it (the index also
//! caches the record's value; the engine invariant ties the cache to the
//! bytes). The observable state is the map obtained by replaying every
//! segment in generation order, and every operation's contract is stated
//! against that map.

use vstd::prelude::*;

use crate::codec::{
    rec_dec_at, rec_enc, rec_wf, record_append, record_read_at, copy_range, RecModel, Record,
};
use crate::order::{lex_le, lex_lt, lemma_lex_total, lemma_lex_asym, lemma_lex_le_trans, bytes_le};
use crate::KvError;

verus! {

/// One append-only segment.
pub struct Segment {
    pub gen: u64,
    pub data: Vec<u8>,
}

/// The mathematical shape of a segment.
pub struct SegModel {
    pub gen: u64,
    pub data: Seq<u8>,
}

impl View for Segment {
    type V = SegModel;

    open spec fn view(&self) -> SegModel {
        SegModel { gen: self.gen, data: self.data@ }
    }
}

pub open spec fn seg_models(s: Seq<Segment>) -> Seq<SegModel> {
    s.map_values(|seg: Segment| seg@)
}

/// What one replayed record does to the key-value map.
pub open spec fn replay_step(
    m: Map<Seq<u8>, Seq<u8>>,
    r: RecModel,
) -> Map<Seq<u8>, Seq<u8>> {
    match r {
        RecModel::Put { key, value } => m.insert(key, value),
        RecModel::Remove { key } => m.remove(key),
    }
}

/// Replay the records of one segment from `pos` on, starting from map `m`.
/// A position that does not hold a whole record ends the replay: a
/// truncated tail is ignored.
pub open spec fn replay_from(d: Seq<u8>, pos: int, m: Map<Seq<u8>, Seq<u8>>) -> Map<
    Seq<u8>,
    Seq<u8>,
>
    decreases d.len() - pos,
{
    match rec_dec_at(d, pos) {
        Some((r, n)) => if pos < n <= d.len() {
            replay_from(d, n, replay_step(m, r))
        } else {
            m
        },
        None => m,
    }
}

/// The position at which replay of a segment stops.
pub open spec fn stream_end(d: Seq<u8>, pos: int) -> int
    decreases d.len() - pos,
{
    match rec_dec_at(d, pos) {
        Some((r, n)) => if pos < n <= d.len() {
            stream_end(d, n)
        } else {
            pos
        },
        None => pos,
    }
}

/// A segment whose bytes are exactly a sequence of whole records.
pub open spec fn seg_clean(d: Seq<u8>) -> bool {
    stream_end(d, 0) == d.len()
}

/// Replaying all segments in order, oldest first.
pub open spec fn replay_segs(segs: Seq<SegModel>) -> Map<Seq<u8>, Seq<u8>>
    decreases segs.len(),
{
    if segs.len() == 0 {
        Map::empty()
    } else {
        replay_from(segs.last().data, 0, replay_segs(segs.drop_last()))
    }
}

/// Appending one whole record to fully-consumed data extends the replay by
/// exactly that record's step, and the data stays fully consumed.
pub proof fn lemma_replay_from_append(d: Seq<u8>, r: RecModel, pos: int, m: Map<Seq<u8>, Seq<u8>>)
    requires
        0 <= pos <= d.len(),
        stream_end(d, pos) == d.len(),
        rec_wf(r),
    ensures
        replay_from(d + rec_enc(r), pos, m) == replay_step(replay_from(d, pos, m), r),
        stream_end(d + rec_enc(r), pos) == d.len() + rec_enc(r).len(),
    decreases d.len() - pos,
{
    let e = rec_enc(r);
    let de = d + e;
    match rec_dec_at(d, pos) {
        Some((r0, n)) => {
            crate::codec::lemma_dec_bounds(d, pos);
            crate::codec::lemma_dec_append(d, e, pos);
            lemma_replay_from_append(d, r, n, replay_step(m, r0));
        },
        None => {
            assert(stream_end(d, pos) == pos);
            assert(pos == d.len());
            assert(de.subrange(pos, pos + e.len()) =~= e);
            crate::codec::lemma_dec_enc(de, pos, r);
            assert(rec_dec_at(de, pos) == Some((r, pos + e.len())));
            assert(pos + e.len() == de.len());
            assert(e.len() >= 9);
            assert(rec_dec_at(de, pos + e.len()) is None);
            assert(replay_from(de, pos + e.len(), replay_step(m, r)) == replay_step(m, r));
            assert(replay_from(de, pos, m) == replay_from(de, pos + e.len(), replay_step(m, r)));
            assert(stream_end(de, pos + e.len()) == pos + e.len());
            assert(stream_end(de, pos) == stream_end(de, pos + e.len()));
        },
    }
}

/// The same, lifted to the whole segment list: appending a record to the
/// last segment applies its step to the replay of the whole list.
pub proof fn lemma_replay_segs_append(segs: Seq<SegModel>, r: RecModel)
    requires
        segs.len() >= 1,
        seg_clean(segs.last().data),
        rec_wf(r),
    ensures
        replay_segs(
            segs.update(
                segs.len() - 1,
                SegModel { gen: segs.last().gen, data: segs.last().data + rec_enc(r) },
            ),
        ) == replay_step(replay_segs(segs), r),
        seg_clean(segs.last().data + rec_enc(r)),
{
    let segs2 = segs.update(
        segs.len() - 1,
        SegModel { gen: segs.last().gen, data: segs.last().data + rec_enc(r) },
    );
    assert(segs2.drop_last() =~= segs.drop_last());
    lemma_replay_from_append(segs.last().data, r, 0, replay_segs(segs.drop_last()));
}

/// Appending a record to the last segment: the replay map takes the
/// record's step, generations stay, and every valid index entry stays valid.
proof fn lemma_store_append(old_segs: Seq<SegModel>, segs2: Seq<SegModel>, r: RecModel)
    requires
        old_segs.len() >= 1,
        seg_clean(old_segs.last().data),
        rec_wf(r),
        segs2 == old_segs.update(
            old_segs.len() - 1,
            SegModel { gen: old_segs.last().gen, data: old_segs.last().data + rec_enc(r) },
        ),
    ensures
        replay_segs(segs2) == replay_step(replay_segs(old_segs), r),
        seg_clean(segs2.last().data),
        segs2.len() == old_segs.len(),
        forall|x: int| 0 <= x < segs2.len() ==> segs2[x].gen == old_segs[x].gen,
        forall|e: IndexEntry| #[trigger] entry_wf(e, old_segs) ==> entry_wf(e, segs2),
{
    let li = old_segs.len() - 1;
    lemma_replay_segs_append(old_segs, r);
    assert forall|x: int|
        0 <= x < old_segs.len() implies segs2[x].gen == old_segs[x].gen && old_segs[x].data.len()
        <= segs2[x].data.len() && segs2[x].data.subrange(0, old_segs[x].data.len() as int)
        == old_segs[x].data by {
        if x == li {
            assert(segs2[x].data =~= old_segs[x].data + rec_enc(r));
            assert(segs2[x].data.subrange(0, old_segs[x].data.len() as int) =~= old_segs[x].data);
        } else {
            assert(segs2[x] == old_segs[x]);
        }
    }
    assert forall|e: IndexEntry| #[trigger] entry_wf(e, old_segs) implies entry_wf(e, segs2) by {
        lemma_entry_wf_extend(e, old_segs, segs2);
    }
}

/// An index entry: where the defining `Put` record of a key lives, and the
/// value it carries.
pub struct IndexEntry {
    pub key: Vec<u8>,
    pub val: Vec<u8>,
    pub gen: u64,
    pub pos: usize,
    pub len: usize,
}

/// The key-value map that a sequence of index entries denotes; a later
/// entry for the same key would win, though the engine keeps keys unique.
pub open spec fn entries_map(s: Seq<IndexEntry>) -> Map<Seq<u8>, Seq<u8>>
    decreases s.len(),
{
    if s.len() == 0 {
        Map::empty()
    } else {
        entries_map(s.drop_last()).insert(s.last().key@, s.last().val@)
    }
}

/// No two entries hold the same key.
pub open spec fn entries_unique(s: Seq<IndexEntry>) -> bool {
    forall|i: int, j: int| 0 <= i < j < s.len() ==> s[i].key@ != s[j].key@
}

/// With unique keys, the denoted map is exactly: one binding per entry.
pub proof fn lemma_entries_map_index(s: Seq<IndexEntry>)
    requires
        entries_unique(s),
    ensures
        forall|k: Seq<u8>|
            entries_map(s).dom().contains(k) <==> exists|i: int| 0 <= i < s.len() && s[i].key@ == k,
        forall|i: int|
            0 <= i < s.len() ==> entries_map(s).dom().contains(#[trigger] s[i].key@)
                && entries_map(s)[s[i].key@] == s[i].val@,
    decreases s.len(),
{
    if s.len() > 0 {
        let s0 = s.drop_last();
        assert(entries_unique(s0)) by {
            assert(forall|i: int| 0 <= i < s0.len() ==> s0[i] == s[i]);
        }
        lemma_entries_map_index(s0);
        assert forall|i: int| 0 <= i < s.len() implies entries_map(s).dom().contains(
            #[trigger] s[i].key@,
        ) && entries_map(s)[s[i].key@] == s[i].val@ by {
            if i < s.len() - 1 {
                assert(s0[i] == s[i]);
                assert(s[i].key@ != s.last().key@);
            }
        }
        assert forall|k: Seq<u8>| entries_map(s).dom().contains(k) implies exists|i: int|
            0 <= i < s.len() && s[i].key@ == k by {
            if k != s.last().key@ {
                assert(entries_map(s0).dom().contains(k));
                let i = choose|i: int| 0 <= i < s0.len() && s0[i].key@ == k;
                assert(s0[i] == s[i]);
                assert(s[i].key@ == k);
            } else {
                assert(s[s.len() - 1].key@ == k);
            }
        }
    }
}

/// Removing the entry at `i` removes exactly its key from the map.
pub proof fn lemma_entries_map_remove(s: Seq<IndexEntry>, i: int)
    requires
        entries_unique(s),
        0 <= i < s.len(),
    ensures
        entries_map(s.remove(i)) == entries_map(s).remove(s[i].key@),
        entries_unique(s.remove(i)),
    decreases s.len(),
{
    let t = s.remove(i);
    assert(entries_unique(t)) by {
        assert forall|a: int, b: int| 0 <= a < b < t.len() implies t[a].key@ != t[b].key@ by {
            let a2 = if a < i {
                a
            } else {
                a + 1
            };
            let b2 = if b < i {
                b
            } else {
                b + 1
            };
            assert(t[a] == s[a2] && t[b] == s[b2]);
        }
    }
    if i == s.len() - 1 {
        assert(t =~= s.drop_last());
        lemma_entries_map_index(s);
        lemma_entries_map_index(t);
        assert forall|k: Seq<u8>| true implies #[trigger] entries_map(t).contains_key(k)
            == entries_map(s).remove(s[i].key@).contains_key(k) && (entries_map(t).contains_key(k)
            ==> entries_map(t)[k] == entries_map(s).remove(s[i].key@)[k]) by {
            if k == s[i].key@ {
                if entries_map(t).contains_key(k) {
                    let j = choose|j: int| 0 <= j < t.len() && t[j].key@ == k;
                    assert(s[j].key@ == k);
                    assert(false);
                }
            } else {
                if entries_map(t).contains_key(k) {
                    let j = choose|j: int| 0 <= j < t.len() && t[j].key@ == k;
                    assert(s[j].key@ == k);
                    assert(entries_map(s)[k] == s[j].val@ && entries_map(t)[k] == t[j].val@);
                } else {
                    if entries_map(s).contains_key(k) {
                        let j = choose|j: int| 0 <= j < s.len() && s[j].key@ == k;
                        assert(j < s.len() - 1);
                        assert(t[j].key@ == k);
                        assert(false);
                    }
                }
            }
        }
        assert(entries_map(t) =~= entries_map(s).remove(s[i].key@));
    } else {
        let s0 = s.drop_last();
        assert(entries_unique(s0)) by {
            assert(forall|a: int| 0 <= a < s0.len() ==> s0[a] == s[a]);
        }
        lemma_entries_map_remove(s0, i);
        assert(t.drop_last() =~= s0.remove(i));
        assert(t.last() == s.last());
        assert(entries_map(t) == entries_map(s0.remove(i)).insert(s.last().key@, s.last().val@));
        assert(entries_map(s0.remove(i)) == entries_map(s0).remove(s[i].key@));
        assert(entries_map(s) == entries_map(s0).insert(s.last().key@, s.last().val@));
        assert(s.last().key@ != s[i].key@);
        assert(entries_map(s0).remove(s[i].key@).insert(s.last().key@, s.last().val@)
            =~= entries_map(s0).insert(s.last().key@, s.last().val@).remove(s[i].key@));
    }
}

} // verus!

verus! {

/// The entry's record really is in the segment it names.
pub open spec fn entry_in_seg(e: IndexEntry, segs: Seq<SegModel>, si: int) -> bool {
    &&& 0 <= si < segs.len()
    &&& segs[si].gen == e.gen
    &&& e.pos + e.len <= segs[si].data.len()
    &&& rec_dec_at(segs[si].data.subrange(e.pos as int, e.pos + e.len), 0) == Some(
        (RecModel::Put { key: e.key@, value: e.val@ }, e.len as int),
    )
}

pub open spec fn entry_wf(e: IndexEntry, segs: Seq<SegModel>) -> bool {
    exists|si: int| entry_in_seg(e, segs, si)
}

/// Growing segments at their tails keeps every entry valid.
proof fn lemma_entry_wf_extend(e: IndexEntry, segs: Seq<SegModel>, segs2: Seq<SegModel>)
    requires
        entry_wf(e, segs),
        segs2.len() >= segs.len(),
        forall|i: int|
            0 <= i < segs.len() ==> segs2[i].gen == segs[i].gen && segs[i].data.len()
                <= segs2[i].data.len() && segs2[i].data.subrange(0, segs[i].data.len() as int)
                == segs[i].data,
    ensures
        entry_wf(e, segs2),
{
    let si = choose|si: int| entry_in_seg(e, segs, si);
    assert(segs2[si].data.subrange(e.pos as int, e.pos + e.len) =~= segs[si].data.subrange(
        e.pos as int,
        e.pos + e.len,
    )) by {
        let pre = segs2[si].data.subrange(0, segs[si].data.len() as int);
        assert forall|j: int| 0 <= j < e.len as int implies #[trigger] segs2[si].data.subrange(
            e.pos as int,
            e.pos + e.len,
        )[j] == segs[si].data.subrange(e.pos as int, e.pos + e.len)[j] by {
            assert(pre[e.pos + j] == segs[si].data[e.pos + j]);
        }
    }
    assert(entry_in_seg(e, segs2, si));
}

/// The storage engine.
pub struct KvStore {
    segments: Vec<Segment>,
    index: Vec<IndexEntry>,
    uncompacted: u64,
}

/// The capability every storage backend of the transactional layers offers.
pub trait KvsEngine: Sized {
    /// The invariant the engine maintains between calls.
    spec fn inv(&self) -> bool;

    /// The observable key-value map.
    spec fn model(&self) -> Map<Seq<u8>, Seq<u8>>;

    /// Bind `value` to `key`, replacing any earlier binding.
    fn set(&mut self, key: Vec<u8>, value: Vec<u8>)
        requires
            old(self).inv(),
        ensures
            final(self).inv(),
            final(self).model() == old(self).model().insert(key@, value@),
    ;

    /// The value bound to `key`, if any.
    fn get(&self, key: &Vec<u8>) -> (r: Option<Vec<u8>>)
        requires
            self.inv(),
        ensures
            match r {
                Some(v) => self.model().dom().contains(key@) && v@ == self.model()[key@],
                None => !self.model().dom().contains(key@),
            },
    ;

    /// Drop the binding of `key`; `KeyNotFound` when there is none.
    fn remove(&mut self, key: &Vec<u8>) -> (r: Result<(), KvError>)
        requires
            old(self).inv(),
        ensures
            final(self).inv(),
            match r {
                Ok(()) => old(self).model().dom().contains(key@) && final(self).model() == old(
                    self,
                ).model().remove(key@),
                Err(e) => e == KvError::KeyNotFound && !old(self).model().dom().contains(key@)
                    && final(self).model() == old(self).model(),
            },
    ;

    /// The greatest key in the inclusive range `[lo, hi]`, with its value.
    fn range_last(&self, lo: &Vec<u8>, hi: &Vec<u8>) -> (r: Option<(Vec<u8>, Vec<u8>)>)
        requires
            self.inv(),
        ensures
            match r {
                Some((k, v)) => self.model().dom().contains(k@) && v@ == self.model()[k@] && lex_le(
                    lo@,
                    k@,
                ) && lex_le(k@, hi@) && forall|k2: Seq<u8>|
                    self.model().dom().contains(k2) && lex_le(lo@, k2) && lex_le(k2, hi@) ==> lex_le(
                        k2,
                        k@,
                    ),
                None => forall|k2: Seq<u8>|
                    self.model().dom().contains(k2) ==> !(lex_le(lo@, k2) && lex_le(k2, hi@)),
            },
    ;

    /// Drop every binding whose key lies in the inclusive range `[lo, hi]`.
    fn range_erase(&mut self, lo: &Vec<u8>, hi: &Vec<u8>)
        requires
            old(self).inv(),
        ensures
            final(self).inv(),
            forall|k: Seq<u8>| #[trigger]
                final(self).model().dom().contains(k) ==> old(self).model().dom().contains(k) && !(
                lex_le(lo@, k) && lex_le(k, hi@)) && final(self).model()[k] == old(self).model()[k],
            forall|k: Seq<u8>| #[trigger]
                old(self).model().dom().contains(k) && !(lex_le(lo@, k) && lex_le(k, hi@))
                    ==> final(self).model().dom().contains(k),
    ;

    /// All bindings, as parallel key and value lists.
    fn export(&self) -> (r: (Vec<Vec<u8>>, Vec<Vec<u8>>))
        requires
            self.inv(),
        ensures
            r.0@.len() == r.1@.len(),
            pairs_map(r.0@, r.1@) == self.model(),
    ;

    /// Replace the whole store with the given bindings.
    fn import(&mut self, keys: Vec<Vec<u8>>, vals: Vec<Vec<u8>>)
        requires
            old(self).inv(),
            keys@.len() == vals@.len(),
        ensures
            final(self).inv(),
            final(self).model() == pairs_map(keys@, vals@),
    ;
}

/// The map that parallel key and value lists denote; a later pair wins.
pub open spec fn pairs_map(ks: Seq<Vec<u8>>, vs: Seq<Vec<u8>>) -> Map<Seq<u8>, Seq<u8>>
    decreases ks.len(),
{
    if ks.len() == 0 || vs.len() == 0 {
        Map::empty()
    } else {
        pairs_map(ks.drop_last(), vs.drop_last()).insert(ks.last()@, vs.last()@)
    }
}

impl KvStore {
    pub closed spec fn seg_list(&self) -> Seq<SegModel> {
        seg_models(self.segments@)
    }

    pub closed spec fn wf(&self) -> bool {
        &&& self.segments@.len() >= 1
        &&& forall|i: int, j: int|
            0 <= i < j < self.segments@.len() ==> self.segments@[i].gen < self.segments@[j].gen
        &&& seg_clean(self.segments@.last().data@)
        &&& forall|i: int|
            0 <= i < self.index@.len() ==> entry_wf(#[trigger] self.index@[i], self.seg_list())
        &&& entries_unique(self.index@)
        &&& replay_segs(self.seg_list()) == entries_map(self.index@)
    }

    pub closed spec fn view_map(&self) -> Map<Seq<u8>, Seq<u8>> {
        entries_map(self.index@)
    }

    /// Replaying all segments in order yields exactly the map the live
    /// index denotes.
    pub proof fn lemma_replay_matches_index(&self)
        requires
            self.inv(),
        ensures
            replay_segs(self.seg_list()) == self.model(),
    {
    }
}

} // verus!

verus! {

/// Dead bytes tolerated before a set triggers compaction.
pub const COMPACTION_THRESHOLD: u64 = 1048576;

/// Addition that stops at the top of `u64` instead of wrapping.
fn sat_add_u64(a: u64, b: u64) -> (r: u64)
    ensures
        r == if a + b <= u64::MAX {
            a + b
        } else {
            u64::MAX as int
        },
{
    if u64::MAX - a < b {
        u64::MAX
    } else {
        a + b
    }
}

/// The position of the entry that holds `key`, if any.
fn index_find(index: &Vec<IndexEntry>, key: &Vec<u8>) -> (r: Option<usize>)
    ensures
        match r {
            Some(i) => i < index@.len() && index@[i as int].key@ == key@,
            None => forall|j: int| 0 <= j < index@.len() ==> index@[j].key@ != key@,
        },
{
    let n = index.len();
    let mut i: usize = 0;
    while i < n
        invariant
            n == index@.len(),
            i <= n,
            forall|j: int| 0 <= j < i ==> index@[j].key@ != key@,
        decreases n - i,
    {
        if crate::order::bytes_eq(&index[i].key, key) {
            return Some(i);
        }
        i = i + 1;
    }
    None
}

/// The position of some entry whose key lies in `[lo, hi]`, if any.
fn index_find_in_range(index: &Vec<IndexEntry>, lo: &Vec<u8>, hi: &Vec<u8>) -> (r: Option<usize>)
    ensures
        match r {
            Some(i) => i < index@.len() && lex_le(lo@, index@[i as int].key@) && lex_le(
                index@[i as int].key@,
                hi@,
            ),
            None => forall|j: int|
                0 <= j < index@.len() ==> !(lex_le(lo@, #[trigger] index@[j].key@) && lex_le(
                    index@[j].key@,
                    hi@,
                )),
        },
{
    let n = index.len();
    let mut i: usize = 0;
    while i < n
        invariant
            n == index@.len(),
            i <= n,
            forall|j: int|
                0 <= j < i ==> !(lex_le(lo@, #[trigger] index@[j].key@) && lex_le(
                    index@[j].key@,
                    hi@,
                )),
        decreases n - i,
    {
        if bytes_le(lo, &index[i].key) && bytes_le(&index[i].key, hi) {
            return Some(i);
        }
        i = i + 1;
    }
    None
}

/// The maps entries denote are finitely many bindings.
proof fn lemma_entries_map_finite(s: Seq<IndexEntry>)
    ensures
        entries_map(s).dom().finite(),
    decreases s.len(),
{
    if s.len() > 0 {
        lemma_entries_map_finite(s.drop_last());
    }
}

impl KvsEngine for KvStore {
    open spec fn inv(&self) -> bool {
        self.wf()
    }

    open spec fn model(&self) -> Map<Seq<u8>, Seq<u8>> {
        self.view_map()
    }

    #[verifier::rlimit(100)]
    fn set(&mut self, key: Vec<u8>, value: Vec<u8>) {
        let k2 = crate::bytes_clone(&key);
        let v2 = crate::bytes_clone(&value);
        let klen = k2.len();
        let vlen = v2.len();
        proof {
            assert(k2@.len() == klen as int && v2@.len() == vlen as int);
        }
        let rec = Record::Put { key, value };
        let li = self.segments.len() - 1;
        let gen = self.segments[li].gen;
        let ghost old_segs = self.seg_list();
        let seg = &mut self.segments[li];
        let pos = seg.data.len();
        let n = record_append(&mut seg.data, &rec);
        proof {
            assert(rec_wf(rec@));
            assert(self.seg_list() =~= old_segs.update(
                li as int,
                SegModel { gen, data: old_segs.last().data + rec_enc(rec@) },
            ));
            lemma_store_append(old_segs, self.seg_list(), rec@);
            assert forall|i: int|
                0 <= i < self.index@.len() implies entry_wf(
                #[trigger] self.index@[i],
                self.seg_list(),
            ) by {
                assert(entry_wf(self.index@[i], old_segs));
            }
        }
        let ghost mid_map = entries_map(self.index@);
        match index_find(&self.index, &k2) {
            Some(i) => {
                let old_len = self.index[i].len as u64;
                self.uncompacted = sat_add_u64(self.uncompacted, old_len);
                proof {
                    lemma_entries_map_remove(self.index@, i as int);
                }
                let _old_entry = self.index.remove(i);
                proof {
                    assert(entries_map(self.index@) == mid_map.remove(k2@));
                    lemma_entries_map_index(self.index@);
                    assert forall|j: int| 0 <= j < self.index@.len() implies self.index@[j].key@
                        != k2@ by {
                        if self.index@[j].key@ == k2@ {
                            assert(entries_map(self.index@).dom().contains(k2@));
                            assert(!mid_map.remove(k2@).dom().contains(k2@));
                        }
                    }
                }
            },
            None => {},
        }
        let ghost pre_seq = self.index@;
        let entry = IndexEntry { key: k2, val: v2, gen, pos, len: n };
        self.index.push(entry);
        proof {
            assert(self.index@.drop_last() =~= pre_seq);
            assert(self.index@.last() == entry);
            assert(entries_map(self.index@) == entries_map(pre_seq).insert(k2@, v2@));
            assert(entries_map(self.index@) =~= mid_map.insert(k2@, v2@));
            // the new entry's record is where the entry says
            let segs2 = self.seg_list();
            let enc = rec_enc(rec@);
            assert(segs2[li as int].data =~= old_segs.last().data + enc);
            assert(segs2[li as int].data.subrange(pos as int, pos + n) =~= enc);
            assert(enc.subrange(0, enc.len() as int) =~= enc);
            crate::codec::lemma_dec_enc(enc, 0, rec@);
            assert(entry_in_seg(self.index@.last(), segs2, li as int));
            assert forall|j: int|
                0 <= j < self.index@.len() implies entry_wf(
                #[trigger] self.index@[j],
                segs2,
            ) by {
                if j < self.index@.len() - 1 {
                    assert(self.index@[j] == pre_seq[j]);
                }
            }
            assert(entries_unique(self.index@)) by {
                assert(forall|j: int| 0 <= j < pre_seq.len() ==> self.index@[j] == pre_seq[j]);
            }
            assert(forall|x: int|
                0 <= x < self.segments@.len() ==> self.segments@[x].gen == old(
                    self,
                ).segments@[x].gen);
            assert(replay_segs(segs2) == entries_map(self.index@)) by {
                assert(replay_step(replay_segs(old_segs), rec@) == entries_map(
                    pre_seq,
                ).insert(key@, value@)) by {
                    assert(replay_segs(old_segs) == mid_map);
                    assert(entries_map(pre_seq).insert(k2@, v2@) =~= mid_map.insert(key@, value@));
                }
            }
        }
        if self.uncompacted > COMPACTION_THRESHOLD {
            self.compact();
        }
    }

    fn get(&self, key: &Vec<u8>) -> (r: Option<Vec<u8>>) {
        proof {
            lemma_entries_map_index(self.index@);
        }
        match index_find(&self.index, key) {
            None => {
                proof {
                    if self.model().dom().contains(key@) {
                        let i = choose|i: int|
                            0 <= i < self.index@.len() && self.index@[i].key@ == key@;
                        assert(false);
                    }
                }
                None
            },
            Some(i) => {
                let e_gen = self.index[i].gen;
                let e_pos = self.index[i].pos;
                let e_len = self.index[i].len;
                let ghost e = self.index@[i as int];
                proof {
                    assert(entry_wf(e, self.seg_list()));
                }
                let ghost tsi = choose|si: int| entry_in_seg(e, self.seg_list(), si);
                let ns = self.segments.len();
                let mut si: usize = 0;
                while si < ns
                    invariant
                        self.inv(),
                        ns == self.segments@.len(),
                        si <= ns,
                        i < self.index@.len(),
                        e == self.index@[i as int],
                        e.gen == e_gen && e.pos == e_pos && e.len == e_len,
                        e.key@ == key@,
                        entry_in_seg(e, self.seg_list(), tsi),
                        forall|j: int| 0 <= j < si ==> self.segments@[j].gen != e_gen,
                    decreases ns - si,
                {
                    if self.segments[si].gen == e_gen {
                        proof {
                            if si as int != tsi {
                                assert(self.seg_list()[tsi].gen == self.segments@[tsi].gen);
                                assert(self.segments@[si as int].gen
                                    != self.segments@[tsi].gen);
                            }
                        }
                        proof {
                            assert(si as int == tsi);
                            assert(self.seg_list()[tsi] == self.segments@[tsi]@);
                        }
                        let slice = copy_range(&self.segments[si].data, e_pos, e_len);
                        let rr = record_read_at(&slice, 0);
                        proof {
                            assert(slice@ =~= self.seg_list()[tsi].data.subrange(
                                e.pos as int,
                                e.pos + e.len,
                            ));
                        }
                        match rr {
                            Some((Record::Put { key: rk, value: rv }, _n)) => {
                                proof {
                                    lemma_entries_map_index(self.index@);
                                    assert(rv@ == e.val@);
                                    assert(self.index@[i as int].key@ == key@);
                                    assert(entries_map(self.index@).dom().contains(
                                        self.index@[i as int].key@,
                                    ));
                                    assert(entries_map(self.index@)[self.index@[i as int].key@]
                                        == self.index@[i as int].val@);
                                    assert(self.model()[key@] == e.val@);
                                }
                                return Some(rv);
                            },
                            _ => {
                                proof {
                                    assert(false);
                                }
                                return None;
                            },
                        }
                    }
                    si = si + 1;
                }
                proof {
                    assert(self.seg_list()[tsi].gen == self.segments@[tsi].gen);
                    assert(false);
                }
                None
            },
        }
    }

    #[verifier::rlimit(50)]
    fn remove(&mut self, key: &Vec<u8>) -> (r: Result<(), KvError>) {
        proof {
            lemma_entries_map_index(self.index@);
        }
        match index_find(&self.index, key) {
            None => {
                proof {
                    if self.model().dom().contains(key@) {
                        let i = choose|i: int|
                            0 <= i < self.index@.len() && self.index@[i].key@ == key@;
                        assert(false);
                    }
                }
                Err(KvError::KeyNotFound)
            },
            Some(i) => {
                let k2 = crate::bytes_clone(key);
                let rec = Record::Remove { key: k2 };
                let li = self.segments.len() - 1;
                let ghost old_segs = self.seg_list();
                let seg = &mut self.segments[li];
                let n = record_append(&mut seg.data, &rec);
                proof {
                    assert(rec_wf(rec@));
                    assert(self.seg_list() =~= old_segs.update(
                        li as int,
                        SegModel {
                            gen: old_segs.last().gen,
                            data: old_segs.last().data + rec_enc(rec@),
                        },
                    ));
                    lemma_store_append(old_segs, self.seg_list(), rec@);
                    assert forall|j: int|
                        0 <= j < self.index@.len() implies entry_wf(
                        #[trigger] self.index@[j],
                        self.seg_list(),
                    ) by {
                        assert(entry_wf(self.index@[j], old_segs));
                    }
                }
                let old_len = self.index[i].len as u64;
                self.uncompacted = sat_add_u64(self.uncompacted, old_len);
                self.uncompacted = sat_add_u64(self.uncompacted, n as u64);
                proof {
                    lemma_entries_map_remove(self.index@, i as int);
                }
                let _old_entry = self.index.remove(i);
                Ok(())
            },
        }
    }

    fn range_last(&self, lo: &Vec<u8>, hi: &Vec<u8>) -> (r: Option<(Vec<u8>, Vec<u8>)>) {
        proof {
            lemma_entries_map_index(self.index@);
        }
        let n = self.index.len();
        let mut best: Option<usize> = None;
        let mut i: usize = 0;
        while i < n
            invariant
                self.inv(),
                n == self.index@.len(),
                i <= n,
                match best {
                    Some(b) => b < i && lex_le(lo@, self.index@[b as int].key@) && lex_le(
                        self.index@[b as int].key@,
                        hi@,
                    ) && forall|j: int|
                        0 <= j < i && lex_le(lo@, #[trigger] self.index@[j].key@) && lex_le(
                            self.index@[j].key@,
                            hi@,
                        ) ==> lex_le(self.index@[j].key@, self.index@[b as int].key@),
                    None => forall|j: int|
                        0 <= j < i ==> !(lex_le(lo@, #[trigger] self.index@[j].key@) && lex_le(
                            self.index@[j].key@,
                            hi@,
                        )),
                },
            decreases n - i,
        {
            if bytes_le(lo, &self.index[i].key) && bytes_le(&self.index[i].key, hi) {
                match best {
                    None => {
                        best = Some(i);
                    },
                    Some(b) => {
                        if bytes_le(&self.index[b].key, &self.index[i].key) {
                            proof {
                                assert forall|j: int|
                                    0 <= j < i + 1 && lex_le(
                                        lo@,
                                        #[trigger] self.index@[j].key@,
                                    ) && lex_le(self.index@[j].key@, hi@) implies lex_le(
                                    self.index@[j].key@,
                                    self.index@[i as int].key@,
                                ) by {
                                    if j < i {
                                        lemma_lex_le_trans(
                                            self.index@[j].key@,
                                            self.index@[b as int].key@,
                                            self.index@[i as int].key@,
                                        );
                                    }
                                }
                            }
                            best = Some(i);
                        } else {
                            proof {
                                let bk = self.index@[b as int].key@;
                                let ik = self.index@[i as int].key@;
                                lemma_lex_total(bk, ik);
                                lemma_lex_asym(ik, bk);
                            }
                        }
                    },
                }
            }
            i = i + 1;
        }
        match best {
            None => {
                proof {
                    assert forall|k2: Seq<u8>| self.model().dom().contains(k2) implies !(lex_le(
                        lo@,
                        k2,
                    ) && lex_le(k2, hi@)) by {
                        let j = choose|j: int|
                            0 <= j < self.index@.len() && self.index@[j].key@ == k2;
                    }
                }
                None
            },
            Some(b) => {
                let k = crate::bytes_clone(&self.index[b].key);
                let v = crate::bytes_clone(&self.index[b].val);
                proof {
                    assert forall|k2: Seq<u8>|
                        self.model().dom().contains(k2) && lex_le(lo@, k2) && lex_le(
                            k2,
                            hi@,
                        ) implies lex_le(k2, k@) by {
                        let j = choose|j: int|
                            0 <= j < self.index@.len() && self.index@[j].key@ == k2;
                    }
                }
                Some((k, v))
            },
        }
    }

    fn range_erase(&mut self, lo: &Vec<u8>, hi: &Vec<u8>) {
        proof {
            lemma_entries_map_finite(self.index@);
        }
        let mut cont = index_find_in_range(&self.index, lo, hi);
        while cont.is_some()
            invariant
                self.inv(),
                forall|k: Seq<u8>| #[trigger]
                    self.model().dom().contains(k) ==> old(self).model().dom().contains(k)
                        && self.model()[k] == old(self).model()[k],
                forall|k: Seq<u8>|
                    old(self).model().dom().contains(k) && !(lex_le(lo@, k) && lex_le(k, hi@))
                        ==> #[trigger] self.model().dom().contains(k),
                self.model().dom().finite(),
                match cont {
                    Some(i) => i < self.index@.len() && lex_le(
                        lo@,
                        self.index@[i as int].key@,
                    ) && lex_le(self.index@[i as int].key@, hi@),
                    None => forall|j: int|
                        0 <= j < self.index@.len() ==> !(lex_le(
                            lo@,
                            #[trigger] self.index@[j].key@,
                        ) && lex_le(self.index@[j].key@, hi@)),
                },
            decreases self.model().dom().len() + (if cont is Some {
                1int
            } else {
                0int
            }),
        {
            let i = match cont {
                Some(i) => i,
                None => {
                    proof {
                        assert(false);
                    }
                    0
                },
            };
            let k = crate::bytes_clone(&self.index[i].key);
            proof {
                lemma_entries_map_index(self.index@);
                assert(self.model().dom().contains(k@));
            }
            let ghost prev_dom = self.model().dom();
            let res = self.remove(&k);
            proof {
                match res {
                    Ok(()) => {},
                    Err(_) => {
                        assert(false);
                    },
                }
                assert(self.model().dom() =~= prev_dom.remove(k@));
                vstd::set::axiom_set_remove_len(prev_dom, k@);
            }
            cont = index_find_in_range(&self.index, lo, hi);
        }
        proof {
            lemma_entries_map_index(self.index@);
            assert forall|k: Seq<u8>|
                old(self).model().dom().contains(k) && !(lex_le(lo@, k) && lex_le(
                    k,
                    hi@,
                )) implies #[trigger] self.model().dom().contains(k) by {}
            assert forall|k: Seq<u8>| #[trigger]
                self.model().dom().contains(k) implies !(lex_le(lo@, k) && lex_le(k, hi@)) by {
                let j = choose|j: int| 0 <= j < self.index@.len() && self.index@[j].key@ == k;
            }
        }
    }

    fn export(&self) -> (r: (Vec<Vec<u8>>, Vec<Vec<u8>>)) {
        let n = self.index.len();
        let mut ks: Vec<Vec<u8>> = Vec::new();
        let mut vs: Vec<Vec<u8>> = Vec::new();
        let mut i: usize = 0;
        while i < n
            invariant
                self.inv(),
                n == self.index@.len(),
                i <= n,
                ks@.len() == i && vs@.len() == i,
                pairs_map(ks@, vs@) == entries_map(self.index@.subrange(0, i as int)),
            decreases n - i,
        {
            let ghost ks0 = ks@;
            let ghost vs0 = vs@;
            ks.push(crate::bytes_clone(&self.index[i].key));
            vs.push(crate::bytes_clone(&self.index[i].val));
            proof {
                assert(ks@.drop_last() =~= ks0);
                assert(vs@.drop_last() =~= vs0);
                assert(self.index@.subrange(0, (i + 1) as int).drop_last() =~= self.index@.subrange(
                    0,
                    i as int,
                ));
                assert(self.index@.subrange(0, (i + 1) as int).last() == self.index@[i as int]);
                assert(pairs_map(ks@, vs@) == pairs_map(ks0, vs0).insert(
                    ks@.last()@,
                    vs@.last()@,
                ));
            }
            i = i + 1;
        }
        proof {
            assert(self.index@.subrange(0, n as int) =~= self.index@);
        }
        (ks, vs)
    }

    #[verifier::rlimit(50)]
    fn import(&mut self, keys: Vec<Vec<u8>>, vals: Vec<Vec<u8>>) {
        let last_gen = self.segments[self.segments.len() - 1].gen;
        let ngen = if last_gen < u64::MAX {
            last_gen + 1
        } else {
            1
        };
        let mut nsegs: Vec<Segment> = Vec::new();
        nsegs.push(Segment { gen: ngen, data: Vec::new() });
        self.segments = nsegs;
        self.index = Vec::new();
        self.uncompacted = 0;
        proof {
            let sl = self.seg_list();
            assert(sl.len() == 1);
            assert(sl.last().data =~= Seq::<u8>::empty());
            assert(sl.drop_last() =~= Seq::<SegModel>::empty());
            assert(replay_segs(sl.drop_last()) == Map::<Seq<u8>, Seq<u8>>::empty());
            assert(rec_dec_at(sl.last().data, 0) is None);
            assert(replay_from(sl.last().data, 0, Map::<Seq<u8>, Seq<u8>>::empty())
                == Map::<Seq<u8>, Seq<u8>>::empty());
            assert(replay_segs(sl) == Map::<Seq<u8>, Seq<u8>>::empty());
            assert(stream_end(sl.last().data, 0) == 0);
            assert(seg_clean(sl.last().data));
            assert(self.index@ =~= Seq::<IndexEntry>::empty());
            assert(entries_map(self.index@) == Map::<Seq<u8>, Seq<u8>>::empty());
        }
        let n = keys.len();
        let mut i: usize = 0;
        while i < n
            invariant
                self.inv(),
                n == keys@.len(),
                keys@.len() == vals@.len(),
                i <= n,
                self.model() == pairs_map(keys@.subrange(0, i as int), vals@.subrange(0, i as int)),
            decreases n - i,
        {
            let k = crate::bytes_clone(&keys[i]);
            let v = crate::bytes_clone(&vals[i]);
            self.set(k, v);
            proof {
                assert(keys@.subrange(0, (i + 1) as int).drop_last() =~= keys@.subrange(
                    0,
                    i as int,
                ));
                assert(vals@.subrange(0, (i + 1) as int).drop_last() =~= vals@.subrange(
                    0,
                    i as int,
                ));
            }
            i = i + 1;
        }
        proof {
            assert(keys@.subrange(0, n as int) =~= keys@);
            assert(vals@.subrange(0, n as int) =~= vals@);
        }
    }
}

} // verus!

verus! {

impl KvStore {
    /// Build the store from the segments found on disk, oldest generation
    /// first, replaying each to rebuild the index; a fresh segment one past
    /// the newest generation becomes the active writer.
    #[verifier::rlimit(100)]
    pub fn open(segments: Vec<Segment>) -> (store: KvStore)
        requires
            forall|i: int, j: int|
                0 <= i < j < segments@.len() ==> segments@[i].gen < segments@[j].gen,
            segments@.len() > 0 ==> segments@.last().gen < u64::MAX,
        ensures
            store.inv(),
            store.model() == replay_segs(seg_models(segments@)),
            store.seg_list().len() == segments@.len() + 1,
            store.seg_list().subrange(0, segments@.len() as int) == seg_models(segments@),
            store.seg_list().last().gen as int == if segments@.len() == 0 {
                1int
            } else {
                segments@.last().gen + 1
            },
            store.seg_list().last().data.len() == 0,
    {
        let mut segs = segments;
        let n_old = segs.len();
        let next_gen: u64 = if n_old == 0 {
            1
        } else {
            segs[n_old - 1].gen + 1
        };
        let ghost input_models = seg_models(segs@);
        segs.push(Segment { gen: next_gen, data: Vec::new() });
        proof {
            assert(seg_models(segs@).drop_last() =~= input_models);
            assert(seg_models(segs@).last().data =~= Seq::<u8>::empty());
            assert(replay_segs(seg_models(segs@)) == replay_segs(input_models));
        }
        let mut index: Vec<IndexEntry> = Vec::new();
        let mut uncompacted: u64 = 0;
        let mut si: usize = 0;
        while si < n_old
            invariant
                n_old + 1 == segs@.len(),
                forall|i: int, j: int| 0 <= i < j < segs@.len() ==> segs@[i].gen < segs@[j].gen,
                si <= n_old,
                entries_unique(index@),
                forall|i: int|
                    0 <= i < index@.len() ==> entry_wf(#[trigger] index@[i], seg_models(segs@)),
                entries_map(index@) == replay_segs(seg_models(segs@).subrange(0, si as int)),
            decreases n_old - si,
        {
            let ghost prev_map = entries_map(index@);
            let ghost d_model = segs@[si as int].data@;
            let mut pos: usize = 0;
            let mut cur = record_read_at(&segs[si].data, pos);
            proof {
                assert(seg_models(segs@).subrange(0, (si + 1) as int).drop_last()
                    =~= seg_models(segs@).subrange(0, si as int));
                assert(seg_models(segs@).subrange(0, (si + 1) as int).last().data == d_model);
            }
            while cur.is_some()
                invariant
                    n_old + 1 == segs@.len(),
                    si < n_old,
                    forall|i: int, j: int| 0 <= i < j < segs@.len() ==> segs@[i].gen < segs@[j].gen,
                    d_model == segs@[si as int].data@,
                    pos <= d_model.len(),
                    entries_unique(index@),
                    forall|i: int|
                        0 <= i < index@.len() ==> entry_wf(#[trigger] index@[i], seg_models(segs@)),
                    replay_from(d_model, pos as int, entries_map(index@)) == replay_from(
                        d_model,
                        0,
                        prev_map,
                    ),
                    match cur {
                        Some((rec, n)) => rec_dec_at(d_model, pos as int) == Some(
                            (rec@, n as int),
                        ),
                        None => rec_dec_at(d_model, pos as int) is None,
                    },
                decreases d_model.len() - pos,
            {
                let (rec, n) = match cur {
                    Some(p) => p,
                    None => {
                        proof {
                            assert(false);
                        }
                        (Record::Remove { key: Vec::new() }, 0)
                    },
                };
                proof {
                    crate::codec::lemma_dec_bounds(d_model, pos as int);
                    crate::codec::lemma_dec_slice(d_model, pos as int, rec@, n as int);
                    lemma_entries_map_index(index@);
                }
                let ghost pre_map = entries_map(index@);
                match &rec {
                    Record::Put { key, value } => {
                        match index_find(&index, key) {
                            Some(i) => {
                                let old_len = index[i].len as u64;
                                uncompacted = sat_add_u64(uncompacted, old_len);
                                proof {
                                    lemma_entries_map_remove(index@, i as int);
                                }
                                let _e = index.remove(i);
                                proof {
                                    lemma_entries_map_index(index@);
                                    assert forall|j: int|
                                        0 <= j < index@.len() implies index@[j].key@ != key@ by {
                                        if index@[j].key@ == key@ {
                                            assert(entries_map(index@).dom().contains(key@));
                                            assert(!pre_map.remove(key@).dom().contains(key@));
                                        }
                                    }
                                }
                            },
                            None => {},
                        }
                        let ghost pre_seq = index@;
                        let e = IndexEntry {
                            key: crate::bytes_clone(key),
                            val: crate::bytes_clone(value),
                            gen: segs[si].gen,
                            pos,
                            len: n - pos,
                        };
                        index.push(e);
                        proof {
                            assert(index@.drop_last() =~= pre_seq);
                            assert(entries_map(index@) == entries_map(pre_seq).insert(
                                key@,
                                value@,
                            ));
                            assert(entries_map(index@) =~= replay_step(pre_map, rec@));
                            assert(entries_unique(index@)) by {
                                assert(forall|j: int|
                                    0 <= j < pre_seq.len() ==> index@[j] == pre_seq[j]);
                            }
                            assert(entry_in_seg(index@.last(), seg_models(segs@), si as int));
                            assert forall|j: int|
                                0 <= j < index@.len() implies entry_wf(
                                #[trigger] index@[j],
                                seg_models(segs@),
                            ) by {
                                if j < index@.len() - 1 {
                                    assert(index@[j] == pre_seq[j]);
                                }
                            }
                        }
                    },
                    Record::Remove { key } => {
                        match index_find(&index, key) {
                            Some(i) => {
                                let old_len = index[i].len as u64;
                                uncompacted = sat_add_u64(uncompacted, old_len);
                                uncompacted = sat_add_u64(uncompacted, (n - pos) as u64);
                                proof {
                                    lemma_entries_map_remove(index@, i as int);
                                }
                                let _e = index.remove(i);
                                proof {
                                    assert(entries_map(index@) =~= replay_step(pre_map, rec@));
                                }
                            },
                            None => {
                                proof {
                                    if pre_map.dom().contains(key@) {
                                        let j = choose|j: int|
                                            0 <= j < index@.len() && index@[j].key@ == key@;
                                        assert(false);
                                    }
                                    assert(entries_map(index@) =~= replay_step(pre_map, rec@));
                                }
                            },
                        }
                    },
                }
                proof {
                    assert(replay_from(d_model, pos as int, pre_map) == replay_from(
                        d_model,
                        n as int,
                        replay_step(pre_map, rec@),
                    ));
                }
                pos = n;
                cur = record_read_at(&segs[si].data, pos);
            }
            proof {
                assert(replay_from(d_model, pos as int, entries_map(index@)) == entries_map(
                    index@,
                ));
                assert(entries_map(index@) == replay_segs(
                    seg_models(segs@).subrange(0, (si + 1) as int),
                ));
            }
            si = si + 1;
        }
        let store = KvStore { segments: segs, index, uncompacted };
        proof {
            assert(store.seg_list().subrange(0, n_old as int) =~= store.seg_list().drop_last());
            assert(store.seg_list().last().data =~= Seq::<u8>::empty());
            assert(rec_dec_at(store.seg_list().last().data, 0) is None);
            assert(seg_clean(store.seg_list().last().data));
            assert(replay_segs(store.seg_list()) == entries_map(store.index@));
            assert(replay_segs(seg_models(segments@)) == replay_segs(
                store.seg_list().drop_last(),
            )) by {
                assert(store.seg_list().drop_last() =~= seg_models(segments@));
            }
            assert(store.seg_list().subrange(0, segments@.len() as int) =~= seg_models(
                segments@,
            ));
        }
        store
    }

    /// Rewrite every live record into a fresh segment and drop the old
    /// segments; the observable map does not change.
    #[verifier::rlimit(100)]
    pub fn compact(&mut self)
        requires
            old(self).inv(),
        ensures
            final(self).inv(),
            final(self).model() == old(self).model(),
            old(self).seg_list().last().gen <= u64::MAX - 2 ==> final(self).seg_list().len() == 2
                && final(self).seg_list()[0].gen == old(self).seg_list().last().gen + 1
                && final(self).seg_list()[1].gen == old(self).seg_list().last().gen + 2
                && final(self).seg_list()[1].data.len() == 0,
            old(self).seg_list().last().gen > u64::MAX - 2 ==> *final(self) == *old(self),
    {
        let last_gen = self.segments[self.segments.len() - 1].gen;
        proof {
            assert(last_gen == self.seg_list().last().gen);
        }
        if last_gen > u64::MAX - 2 {
            // no generation numbers left to mint; leave the store as it is
            return;
        }
        let cgen = last_gen + 1;
        let mut data: Vec<u8> = Vec::new();
        let mut nindex: Vec<IndexEntry> = Vec::new();
        let n = self.index.len();
        let mut i: usize = 0;
        proof {
            assert(rec_dec_at(Seq::<u8>::empty(), 0) is None);
        }
        while i < n
            invariant
                self.inv(),
                n == self.index@.len(),
                i <= n,
                cgen < u64::MAX,
                entries_unique(nindex@),
                nindex@.len() == i,
                entries_map(nindex@) == entries_map(self.index@.subrange(0, i as int)),
                stream_end(data@, 0) == data@.len(),
                replay_from(data@, 0, Map::<Seq<u8>, Seq<u8>>::empty()) == entries_map(nindex@),
                forall|j: int|
                    0 <= j < nindex@.len() ==> (#[trigger] nindex@[j]).gen == cgen
                        && nindex@[j].pos + nindex@[j].len <= data@.len() && rec_dec_at(
                        data@.subrange(nindex@[j].pos as int, nindex@[j].pos + nindex@[j].len),
                        0,
                    ) == Some(
                        (
                            RecModel::Put { key: nindex@[j].key@, value: nindex@[j].val@ },
                            nindex@[j].len as int,
                        ),
                    ),
                forall|j: int, k: int|
                    0 <= j < i && 0 <= k < j ==> self.index@[k].key@ != self.index@[j].key@,
            decreases n - i,
        {
            let k1 = crate::bytes_clone(&self.index[i].key);
            let v1 = crate::bytes_clone(&self.index[i].val);
            let k2 = crate::bytes_clone(&self.index[i].key);
            let v2 = crate::bytes_clone(&self.index[i].val);
            let pos = data.len();
            let ghost data0 = data@;
            let rec = Record::Put { key: k1, value: v1 };
            let n2 = record_append(&mut data, &rec);
            proof {
                assert(rec_wf(rec@));
                lemma_replay_from_append(data0, rec@, 0, Map::<Seq<u8>, Seq<u8>>::empty());
            }
            let ghost pre_seq = nindex@;
            let e = IndexEntry { key: k2, val: v2, gen: cgen, pos, len: n2 };
            nindex.push(e);
            proof {
                let enc = rec_enc(rec@);
                assert(data@ =~= data0 + enc);
                assert(nindex@.drop_last() =~= pre_seq);
                assert(entries_map(nindex@) == entries_map(pre_seq).insert(
                    self.index@[i as int].key@,
                    self.index@[i as int].val@,
                ));
                assert(self.index@.subrange(0, (i + 1) as int).drop_last() =~= self.index@.subrange(
                    0,
                    i as int,
                ));
                assert(entries_map(nindex@) == entries_map(
                    self.index@.subrange(0, (i + 1) as int),
                ));
                assert(entries_unique(nindex@)) by {
                    lemma_entries_map_index(pre_seq);
                    assert(forall|j: int| 0 <= j < pre_seq.len() ==> nindex@[j] == pre_seq[j]);
                    assert forall|j: int| 0 <= j < pre_seq.len() implies pre_seq[j].key@
                        != e.key@ by {
                        if pre_seq[j].key@ == e.key@ {
                            assert(entries_map(pre_seq).dom().contains(e.key@));
                            lemma_entries_map_index(self.index@.subrange(0, i as int));
                            let x = choose|x: int|
                                0 <= x < i && self.index@.subrange(0, i as int)[x].key@ == e.key@;
                            assert(self.index@[x].key@ == self.index@[i as int].key@);
                        }
                    }
                }
                // the new record decodes from its slice
                assert(data@.subrange(pos as int, pos + n2) =~= enc);
                assert(enc.subrange(0, enc.len() as int) =~= enc);
                crate::codec::lemma_dec_enc(enc, 0, rec@);
                // older slices are unchanged
                assert forall|j: int|
                    0 <= j < pre_seq.len() implies rec_dec_at(
                    data@.subrange(pre_seq[j].pos as int, pre_seq[j].pos + pre_seq[j].len),
                    0,
                ) == Some(
                    (
                        RecModel::Put { key: pre_seq[j].key@, value: pre_seq[j].val@ },
                        pre_seq[j].len as int,
                    ),
                ) by {
                    assert(nindex@[j] == pre_seq[j]);
                    assert(data@.subrange(pre_seq[j].pos as int, pre_seq[j].pos + pre_seq[j].len)
                        =~= data0.subrange(pre_seq[j].pos as int, pre_seq[j].pos + pre_seq[j].len));
                }
            }
            i = i + 1;
        }
        let mut nsegs: Vec<Segment> = Vec::new();
        nsegs.push(Segment { gen: cgen, data });
        nsegs.push(Segment { gen: cgen + 1, data: Vec::new() });
        let ghost old_model = entries_map(self.index@);
        self.segments = nsegs;
        self.index = nindex;
        self.uncompacted = 0;
        proof {
            assert(old(self).index@.subrange(0, n as int) =~= old(self).index@);
            assert(entries_map(self.index@) == entries_map(
                old(self).index@.subrange(0, n as int),
            ));
            assert(entries_map(self.index@) == old_model);
            let sl = self.seg_list();
            assert(sl.len() == 2);
            assert(sl[1].data =~= Seq::<u8>::empty());
            assert(rec_dec_at(sl[1].data, 0) is None);
            assert(sl.last() == sl[1]);
            assert(seg_clean(sl.last().data));
            assert(sl.drop_last().drop_last() =~= Seq::<SegModel>::empty());
            assert(replay_segs(sl.drop_last().drop_last()) == Map::<Seq<u8>, Seq<u8>>::empty());
            assert(replay_segs(sl.drop_last()) == replay_from(
                sl.drop_last().last().data,
                0,
                Map::<Seq<u8>, Seq<u8>>::empty(),
            ));
            assert(sl.drop_last().last() == sl[0]);
            assert(replay_segs(sl) == replay_segs(sl.drop_last()));
            assert(replay_segs(sl) == entries_map(self.index@));
            assert forall|j: int|
                0 <= j < self.index@.len() implies entry_wf(#[trigger] self.index@[j], sl) by {
                assert(entry_in_seg(self.index@[j], sl, 0));
            }
        }
    }
}

} // verus!

verus! {

impl KvStore {
    /// Give up the store and hand back its segments, for the caller to
    /// persist; reopening them yields the same observable map.
    pub fn into_segments(self) -> (r: Vec<Segment>)
        requires
            self.inv(),
        ensures
            replay_segs(seg_models(r@)) == self.model(),
            r@.len() >= 1,
            forall|i: int, j: int| 0 <= i < j < r@.len() ==> r@[i].gen < r@[j].gen,
    {
        self.segments
    }
}

} // verus!
