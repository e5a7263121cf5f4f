//! The multi-version column store: three storage engines (Data, Lock,
//! Write), each keyed by a `(user_key, ts)` pair encoded into one byte
//! string so that, for one user key, the engine's range scans walk the
//! timestamps in ascending order.
//!
//! The encoding is the key's length as 8 bytes big-endian, the key bytes,
//! then the timestamp as 8 bytes big-endian. The length prefix keeps keys
//! of one user key's interval apart from every other key, whatever bytes
//! (a dash included) the keys hold.

use vstd::prelude::*;

use crate::codec::{u64_be, be_val8, u64_write_be, u64_read_be, lemma_be_roundtrip, lemma_be_inj,
    lemma_be_order, copy_range};
use crate::order::{lex_le, lex_lt, lemma_lex_concat, lemma_lex_asym, lemma_lex_total};
use crate::engine::KvsEngine;
use crate::common::{WriteOp, op_byte};

verus! {

/// The engine key that holds user key `k` at timestamp `ts`.
pub open spec fn enc_pk(k: Seq<u8>, ts: u64) -> Seq<u8> {
    u64_be(k.len() as u64) + k + u64_be(ts)
}

/// Some user key and timestamp encode to `ek`.
pub open spec fn is_enc_key(ek: Seq<u8>) -> bool {
    exists|k: Seq<u8>, t: u64| k.len() <= u64::MAX && ek == enc_pk(k, t)
}

/// Numeric order on 64-bit integers is lexicographic order on their
/// big-endian bytes, in both directions.
pub proof fn lemma_be_lt_iff(x: u64, y: u64)
    ensures
        lex_lt(u64_be(x), u64_be(y)) <==> x < y,
{
    if x < y {
        lemma_be_order(x, y);
    }
    if lex_lt(u64_be(x), u64_be(y)) {
        if x == y {
            lemma_lex_asym(u64_be(x), u64_be(y));
        }
        if x > y {
            lemma_be_order(y, x);
            lemma_lex_asym(u64_be(y), u64_be(x));
        }
    }
}

/// The encoding is injective.
pub proof fn lemma_enc_inj(k1: Seq<u8>, t1: u64, k2: Seq<u8>, t2: u64)
    requires
        k1.len() <= u64::MAX,
        k2.len() <= u64::MAX,
        enc_pk(k1, t1) == enc_pk(k2, t2),
    ensures
        k1 == k2,
        t1 == t2,
{
    let e1 = enc_pk(k1, t1);
    let e2 = enc_pk(k2, t2);
    assert(e1.subrange(0, 8) =~= u64_be(k1.len() as u64));
    assert(e2.subrange(0, 8) =~= u64_be(k2.len() as u64));
    lemma_be_inj(k1.len() as u64, k2.len() as u64);
    assert(k1.len() == k2.len());
    let n = k1.len() as int;
    assert(e1.subrange(8, 8 + n) =~= k1);
    assert(e2.subrange(8, 8 + n) =~= k2);
    assert(k1 == k2);
    assert(e1.subrange(8 + n, 8 + n + 8) =~= u64_be(t1));
    assert(e2.subrange(8 + n, 8 + n + 8) =~= u64_be(t2));
    lemma_be_inj(t1, t2);
}

/// For one user key, the encoded order is the timestamp order.
pub proof fn lemma_enc_key_order(k: Seq<u8>, t1: u64, t2: u64)
    ensures
        lex_le(enc_pk(k, t1), enc_pk(k, t2)) <==> t1 <= t2,
{
    let a = u64_be(k.len() as u64) + k;
    assert(enc_pk(k, t1) =~= a + u64_be(t1));
    assert(enc_pk(k, t2) =~= a + u64_be(t2));
    lemma_lex_concat(a, a, u64_be(t1), u64_be(t2));
    lemma_lex_asym(a, a);
    lemma_be_lt_iff(t1, t2);
    lemma_be_inj(t1, t2);
    if t1 == t2 {
        assert(enc_pk(k, t1) == enc_pk(k, t2));
    }
    if lex_le(enc_pk(k, t1), enc_pk(k, t2)) && t1 > t2 {
        lemma_be_lt_iff(t2, t1);
        if enc_pk(k, t1) == enc_pk(k, t2) {
            assert(u64_be(t1) =~= (a + u64_be(t1)).subrange(a.len() as int, a.len() as int + 8));
            assert(u64_be(t2) =~= (a + u64_be(t2)).subrange(a.len() as int, a.len() as int + 8));
        }
    }
}

/// An encoded key lying between two encodings of user key `k` carries `k`
/// itself, at a timestamp within the bounds.
pub proof fn lemma_enc_between(k: Seq<u8>, lo: u64, hi: u64, k2: Seq<u8>, t2: u64)
    requires
        k.len() <= u64::MAX,
        k2.len() <= u64::MAX,
        lex_le(enc_pk(k, lo), enc_pk(k2, t2)),
        lex_le(enc_pk(k2, t2), enc_pk(k, hi)),
    ensures
        k2 == k,
        lo <= t2 <= hi,
{
    let l1 = u64_be(k.len() as u64);
    let l2 = u64_be(k2.len() as u64);
    assert(enc_pk(k, lo) =~= l1 + (k + u64_be(lo)));
    assert(enc_pk(k, hi) =~= l1 + (k + u64_be(hi)));
    assert(enc_pk(k2, t2) =~= l2 + (k2 + u64_be(t2)));
    if k.len() != k2.len() {
        lemma_be_inj(k.len() as u64, k2.len() as u64);
        lemma_lex_concat(l1, l2, k + u64_be(lo), k2 + u64_be(t2));
        lemma_lex_concat(l2, l1, k2 + u64_be(t2), k + u64_be(hi));
        // each direction forces a strict length order; together impossible
        if lex_lt(l1, l2) {
            lemma_be_lt_iff(k.len() as u64, k2.len() as u64);
        }
        if lex_lt(l2, l1) {
            lemma_be_lt_iff(k2.len() as u64, k.len() as u64);
        }
        if enc_pk(k, lo) == enc_pk(k2, t2) {
            lemma_enc_inj(k, lo, k2, t2);
        }
        if enc_pk(k2, t2) == enc_pk(k, hi) {
            lemma_enc_inj(k2, t2, k, hi);
        }
        lemma_lex_asym(l1, l2);
        lemma_lex_asym(l2, l1);
        assert(false);
    }
    // equal lengths: compare the key bytes next
    let a1 = l1 + k;
    let a2 = l2 + k2;
    assert(enc_pk(k, lo) =~= a1 + u64_be(lo));
    assert(enc_pk(k, hi) =~= a1 + u64_be(hi));
    assert(enc_pk(k2, t2) =~= a2 + u64_be(t2));
    lemma_lex_concat(a1, a2, u64_be(lo), u64_be(t2));
    lemma_lex_concat(a2, a1, u64_be(t2), u64_be(hi));
    if a1 != a2 {
        if enc_pk(k, lo) == enc_pk(k2, t2) {
            lemma_enc_inj(k, lo, k2, t2);
            assert(a1 =~= a2);
        }
        if enc_pk(k2, t2) == enc_pk(k, hi) {
            lemma_enc_inj(k2, t2, k, hi);
            assert(a1 =~= a2);
        }
        assert(lex_lt(a1, a2));
        assert(lex_lt(a2, a1));
        lemma_lex_asym(a1, a2);
        assert(false);
    }
    assert(k2 =~= a2.subrange(8, a2.len() as int));
    assert(k =~= a1.subrange(8, a1.len() as int));
    assert(k2 == k);
    lemma_enc_key_order(k, lo, t2);
    lemma_enc_key_order(k, t2, hi);
    assert(enc_pk(k2, t2) == enc_pk(k, t2));
}

/// Build the engine key for `(key, ts)`.
pub fn encode_key(key: &Vec<u8>, ts: u64) -> (r: Vec<u8>)
    ensures
        r@ == enc_pk(key@, ts),
{
    let mut out: Vec<u8> = Vec::new();
    u64_write_be(&mut out, key.len() as u64);
    crate::codec::append_bytes(&mut out, key);
    u64_write_be(&mut out, ts);
    proof {
        assert(out@ =~= enc_pk(key@, ts));
    }
    out
}

/// Read the timestamp back out of an encoded key.
pub fn decode_key_ts(ek: &Vec<u8>) -> (r: u64)
    requires
        ek@.len() >= 8,
    ensures
        r == be_val8(ek@.subrange(ek@.len() - 8, ek@.len() as int)),
{
    let n = ek.len();
    u64_read_be(ek, n - 8)
}

/// The timestamp a valid encoded key carries is its last 8 bytes.
pub proof fn lemma_enc_ts_suffix(k: Seq<u8>, t: u64)
    ensures
        enc_pk(k, t).len() == 16 + k.len(),
        enc_pk(k, t).subrange(enc_pk(k, t).len() - 8, enc_pk(k, t).len() as int) =~= u64_be(t),
        be_val8(enc_pk(k, t).subrange(enc_pk(k, t).len() - 8, enc_pk(k, t).len() as int)) == t,
{
    assert(enc_pk(k, t).subrange(enc_pk(k, t).len() - 8, enc_pk(k, t).len() as int) =~= u64_be(t));
    lemma_be_roundtrip(t);
}

} // verus!

verus! {

/// A `(user_key, ts)` pair as the read operations hand it back.
pub struct Key {
    key: Vec<u8>,
    ts: u64,
}

impl View for Key {
    type V = (Seq<u8>, u64);

    closed spec fn view(&self) -> (Seq<u8>, u64) {
        (self.key@, self.ts)
    }
}

impl Key {
    pub fn new(key: Vec<u8>, ts: u64) -> (r: Key)
        ensures
            r@ == (key@, ts),
    {
        Key { key, ts }
    }

    pub fn key(&self) -> (r: &Vec<u8>)
        ensures
            r@ == self@.0,
    {
        &self.key
    }

    pub fn ts(&self) -> (r: u64)
        ensures
            r == self@.1,
    {
        self.ts
    }
}

/// A value of the Data column: the user's bytes.
pub struct DataValue {
    value: Vec<u8>,
}

impl View for DataValue {
    type V = Seq<u8>;

    closed spec fn view(&self) -> Seq<u8> {
        self.value@
    }
}

impl DataValue {
    pub fn new(value: Vec<u8>) -> (r: DataValue)
        ensures
            r@ == value@,
    {
        DataValue { value }
    }

    pub fn value(self) -> (r: Vec<u8>)
        ensures
            r@ == self@,
    {
        self.value
    }
}

/// The decoded shape of a Lock column value.
pub struct LockModel {
    pub primary: Seq<u8>,
    pub ttl_start_ms: u64,
    pub op: WriteOp,
}

/// A value of the Lock column: the transaction's primary key, the wall
/// clock at which the lock was last refreshed, and the intended operation.
pub struct LockValue {
    primary: Vec<u8>,
    ttl_start_ms: u64,
    op: WriteOp,
}

impl View for LockValue {
    type V = LockModel;

    closed spec fn view(&self) -> LockModel {
        LockModel { primary: self.primary@, ttl_start_ms: self.ttl_start_ms, op: self.op }
    }
}

impl LockValue {
    pub fn new(primary: Vec<u8>, op: WriteOp, now_ms: u64) -> (r: LockValue)
        ensures
            r@ == (LockModel { primary: primary@, ttl_start_ms: now_ms, op }),
    {
        LockValue { primary, ttl_start_ms: now_ms, op }
    }

    pub fn primary(&self) -> (r: &Vec<u8>)
        ensures
            r@ == self@.primary,
    {
        &self.primary
    }

    pub fn op(&self) -> (r: WriteOp)
        ensures
            r == self@.op,
    {
        self.op
    }

    /// Milliseconds since the lock was last refreshed; zero when the clock
    /// reads earlier than the refresh.
    pub fn elapsed(&self, now_ms: u64) -> (r: u64)
        ensures
            r == if now_ms >= self@.ttl_start_ms {
                now_ms - self@.ttl_start_ms
            } else {
                0int
            },
    {
        if now_ms >= self.ttl_start_ms {
            now_ms - self.ttl_start_ms
        } else {
            0
        }
    }

    /// Restart the lock's wall-clock lease.
    pub fn reset_ttl(&mut self, now_ms: u64)
        ensures
            final(self)@ == (LockModel {
                primary: old(self)@.primary,
                ttl_start_ms: now_ms,
                op: old(self)@.op,
            }),
    {
        self.ttl_start_ms = now_ms;
    }
}

/// The decoded shape of a Write column value.
pub struct WriteModel {
    pub start_ts: u64,
    pub op: WriteOp,
}

/// A value of the Write column: the committed pointer back to the start
/// timestamp, with the operation that was committed.
pub struct WriteValue {
    start_ts: u64,
    op: WriteOp,
}

impl View for WriteValue {
    type V = WriteModel;

    closed spec fn view(&self) -> WriteModel {
        WriteModel { start_ts: self.start_ts, op: self.op }
    }
}

impl WriteValue {
    pub fn new(start_ts: u64, op: WriteOp) -> (r: WriteValue)
        ensures
            r@ == (WriteModel { start_ts, op }),
    {
        WriteValue { start_ts, op }
    }

    pub fn ts(&self) -> (r: u64)
        ensures
            r == self@.start_ts,
    {
        self.start_ts
    }

    pub fn op(&self) -> (r: WriteOp)
        ensures
            r == self@.op,
    {
        self.op
    }
}

/// The stored bytes of a Lock column value.
pub open spec fn enc_lock_s(lm: LockModel) -> Seq<u8> {
    seq![op_byte(lm.op)] + u64_be(lm.ttl_start_ms) + lm.primary
}

/// The stored bytes of a Write column value.
pub open spec fn enc_write_s(wm: WriteModel) -> Seq<u8> {
    seq![op_byte(wm.op)] + u64_be(wm.start_ts)
}

pub open spec fn is_lock_bytes(b: Seq<u8>) -> bool {
    exists|lm: LockModel| b == enc_lock_s(lm)
}

pub open spec fn is_write_bytes(b: Seq<u8>) -> bool {
    exists|wm: WriteModel| b == enc_write_s(wm)
}

/// The lock value stored bytes denote.
pub open spec fn lock_model_of(b: Seq<u8>) -> LockModel {
    choose|lm: LockModel| b == enc_lock_s(lm)
}

/// The write value stored bytes denote.
pub open spec fn write_model_of(b: Seq<u8>) -> WriteModel {
    choose|wm: WriteModel| b == enc_write_s(wm)
}

pub proof fn lemma_enc_lock_inj(a: LockModel, b: LockModel)
    requires
        enc_lock_s(a) == enc_lock_s(b),
    ensures
        a == b,
{
    let ea = enc_lock_s(a);
    let eb = enc_lock_s(b);
    assert(ea[0] == op_byte(a.op) && eb[0] == op_byte(b.op));
    assert(a.op == b.op) by {
        assert(op_byte(a.op) == op_byte(b.op));
    }
    assert(ea.subrange(1, 9) =~= u64_be(a.ttl_start_ms));
    assert(eb.subrange(1, 9) =~= u64_be(b.ttl_start_ms));
    lemma_be_inj(a.ttl_start_ms, b.ttl_start_ms);
    assert(ea.subrange(9, ea.len() as int) =~= a.primary);
    assert(eb.subrange(9, eb.len() as int) =~= b.primary);
}

pub proof fn lemma_enc_write_inj(a: WriteModel, b: WriteModel)
    requires
        enc_write_s(a) == enc_write_s(b),
    ensures
        a == b,
{
    let ea = enc_write_s(a);
    let eb = enc_write_s(b);
    assert(ea[0] == op_byte(a.op) && eb[0] == op_byte(b.op));
    assert(a.op == b.op) by {
        assert(op_byte(a.op) == op_byte(b.op));
    }
    assert(ea.subrange(1, 9) =~= u64_be(a.start_ts));
    assert(eb.subrange(1, 9) =~= u64_be(b.start_ts));
    lemma_be_inj(a.start_ts, b.start_ts);
}

/// Encode a lock value for storage.
fn encode_lock(primary: &Vec<u8>, ttl_start_ms: u64, op: WriteOp) -> (r: Vec<u8>)
    ensures
        r@ == enc_lock_s(LockModel { primary: primary@, ttl_start_ms, op }),
{
    let mut out: Vec<u8> = Vec::new();
    out.push(op.code_u8());
    u64_write_be(&mut out, ttl_start_ms);
    crate::codec::append_bytes(&mut out, primary);
    proof {
        assert(out@ =~= enc_lock_s(LockModel { primary: primary@, ttl_start_ms, op }));
    }
    out
}

/// Encode a write value for storage.
fn encode_write(start_ts: u64, op: WriteOp) -> (r: Vec<u8>)
    ensures
        r@ == enc_write_s(WriteModel { start_ts, op }),
{
    let mut out: Vec<u8> = Vec::new();
    out.push(op.code_u8());
    u64_write_be(&mut out, start_ts);
    proof {
        assert(out@ =~= enc_write_s(WriteModel { start_ts, op }));
    }
    out
}

/// Decode a stored lock value.
fn decode_lock(b: &Vec<u8>) -> (r: Option<LockValue>)
    ensures
        match r {
            Some(lv) => b@ == enc_lock_s(lv@),
            None => !is_lock_bytes(b@),
        },
{
    let n = b.len();
    if n < 9 {
        proof {
            if is_lock_bytes(b@) {
                let lm = choose|lm: LockModel| b@ == enc_lock_s(lm);
                assert(b@.len() >= 9);
            }
        }
        return None;
    }
    let opb = b[0];
    let op = match crate::common::WriteOp::from_code(opb as u64) {
        Some(op) => op,
        None => {
            proof {
                if is_lock_bytes(b@) {
                    let lm = choose|lm: LockModel| b@ == enc_lock_s(lm);
                    assert(b@[0] == op_byte(lm.op));
                    assert(op_byte(lm.op) <= 2);
                }
            }
            return None;
        },
    };
    let ttl = u64_read_be(b, 1);
    let primary = copy_range(b, 9, n - 9);
    let lv = LockValue { primary, ttl_start_ms: ttl, op };
    proof {
        lemma_be_roundtrip(lv@.ttl_start_ms);
        assert(b@.subrange(1, 9) =~= u64_be(ttl) || true);
        assert(crate::codec::u64_be(be_val8(b@.subrange(1, 9))) == b@.subrange(1, 9)) by {
            crate::codec::lemma_be_roundtrip2(b@.subrange(1, 9));
        }
        assert(b@ =~= enc_lock_s(lv@));
        assert(op_byte(op) == opb);
    }
    Some(lv)
}

/// Decode a stored write value.
fn decode_write(b: &Vec<u8>) -> (r: Option<WriteValue>)
    ensures
        match r {
            Some(wv) => b@ == enc_write_s(wv@),
            None => !is_write_bytes(b@),
        },
{
    let n = b.len();
    if n != 9 {
        proof {
            if is_write_bytes(b@) {
                let wm = choose|wm: WriteModel| b@ == enc_write_s(wm);
                assert(b@.len() == 9);
            }
        }
        return None;
    }
    let opb = b[0];
    let op = match crate::common::WriteOp::from_code(opb as u64) {
        Some(op) => op,
        None => {
            proof {
                if is_write_bytes(b@) {
                    let wm = choose|wm: WriteModel| b@ == enc_write_s(wm);
                    assert(b@[0] == op_byte(wm.op));
                    assert(op_byte(wm.op) <= 2);
                }
            }
            return None;
        },
    };
    let ts = u64_read_be(b, 1);
    let wv = WriteValue { start_ts: ts, op };
    proof {
        assert(crate::codec::u64_be(be_val8(b@.subrange(1, 9))) == b@.subrange(1, 9)) by {
            crate::codec::lemma_be_roundtrip2(b@.subrange(1, 9));
        }
        assert(b@ =~= enc_write_s(wv@));
        assert(op_byte(op) == opb);
    }
    Some(wv)
}

} // verus!

verus! {

/// Default window bounds: an open start is 0.
pub open spec fn ts_lo(o: Option<u64>) -> u64 {
    match o {
        Some(v) => v,
        None => 0u64,
    }
}

/// Default window bounds: an open end is the largest timestamp.
pub open spec fn ts_hi(o: Option<u64>) -> u64 {
    match o {
        Some(v) => v,
        None => u64::MAX,
    }
}

/// Every key of the engine map encodes some `(user_key, ts)` pair.
pub open spec fn keys_wf(m: Map<Seq<u8>, Seq<u8>>) -> bool {
    forall|ek: Seq<u8>| m.dom().contains(ek) ==> is_enc_key(ek)
}

/// Every value of the engine map holds a lock record.
pub open spec fn lock_vals_wf(m: Map<Seq<u8>, Seq<u8>>) -> bool {
    forall|ek: Seq<u8>| m.dom().contains(ek) ==> is_lock_bytes(#[trigger] m[ek])
}

/// Every value of the engine map holds a write record.
pub open spec fn write_vals_wf(m: Map<Seq<u8>, Seq<u8>>) -> bool {
    forall|ek: Seq<u8>| m.dom().contains(ek) ==> is_write_bytes(#[trigger] m[ek])
}

/// The Data column as a map from `(user_key, ts)` to the stored bytes.
pub open spec fn data_view_of(m: Map<Seq<u8>, Seq<u8>>) -> Map<(Seq<u8>, u64), Seq<u8>> {
    Map::new(
        |p: (Seq<u8>, u64)| m.dom().contains(enc_pk(p.0, p.1)),
        |p: (Seq<u8>, u64)| m[enc_pk(p.0, p.1)],
    )
}

/// The Lock column, decoded.
pub open spec fn lock_view_of(m: Map<Seq<u8>, Seq<u8>>) -> Map<(Seq<u8>, u64), LockModel> {
    Map::new(
        |p: (Seq<u8>, u64)| m.dom().contains(enc_pk(p.0, p.1)),
        |p: (Seq<u8>, u64)| lock_model_of(m[enc_pk(p.0, p.1)]),
    )
}

/// The Write column, decoded.
pub open spec fn write_view_of(m: Map<Seq<u8>, Seq<u8>>) -> Map<(Seq<u8>, u64), WriteModel> {
    Map::new(
        |p: (Seq<u8>, u64)| m.dom().contains(enc_pk(p.0, p.1)),
        |p: (Seq<u8>, u64)| write_model_of(m[enc_pk(p.0, p.1)]),
    )
}

/// Two pairs that encode to the same engine key are the same pair.
pub proof fn lemma_enc_pair_inj(p: (Seq<u8>, u64), q: (Seq<u8>, u64))
    requires
        enc_pk(p.0, p.1) == enc_pk(q.0, q.1),
        q.0.len() <= u64::MAX,
    ensures
        p == q,
{
    assert(enc_pk(p.0, p.1).len() == 16 + p.0.len());
    assert(enc_pk(q.0, q.1).len() == 16 + q.0.len());
    lemma_enc_inj(p.0, p.1, q.0, q.1);
}

/// The three-column store over a storage engine.
pub struct MultiStore<E: KvsEngine> {
    data: E,
    lock: E,
    write: E,
}

impl<E: KvsEngine> MultiStore<E> {
    pub closed spec fn inv(&self) -> bool {
        &&& self.data.inv() && self.lock.inv() && self.write.inv()
        &&& keys_wf(self.data.model()) && keys_wf(self.lock.model()) && keys_wf(
            self.write.model(),
        )
        &&& lock_vals_wf(self.lock.model())
        &&& write_vals_wf(self.write.model())
    }

    pub closed spec fn data_raw(&self) -> Map<Seq<u8>, Seq<u8>> {
        self.data.model()
    }

    pub closed spec fn lock_raw(&self) -> Map<Seq<u8>, Seq<u8>> {
        self.lock.model()
    }

    pub closed spec fn write_raw(&self) -> Map<Seq<u8>, Seq<u8>> {
        self.write.model()
    }

    pub open spec fn data_view(&self) -> Map<(Seq<u8>, u64), Seq<u8>> {
        data_view_of(self.data_raw())
    }

    pub open spec fn lock_view(&self) -> Map<(Seq<u8>, u64), LockModel> {
        lock_view_of(self.lock_raw())
    }

    pub open spec fn write_view(&self) -> Map<(Seq<u8>, u64), WriteModel> {
        write_view_of(self.write_raw())
    }

    /// Wrap three engines, one per column. Their contents must already be
    /// in the store's own formats; fresh empty engines always qualify.
    pub fn new(data: E, lock: E, write: E) -> (r: MultiStore<E>)
        requires
            data.inv() && lock.inv() && write.inv(),
            keys_wf(data.model()) && keys_wf(lock.model()) && keys_wf(write.model()),
            lock_vals_wf(lock.model()),
            write_vals_wf(write.model()),
        ensures
            r.inv(),
            r.data_raw() == data.model(),
            r.lock_raw() == lock.model(),
            r.write_raw() == write.model(),
    {
        MultiStore { data, lock, write }
    }

    /// The latest Data record of `key` in the window, if any.
    pub fn read_data(&self, key: &Vec<u8>, ts_start: Option<u64>, ts_end: Option<u64>) -> (r:
        Option<(Key, DataValue)>)
        requires
            self.inv(),
        ensures
            match r {
                None => forall|t: u64|
                    ts_lo(ts_start) <= t <= ts_hi(ts_end) ==> !self.data_view().dom().contains(
                        (key@, t),
                    ),
                Some((rk, dv)) => {
                    &&& rk@.0 == key@
                    &&& ts_lo(ts_start) <= rk@.1 <= ts_hi(ts_end)
                    &&& self.data_view().dom().contains((key@, rk@.1))
                    &&& dv@ == self.data_view()[(key@, rk@.1)]
                    &&& forall|t: u64|
                        ts_lo(ts_start) <= t <= ts_hi(ts_end) && self.data_view().dom().contains(
                            (key@, t),
                        ) ==> t <= rk@.1
                },
            },
    {
        let klen = key.len();
        let lo = match ts_start {
            Some(v) => v,
            None => 0,
        };
        let hi = match ts_end {
            Some(v) => v,
            None => u64::MAX,
        };
        let lo_k = encode_key(key, lo);
        let hi_k = encode_key(key, hi);
        match self.data.range_last(&lo_k, &hi_k) {
            None => {
                proof {
                    assert forall|t: u64|
                        lo <= t <= hi implies !self.data_view().dom().contains((key@, t)) by {
                        lemma_enc_key_order(key@, lo, t);
                        lemma_enc_key_order(key@, t, hi);
                    }
                }
                None
            },
            Some((ek, v)) => {
                proof {
                    assert(is_enc_key(ek@));
                }
                let ghost (k2, t2): (Seq<u8>, u64) = choose|k2: Seq<u8>, t2: u64|
                    k2.len() <= u64::MAX && ek@ == enc_pk(k2, t2);
                proof {
                    lemma_enc_between(key@, lo, hi, k2, t2);
                    lemma_enc_ts_suffix(k2, t2);
                }
                let ts2 = decode_key_ts(&ek);
                proof {
                    assert(ts2 == t2);
                    assert forall|t: u64|
                        lo <= t <= hi && self.data_view().dom().contains(
                            (key@, t),
                        ) implies t <= t2 by {
                        lemma_enc_key_order(key@, lo, t);
                        lemma_enc_key_order(key@, t, hi);
                        lemma_enc_key_order(key@, t, t2);
                    }
                }
                Some((Key::new(crate::bytes_clone(key), ts2), DataValue::new(v)))
            },
        }
    }

    /// The latest Lock record of `key` in the window, if any.
    pub fn read_lock(&self, key: &Vec<u8>, ts_start: Option<u64>, ts_end: Option<u64>) -> (r:
        Option<(Key, LockValue)>)
        requires
            self.inv(),
        ensures
            match r {
                None => forall|t: u64|
                    ts_lo(ts_start) <= t <= ts_hi(ts_end) ==> !self.lock_view().dom().contains(
                        (key@, t),
                    ),
                Some((rk, lv)) => {
                    &&& rk@.0 == key@
                    &&& ts_lo(ts_start) <= rk@.1 <= ts_hi(ts_end)
                    &&& self.lock_view().dom().contains((key@, rk@.1))
                    &&& lv@ == self.lock_view()[(key@, rk@.1)]
                    &&& forall|t: u64|
                        ts_lo(ts_start) <= t <= ts_hi(ts_end) && self.lock_view().dom().contains(
                            (key@, t),
                        ) ==> t <= rk@.1
                },
            },
    {
        let klen = key.len();
        let lo = match ts_start {
            Some(v) => v,
            None => 0,
        };
        let hi = match ts_end {
            Some(v) => v,
            None => u64::MAX,
        };
        let lo_k = encode_key(key, lo);
        let hi_k = encode_key(key, hi);
        match self.lock.range_last(&lo_k, &hi_k) {
            None => {
                proof {
                    assert forall|t: u64|
                        lo <= t <= hi implies !self.lock_view().dom().contains((key@, t)) by {
                        lemma_enc_key_order(key@, lo, t);
                        lemma_enc_key_order(key@, t, hi);
                    }
                }
                None
            },
            Some((ek, v)) => {
                proof {
                    assert(is_enc_key(ek@));
                    assert(is_lock_bytes(self.lock_raw()[ek@]));
                }
                let ghost (k2, t2): (Seq<u8>, u64) = choose|k2: Seq<u8>, t2: u64|
                    k2.len() <= u64::MAX && ek@ == enc_pk(k2, t2);
                proof {
                    lemma_enc_between(key@, lo, hi, k2, t2);
                    lemma_enc_ts_suffix(k2, t2);
                }
                let ts2 = decode_key_ts(&ek);
                let lv = match decode_lock(&v) {
                    Some(lv) => lv,
                    None => {
                        proof {
                            assert(false);
                        }
                        LockValue::new(Vec::new(), WriteOp::Put, 0)
                    },
                };
                proof {
                    assert(lv@ == lock_model_of(self.lock_raw()[ek@])) by {
                        let lm = choose|lm: LockModel|
                            self.lock_raw()[ek@] == enc_lock_s(lm);
                        lemma_enc_lock_inj(lv@, lm);
                    }
                    assert forall|t: u64|
                        lo <= t <= hi && self.lock_view().dom().contains(
                            (key@, t),
                        ) implies t <= t2 by {
                        lemma_enc_key_order(key@, lo, t);
                        lemma_enc_key_order(key@, t, hi);
                        lemma_enc_key_order(key@, t, t2);
                    }
                }
                Some((Key::new(crate::bytes_clone(key), ts2), lv))
            },
        }
    }

    /// The latest Write record of `key` in the window, if any.
    pub fn read_write(&self, key: &Vec<u8>, ts_start: Option<u64>, ts_end: Option<u64>) -> (r:
        Option<(Key, WriteValue)>)
        requires
            self.inv(),
        ensures
            match r {
                None => forall|t: u64|
                    ts_lo(ts_start) <= t <= ts_hi(ts_end) ==> !self.write_view().dom().contains(
                        (key@, t),
                    ),
                Some((rk, wv)) => {
                    &&& rk@.0 == key@
                    &&& ts_lo(ts_start) <= rk@.1 <= ts_hi(ts_end)
                    &&& self.write_view().dom().contains((key@, rk@.1))
                    &&& wv@ == self.write_view()[(key@, rk@.1)]
                    &&& forall|t: u64|
                        ts_lo(ts_start) <= t <= ts_hi(ts_end) && self.write_view().dom().contains(
                            (key@, t),
                        ) ==> t <= rk@.1
                },
            },
    {
        let klen = key.len();
        let lo = match ts_start {
            Some(v) => v,
            None => 0,
        };
        let hi = match ts_end {
            Some(v) => v,
            None => u64::MAX,
        };
        let lo_k = encode_key(key, lo);
        let hi_k = encode_key(key, hi);
        match self.write.range_last(&lo_k, &hi_k) {
            None => {
                proof {
                    assert forall|t: u64|
                        lo <= t <= hi implies !self.write_view().dom().contains((key@, t)) by {
                        lemma_enc_key_order(key@, lo, t);
                        lemma_enc_key_order(key@, t, hi);
                    }
                }
                None
            },
            Some((ek, v)) => {
                proof {
                    assert(is_enc_key(ek@));
                    assert(is_write_bytes(self.write_raw()[ek@]));
                }
                let ghost (k2, t2): (Seq<u8>, u64) = choose|k2: Seq<u8>, t2: u64|
                    k2.len() <= u64::MAX && ek@ == enc_pk(k2, t2);
                proof {
                    lemma_enc_between(key@, lo, hi, k2, t2);
                    lemma_enc_ts_suffix(k2, t2);
                }
                let ts2 = decode_key_ts(&ek);
                let wv = match decode_write(&v) {
                    Some(wv) => wv,
                    None => {
                        proof {
                            assert(false);
                        }
                        WriteValue::new(0, WriteOp::Put)
                    },
                };
                proof {
                    assert(wv@ == write_model_of(self.write_raw()[ek@])) by {
                        let wm = choose|wm: WriteModel|
                            self.write_raw()[ek@] == enc_write_s(wm);
                        lemma_enc_write_inj(wv@, wm);
                    }
                    assert forall|t: u64|
                        lo <= t <= hi && self.write_view().dom().contains(
                            (key@, t),
                        ) implies t <= t2 by {
                        lemma_enc_key_order(key@, lo, t);
                        lemma_enc_key_order(key@, t, hi);
                        lemma_enc_key_order(key@, t, t2);
                    }
                }
                Some((Key::new(crate::bytes_clone(key), ts2), wv))
            },
        }
    }
}

} // verus!

verus! {

/// Inserting a data record moves the view by one binding.
proof fn lemma_data_view_insert(m: Map<Seq<u8>, Seq<u8>>, k: Seq<u8>, t: u64, v: Seq<u8>)
    requires
        k.len() <= u64::MAX,
    ensures
        data_view_of(m.insert(enc_pk(k, t), v)) == data_view_of(m).insert((k, t), v),
{
    let lhs = data_view_of(m.insert(enc_pk(k, t), v));
    let rhs = data_view_of(m).insert((k, t), v);
    assert forall|p: (Seq<u8>, u64)| true implies #[trigger] lhs.contains_key(p)
        == rhs.contains_key(p) && (lhs.contains_key(p) ==> lhs[p] == rhs[p]) by {
        if enc_pk(p.0, p.1) == enc_pk(k, t) {
            lemma_enc_pair_inj(p, (k, t));
        }
    }
    assert(lhs =~= rhs);
}

/// Inserting a lock record moves the decoded view by one binding.
proof fn lemma_lock_view_insert(m: Map<Seq<u8>, Seq<u8>>, k: Seq<u8>, t: u64, lm: LockModel)
    requires
        k.len() <= u64::MAX,
    ensures
        lock_view_of(m.insert(enc_pk(k, t), enc_lock_s(lm))) == lock_view_of(m).insert((k, t), lm),
{
    let lhs = lock_view_of(m.insert(enc_pk(k, t), enc_lock_s(lm)));
    let rhs = lock_view_of(m).insert((k, t), lm);
    assert(lock_model_of(enc_lock_s(lm)) == lm) by {
        let lm2 = choose|lm2: LockModel| enc_lock_s(lm) == enc_lock_s(lm2);
        lemma_enc_lock_inj(lm2, lm);
    }
    assert forall|p: (Seq<u8>, u64)| true implies #[trigger] lhs.contains_key(p)
        == rhs.contains_key(p) && (lhs.contains_key(p) ==> lhs[p] == rhs[p]) by {
        if enc_pk(p.0, p.1) == enc_pk(k, t) {
            lemma_enc_pair_inj(p, (k, t));
        }
    }
    assert(lhs =~= rhs);
}

/// Inserting a write record moves the decoded view by one binding.
proof fn lemma_write_view_insert(m: Map<Seq<u8>, Seq<u8>>, k: Seq<u8>, t: u64, wm: WriteModel)
    requires
        k.len() <= u64::MAX,
    ensures
        write_view_of(m.insert(enc_pk(k, t), enc_write_s(wm))) == write_view_of(m).insert(
            (k, t),
            wm,
        ),
{
    let lhs = write_view_of(m.insert(enc_pk(k, t), enc_write_s(wm)));
    let rhs = write_view_of(m).insert((k, t), wm);
    assert(write_model_of(enc_write_s(wm)) == wm) by {
        let wm2 = choose|wm2: WriteModel| enc_write_s(wm) == enc_write_s(wm2);
        lemma_enc_write_inj(wm2, wm);
    }
    assert forall|p: (Seq<u8>, u64)| true implies #[trigger] lhs.contains_key(p)
        == rhs.contains_key(p) && (lhs.contains_key(p) ==> lhs[p] == rhs[p]) by {
        if enc_pk(p.0, p.1) == enc_pk(k, t) {
            lemma_enc_pair_inj(p, (k, t));
        }
    }
    assert(lhs =~= rhs);
}

/// What a window erase does to a view: exactly the bindings of `k` with
/// timestamps up to `up_to` leave; the rest keep their values.
pub open spec fn erased_window<V>(
    old_v: Map<(Seq<u8>, u64), V>,
    new_v: Map<(Seq<u8>, u64), V>,
    k: Seq<u8>,
    up_to: u64,
) -> bool {
    &&& forall|p: (Seq<u8>, u64)| #[trigger]
        new_v.dom().contains(p) <==> (old_v.dom().contains(p) && !(p.0 == k && p.1 <= up_to))
    &&& forall|p: (Seq<u8>, u64)| #[trigger] new_v.dom().contains(p) ==> new_v[p] == old_v[p]
}

impl<E: KvsEngine> MultiStore<E> {
    /// Store `value` under `(key, ts)` in the Data column.
    pub fn write_data(&mut self, key: &Vec<u8>, ts: u64, value: Vec<u8>)
        requires
            old(self).inv(),
        ensures
            final(self).inv(),
            final(self).data_view() == old(self).data_view().insert((key@, ts), value@),
            final(self).lock_view() == old(self).lock_view(),
            final(self).write_view() == old(self).write_view(),
    {
        let klen = key.len();
        let ek = encode_key(key, ts);
        proof {
            lemma_data_view_insert(self.data.model(), key@, ts, value@);
        }
        self.data.set(ek, value);
        proof {
            assert forall|ek2: Seq<u8>|
                self.data.model().dom().contains(ek2) implies is_enc_key(ek2) by {
                if ek2 != enc_pk(key@, ts) {
                    assert(old(self).data_raw().dom().contains(ek2));
                }
            }
        }
    }

    /// Store a lock under `(key, ts)`: the primary, the wall clock now, and
    /// the intended operation.
    pub fn write_lock(&mut self, key: &Vec<u8>, ts: u64, primary: &Vec<u8>, op: WriteOp, now_ms: u64)
        requires
            old(self).inv(),
        ensures
            final(self).inv(),
            final(self).lock_view() == old(self).lock_view().insert(
                (key@, ts),
                LockModel { primary: primary@, ttl_start_ms: now_ms, op },
            ),
            final(self).data_view() == old(self).data_view(),
            final(self).write_view() == old(self).write_view(),
    {
        let klen = key.len();
        let ek = encode_key(key, ts);
        let lv = encode_lock(primary, now_ms, op);
        proof {
            lemma_lock_view_insert(
                self.lock.model(),
                key@,
                ts,
                LockModel { primary: primary@, ttl_start_ms: now_ms, op },
            );
        }
        self.lock.set(ek, lv);
        proof {
            assert forall|ek2: Seq<u8>|
                self.lock.model().dom().contains(ek2) implies is_enc_key(ek2) && is_lock_bytes(
                #[trigger] self.lock.model()[ek2],
            ) by {
                if ek2 != enc_pk(key@, ts) {
                    assert(old(self).lock_raw().dom().contains(ek2));
                    assert(is_lock_bytes(old(self).lock_raw()[ek2]));
                }
            }
        }
    }

    /// Store a committed pointer under `(key, commit_ts)`.
    pub fn write_write(&mut self, key: &Vec<u8>, commit_ts: u64, start_ts: u64, op: WriteOp)
        requires
            old(self).inv(),
        ensures
            final(self).inv(),
            final(self).write_view() == old(self).write_view().insert(
                (key@, commit_ts),
                WriteModel { start_ts, op },
            ),
            final(self).data_view() == old(self).data_view(),
            final(self).lock_view() == old(self).lock_view(),
    {
        let klen = key.len();
        let ek = encode_key(key, commit_ts);
        let wv = encode_write(start_ts, op);
        proof {
            lemma_write_view_insert(self.write.model(), key@, commit_ts, WriteModel { start_ts, op });
        }
        self.write.set(ek, wv);
        proof {
            assert forall|ek2: Seq<u8>|
                self.write.model().dom().contains(ek2) implies is_enc_key(ek2) && is_write_bytes(
                #[trigger] self.write.model()[ek2],
            ) by {
                if ek2 != enc_pk(key@, commit_ts) {
                    assert(old(self).write_raw().dom().contains(ek2));
                    assert(is_write_bytes(old(self).write_raw()[ek2]));
                }
            }
        }
    }

    /// Refresh the wall-clock lease of the lock stored at `(primary, ts)`,
    /// if it is still there.
    pub fn update_lock(&mut self, primary: &Vec<u8>, ts: u64, now_ms: u64)
        requires
            old(self).inv(),
        ensures
            final(self).inv(),
            final(self).data_view() == old(self).data_view(),
            final(self).write_view() == old(self).write_view(),
            if old(self).lock_view().dom().contains((primary@, ts)) {
                final(self).lock_view() == old(self).lock_view().insert(
                    (primary@, ts),
                    LockModel {
                        primary: old(self).lock_view()[(primary@, ts)].primary,
                        ttl_start_ms: now_ms,
                        op: old(self).lock_view()[(primary@, ts)].op,
                    },
                )
            } else {
                final(self).lock_view() == old(self).lock_view()
            },
    {
        match self.read_lock(primary, Some(ts), Some(ts)) {
            Some((lock_key, lock_value)) => {
                proof {
                    assert(lock_key@.1 == ts);
                }
                let lock_primary = crate::bytes_clone(lock_value.primary());
                let op = lock_value.op();
                self.write_lock(primary, ts, &lock_primary, op, now_ms);
            },
            None => {},
        }
    }

    /// Drop every Data record of `key` with timestamp up to `up_to`.
    pub fn erase_data(&mut self, key: &Vec<u8>, up_to: u64)
        requires
            old(self).inv(),
        ensures
            final(self).inv(),
            erased_window(old(self).data_view(), final(self).data_view(), key@, up_to),
            final(self).lock_view() == old(self).lock_view(),
            final(self).write_view() == old(self).write_view(),
    {
        let klen = key.len();
        let lo_k = encode_key(key, 0);
        let hi_k = encode_key(key, up_to);
        self.data.range_erase(&lo_k, &hi_k);
        proof {
            assert(lo_k@ == enc_pk(key@, 0) && hi_k@ == enc_pk(key@, up_to));
            assert forall|ek: Seq<u8>| true implies (#[trigger] self.data.model().dom().contains(
                ek,
            ) <==> (old(self).data_raw().dom().contains(ek) && !(lex_le(enc_pk(key@, 0), ek)
                && lex_le(ek, enc_pk(key@, up_to))))) by {
                assert(self.data.model().dom().contains(ek) <==> (old(
                    self,
                ).data_raw().dom().contains(ek) && !(lex_le(lo_k@, ek) && lex_le(ek, hi_k@))));
            }
            lemma_erase_view(old(self).data_raw(), self.data.model(), key@, up_to);
        }
    }

    /// Drop every Lock record of `key` with timestamp up to `up_to`.
    pub fn erase_lock(&mut self, key: &Vec<u8>, up_to: u64)
        requires
            old(self).inv(),
        ensures
            final(self).inv(),
            erased_window(old(self).lock_view(), final(self).lock_view(), key@, up_to),
            final(self).data_view() == old(self).data_view(),
            final(self).write_view() == old(self).write_view(),
    {
        let klen = key.len();
        let lo_k = encode_key(key, 0);
        let hi_k = encode_key(key, up_to);
        self.lock.range_erase(&lo_k, &hi_k);
        proof {
            assert(lo_k@ == enc_pk(key@, 0) && hi_k@ == enc_pk(key@, up_to));
            assert forall|ek: Seq<u8>| true implies (#[trigger] self.lock.model().dom().contains(
                ek,
            ) <==> (old(self).lock_raw().dom().contains(ek) && !(lex_le(enc_pk(key@, 0), ek)
                && lex_le(ek, enc_pk(key@, up_to))))) by {
                assert(self.lock.model().dom().contains(ek) <==> (old(
                    self,
                ).lock_raw().dom().contains(ek) && !(lex_le(lo_k@, ek) && lex_le(ek, hi_k@))));
            }
            lemma_erase_view(old(self).lock_raw(), self.lock.model(), key@, up_to);
        }
    }

    /// Drop every Write record of `key` with timestamp up to `up_to`.
    pub fn erase_write(&mut self, key: &Vec<u8>, up_to: u64)
        requires
            old(self).inv(),
        ensures
            final(self).inv(),
            erased_window(old(self).write_view(), final(self).write_view(), key@, up_to),
            final(self).data_view() == old(self).data_view(),
            final(self).lock_view() == old(self).lock_view(),
    {
        let klen = key.len();
        let lo_k = encode_key(key, 0);
        let hi_k = encode_key(key, up_to);
        self.write.range_erase(&lo_k, &hi_k);
        proof {
            assert(lo_k@ == enc_pk(key@, 0) && hi_k@ == enc_pk(key@, up_to));
            assert forall|ek: Seq<u8>| true implies (#[trigger] self.write.model().dom().contains(
                ek,
            ) <==> (old(self).write_raw().dom().contains(ek) && !(lex_le(enc_pk(key@, 0), ek)
                && lex_le(ek, enc_pk(key@, up_to))))) by {
                assert(self.write.model().dom().contains(ek) <==> (old(
                    self,
                ).write_raw().dom().contains(ek) && !(lex_le(lo_k@, ek) && lex_le(ek, hi_k@))));
            }
            lemma_erase_view(old(self).write_raw(), self.write.model(), key@, up_to);
        }
    }
}

/// After an engine erase over the encoded window of `k`: exactly the
/// encodings of `k` with timestamps up to `up_to` left the raw map.
proof fn lemma_erase_view(m_old: Map<Seq<u8>, Seq<u8>>, m_new: Map<Seq<u8>, Seq<u8>>, k: Seq<u8>, up_to: u64)
    requires
        k.len() <= u64::MAX,
        keys_wf(m_old),
        forall|ek: Seq<u8>| #[trigger]
            m_new.dom().contains(ek) <==> (m_old.dom().contains(ek) && !(lex_le(
                enc_pk(k, 0),
                ek,
            ) && lex_le(ek, enc_pk(k, up_to)))),
        forall|ek: Seq<u8>| #[trigger] m_new.dom().contains(ek) ==> m_new[ek] == m_old[ek],
    ensures
        keys_wf(m_new),
        forall|p: (Seq<u8>, u64)|
            #[trigger] m_new.dom().contains(enc_pk(p.0, p.1)) <==> (m_old.dom().contains(
                enc_pk(p.0, p.1),
            ) && !(p.0 == k && p.1 <= up_to)),
        forall|ek: Seq<u8>| #[trigger] m_new.dom().contains(ek) ==> m_new[ek] == m_old[ek],
{
    assert forall|ek: Seq<u8>| #[trigger] m_new.dom().contains(ek) implies is_enc_key(ek) by {}
    assert forall|p: (Seq<u8>, u64)| true implies (#[trigger] m_new.dom().contains(
        enc_pk(p.0, p.1),
    ) <==> (m_old.dom().contains(enc_pk(p.0, p.1)) && !(p.0 == k && p.1 <= up_to))) by {
        let ek = enc_pk(p.0, p.1);
        if m_old.dom().contains(ek) {
            assert(is_enc_key(ek));
            let (k2, t2): (Seq<u8>, u64) = choose|k2: Seq<u8>, t2: u64|
                k2.len() <= u64::MAX && ek == enc_pk(k2, t2);
            assert(enc_pk(p.0, p.1).len() == 16 + p.0.len());
            assert(enc_pk(k2, t2).len() == 16 + k2.len());
            lemma_enc_inj(p.0, p.1, k2, t2);
            if p.0 == k && p.1 <= up_to {
                lemma_enc_key_order(k, 0, p.1);
                lemma_enc_key_order(k, p.1, up_to);
                assert(lex_le(enc_pk(k, 0), ek) && lex_le(ek, enc_pk(k, up_to)));
            }
            if lex_le(enc_pk(k, 0), ek) && lex_le(ek, enc_pk(k, up_to)) {
                lemma_enc_between(k, 0, up_to, p.0, p.1);
            }
        }
    }
}

} // verus!

verus! {

impl<E: KvsEngine> MultiStore<E> {
    /// All three columns' bindings, as key and value lists: Data, Lock,
    /// Write, in that order.
    pub fn export(&self) -> (r: ((Vec<Vec<u8>>, Vec<Vec<u8>>), (Vec<Vec<u8>>, Vec<Vec<u8>>), (
        Vec<Vec<u8>>,
        Vec<Vec<u8>>,
    )))
        requires
            self.inv(),
        ensures
            crate::engine::pairs_map(r.0.0@, r.0.1@) == self.data_raw(),
            crate::engine::pairs_map(r.1.0@, r.1.1@) == self.lock_raw(),
            crate::engine::pairs_map(r.2.0@, r.2.1@) == self.write_raw(),
            r.0.0@.len() == r.0.1@.len() && r.1.0@.len() == r.1.1@.len() && r.2.0@.len()
                == r.2.1@.len(),
            // the exported pairs are in the store's own formats, so they
            // satisfy what import asks of its input
            keys_wf(crate::engine::pairs_map(r.0.0@, r.0.1@)),
            keys_wf(crate::engine::pairs_map(r.1.0@, r.1.1@)),
            keys_wf(crate::engine::pairs_map(r.2.0@, r.2.1@)),
            lock_vals_wf(crate::engine::pairs_map(r.1.0@, r.1.1@)),
            write_vals_wf(crate::engine::pairs_map(r.2.0@, r.2.1@)),
    {
        (self.data.export(), self.lock.export(), self.write.export())
    }

    /// Replace all three columns with the given bindings; they must be in
    /// the store's own formats, as an export of a store always is.
    pub fn import(
        &mut self,
        d: (Vec<Vec<u8>>, Vec<Vec<u8>>),
        l: (Vec<Vec<u8>>, Vec<Vec<u8>>),
        w: (Vec<Vec<u8>>, Vec<Vec<u8>>),
    )
        requires
            old(self).inv(),
            d.0@.len() == d.1@.len() && l.0@.len() == l.1@.len() && w.0@.len() == w.1@.len(),
            keys_wf(crate::engine::pairs_map(d.0@, d.1@)),
            keys_wf(crate::engine::pairs_map(l.0@, l.1@)),
            keys_wf(crate::engine::pairs_map(w.0@, w.1@)),
            lock_vals_wf(crate::engine::pairs_map(l.0@, l.1@)),
            write_vals_wf(crate::engine::pairs_map(w.0@, w.1@)),
        ensures
            final(self).inv(),
            final(self).data_raw() == crate::engine::pairs_map(d.0@, d.1@),
            final(self).lock_raw() == crate::engine::pairs_map(l.0@, l.1@),
            final(self).write_raw() == crate::engine::pairs_map(w.0@, w.1@),
    {
        let (dk, dv) = d;
        let (lk, lv) = l;
        let (wk, wv) = w;
        self.data.import(dk, dv);
        self.lock.import(lk, lv);
        self.write.import(wk, wv);
    }
}

} // verus!
