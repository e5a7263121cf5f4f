//! Byte-level codecs: big-endian 64-bit integers and the self-delimiting
//! command records that the log segments hold.
//!
//! A `Set` record is `0x00`, the key length, the key bytes, the value
//! length, the value bytes; a `Remove` record is `0x01`, the key length,
//! the key bytes. Lengths are 8-byte big-endian integers, so a record can
//! be decoded from any position without out-of-band framing.

use vstd::prelude::*;

use crate::order::{lex_lt, lex_lt_at, lemma_lex_lt_alt};

verus! {

/// The byte at position `i` of the big-endian encoding of `x`.
pub open spec fn be_byte(x: u64, i: int) -> u8 {
    ((x >> (((7 - i) * 8) as u64)) & 0xff) as u8
}

/// Big-endian 8-byte encoding of a 64-bit integer.
pub open spec fn u64_be(x: u64) -> Seq<u8> {
    Seq::new(8, |i: int| be_byte(x, i))
}

/// The 64-bit integer read back from 8 bytes, most significant first.
pub open spec fn be_val8(s: Seq<u8>) -> u64
    recommends
        s.len() == 8,
{
    (((s[0] as u64) << 56) | ((s[1] as u64) << 48) | ((s[2] as u64) << 40) | ((s[3] as u64) << 32)
        | ((s[4] as u64) << 24) | ((s[5] as u64) << 16) | ((s[6] as u64) << 8) | (s[7] as u64)) as u64
}

pub proof fn lemma_be_roundtrip(x: u64)
    ensures
        be_val8(u64_be(x)) == x,
{
    assert((x >> 56) & 0xff < 256 && (x >> 48) & 0xff < 256 && (x >> 40) & 0xff < 256 && (x >> 32)
        & 0xff < 256 && (x >> 24) & 0xff < 256 && (x >> 16) & 0xff < 256 && (x >> 8) & 0xff < 256
        && (x >> 0) & 0xff < 256) by (bit_vector);
    assert(((((x >> 56) & 0xff) << 56) | (((x >> 48) & 0xff) << 48) | (((x >> 40) & 0xff) << 40) | (
    ((x >> 32) & 0xff) << 32) | (((x >> 24) & 0xff) << 24) | (((x >> 16) & 0xff) << 16) | (((x >> 8)
        & 0xff) << 8) | ((x >> 0) & 0xff)) == x) by (bit_vector);
}

pub proof fn lemma_be_inj(x: u64, y: u64)
    ensures
        u64_be(x) == u64_be(y) ==> x == y,
{
    lemma_be_roundtrip(x);
    lemma_be_roundtrip(y);
}

/// Numeric order of 64-bit integers matches lexicographic order of their
/// big-endian encodings.
pub proof fn lemma_be_order(x: u64, y: u64)
    requires
        x < y,
    ensures
        lex_lt(u64_be(x), u64_be(y)),
{
    let a = u64_be(x);
    let b = u64_be(y);
    assert(x < y ==> ((x >> 56) & 0xff < (y >> 56) & 0xff || ((x >> 56) & 0xff == (y >> 56) & 0xff
        && ((x >> 48) & 0xff < (y >> 48) & 0xff || ((x >> 48) & 0xff == (y >> 48) & 0xff && ((x
        >> 40) & 0xff < (y >> 40) & 0xff || ((x >> 40) & 0xff == (y >> 40) & 0xff && ((x >> 32)
        & 0xff < (y >> 32) & 0xff || ((x >> 32) & 0xff == (y >> 32) & 0xff && ((x >> 24) & 0xff < (y
        >> 24) & 0xff || ((x >> 24) & 0xff == (y >> 24) & 0xff && ((x >> 16) & 0xff < (y >> 16)
        & 0xff || ((x >> 16) & 0xff == (y >> 16) & 0xff && ((x >> 8) & 0xff < (y >> 8) & 0xff || ((x
        >> 8) & 0xff == (y >> 8) & 0xff && (x >> 0) & 0xff < (y >> 0) & 0xff))))))))))))))) by (
    bit_vector);
    assert((x >> 56) & 0xff < 256 && (x >> 48) & 0xff < 256 && (x >> 40) & 0xff < 256 && (x >> 32)
        & 0xff < 256 && (x >> 24) & 0xff < 256 && (x >> 16) & 0xff < 256 && (x >> 8) & 0xff < 256
        && (x >> 0) & 0xff < 256) by (bit_vector);
    assert((y >> 56) & 0xff < 256 && (y >> 48) & 0xff < 256 && (y >> 40) & 0xff < 256 && (y >> 32)
        & 0xff < 256 && (y >> 24) & 0xff < 256 && (y >> 16) & 0xff < 256 && (y >> 8) & 0xff < 256
        && (y >> 0) & 0xff < 256) by (bit_vector);
    let i = choose|i: int|
        0 <= i < 8 && a[i] < b[i] && (forall|j: int| 0 <= j < i ==> a[j] == b[j]);
    assert(exists|i: int|
        0 <= i < 8 && a[i] < b[i] && (forall|j: int| 0 <= j < i ==> a[j] == b[j])) by {
        if a[0] < b[0] {
            assert(0 <= 0 < 8 && a[0] < b[0] && (forall|j: int| 0 <= j < 0 ==> a[j] == b[j]));
        } else if a[1] < b[1] {
            assert(0 <= 1 < 8 && a[1] < b[1] && (forall|j: int| 0 <= j < 1 ==> a[j] == b[j]));
        } else if a[2] < b[2] {
            assert(0 <= 2 < 8 && a[2] < b[2] && (forall|j: int| 0 <= j < 2 ==> a[j] == b[j]));
        } else if a[3] < b[3] {
            assert(0 <= 3 < 8 && a[3] < b[3] && (forall|j: int| 0 <= j < 3 ==> a[j] == b[j]));
        } else if a[4] < b[4] {
            assert(0 <= 4 < 8 && a[4] < b[4] && (forall|j: int| 0 <= j < 4 ==> a[j] == b[j]));
        } else if a[5] < b[5] {
            assert(0 <= 5 < 8 && a[5] < b[5] && (forall|j: int| 0 <= j < 5 ==> a[j] == b[j]));
        } else if a[6] < b[6] {
            assert(0 <= 6 < 8 && a[6] < b[6] && (forall|j: int| 0 <= j < 6 ==> a[j] == b[j]));
        } else {
            assert(0 <= 7 < 8 && a[7] < b[7] && (forall|j: int| 0 <= j < 7 ==> a[j] == b[j]));
        }
    }
    assert(lex_lt_at(a, b, i)) by {
        assert(a.subrange(0, i) =~= b.subrange(0, i));
    }
    lemma_lex_lt_alt(a, b);
}

/// Append the big-endian encoding of `x` to `out`.
pub fn u64_write_be(out: &mut Vec<u8>, x: u64)
    ensures
        final(out)@ == old(out)@ + u64_be(x),
{
    out.push(((x >> 56) & 0xff) as u8);
    out.push(((x >> 48) & 0xff) as u8);
    out.push(((x >> 40) & 0xff) as u8);
    out.push(((x >> 32) & 0xff) as u8);
    out.push(((x >> 24) & 0xff) as u8);
    out.push(((x >> 16) & 0xff) as u8);
    out.push(((x >> 8) & 0xff) as u8);
    out.push((x & 0xff) as u8);
    proof {
        assert(x & 0xff == (x >> 0) & 0xff) by (bit_vector);
        assert(out@ =~= old(out)@ + u64_be(x));
    }
}

/// Read the 8-byte big-endian integer stored at `pos`.
pub fn u64_read_be(data: &Vec<u8>, pos: usize) -> (r: u64)
    requires
        pos + 8 <= data@.len(),
    ensures
        r == be_val8(data@.subrange(pos as int, pos as int + 8)),
{
    let n = data.len();
    let b0 = data[pos] as u64;
    let b1 = data[pos + 1] as u64;
    let b2 = data[pos + 2] as u64;
    let b3 = data[pos + 3] as u64;
    let b4 = data[pos + 4] as u64;
    let b5 = data[pos + 5] as u64;
    let b6 = data[pos + 6] as u64;
    let b7 = data[pos + 7] as u64;
    proof {
        assert(b0 < 256 && b1 < 256 && b2 < 256 && b3 < 256 && b4 < 256 && b5 < 256 && b6 < 256
            && b7 < 256);
        assert((b0 << 56) | (b1 << 48) | (b2 << 40) | (b3 << 32) | (b4 << 24) | (b5 << 16) | (b6
            << 8) | b7 <= 0xffff_ffff_ffff_ffff) by (bit_vector);
    }
    (b0 << 56) | (b1 << 48) | (b2 << 40) | (b3 << 32) | (b4 << 24) | (b5 << 16) | (b6 << 8) | b7
}

/// A command record as it is appended to a segment.
#[derive(Debug, Clone)]
pub enum Record {
    Put { key: Vec<u8>, value: Vec<u8> },
    Remove { key: Vec<u8> },
}

/// The mathematical shape of a record.
pub enum RecModel {
    Put { key: Seq<u8>, value: Seq<u8> },
    Remove { key: Seq<u8> },
}

impl View for Record {
    type V = RecModel;

    open spec fn view(&self) -> RecModel {
        match self {
            Record::Put { key, value } => RecModel::Put { key: key@, value: value@ },
            Record::Remove { key } => RecModel::Remove { key: key@ },
        }
    }
}

/// Key and value lengths that the 8-byte length fields can carry.
pub open spec fn rec_wf(r: RecModel) -> bool {
    match r {
        RecModel::Put { key, value } => key.len() <= 0xffff_ffff_ffff_ffff && value.len()
            <= 0xffff_ffff_ffff_ffff,
        RecModel::Remove { key } => key.len() <= 0xffff_ffff_ffff_ffff,
    }
}

/// The byte encoding of a record.
pub open spec fn rec_enc(r: RecModel) -> Seq<u8> {
    match r {
        RecModel::Put { key, value } => seq![0u8] + u64_be(key.len() as u64) + key + u64_be(
            value.len() as u64,
        ) + value,
        RecModel::Remove { key } => seq![1u8] + u64_be(key.len() as u64) + key,
    }
}

/// Decode the record stored at `pos`, together with the position just
/// past it; `None` when the bytes at `pos` do not hold a whole record.
pub open spec fn rec_dec_at(d: Seq<u8>, pos: int) -> Option<(RecModel, int)> {
    if pos < 0 || d.len() < pos + 9 {
        None
    } else {
        let tag = d[pos];
        let klen = be_val8(d.subrange(pos + 1, pos + 9)) as int;
        if tag == 0u8 {
            if d.len() < pos + 9 + klen + 8 {
                None
            } else {
                let key = d.subrange(pos + 9, pos + 9 + klen);
                let vlen = be_val8(d.subrange(pos + 9 + klen, pos + 9 + klen + 8)) as int;
                if d.len() < pos + 9 + klen + 8 + vlen {
                    None
                } else {
                    Some(
                        (
                            RecModel::Put {
                                key,
                                value: d.subrange(pos + 9 + klen + 8, pos + 9 + klen + 8 + vlen),
                            },
                            pos + 9 + klen + 8 + vlen,
                        ),
                    )
                }
            }
        } else if tag == 1u8 {
            if d.len() < pos + 9 + klen {
                None
            } else {
                Some((RecModel::Remove { key: d.subrange(pos + 9, pos + 9 + klen) }, pos + 9
                    + klen))
            }
        } else {
            None
        }
    }
}

/// A successful decode consumes at least one byte and stays in bounds.
pub proof fn lemma_dec_bounds(d: Seq<u8>, pos: int)
    ensures
        rec_dec_at(d, pos) matches Some((r, n)) ==> pos < n <= d.len(),
{
}

/// Decoding at the start of an encoded record yields the record back,
/// whatever bytes follow it.
pub proof fn lemma_dec_enc(d: Seq<u8>, pos: int, r: RecModel)
    requires
        rec_wf(r),
        0 <= pos,
        pos + rec_enc(r).len() <= d.len(),
        d.subrange(pos, pos + rec_enc(r).len()) == rec_enc(r),
    ensures
        rec_dec_at(d, pos) == Some((r, pos + rec_enc(r).len())),
{
    let e = rec_enc(r);
    assert forall|j: int| 0 <= j < e.len() implies d[pos + j] == e[j] by {
        assert(d.subrange(pos, pos + e.len())[j] == e[j]);
    }
    match r {
        RecModel::Put { key, value } => {
            let kl = key.len() as int;
            let vl = value.len() as int;
            let lk = u64_be(kl as u64);
            let lv = u64_be(vl as u64);
            lemma_be_roundtrip(kl as u64);
            lemma_be_roundtrip(vl as u64);
            let front = seq![0u8] + lk;
            let with_key = front + key;
            let with_vlen = with_key + lv;
            assert(e == with_vlen + value);
            assert(e.len() == 9 + kl + 8 + vl);
            assert forall|j: int| 0 <= j < 8 implies e[1 + j] == lk[j] by {
                assert((with_vlen + value)[1 + j] == with_vlen[1 + j]);
                assert(with_vlen[1 + j] == with_key[1 + j]);
                assert(with_key[1 + j] == front[1 + j]);
                assert(front[1 + j] == lk[j]);
            }
            assert forall|j: int| 0 <= j < kl implies e[9 + j] == key[j] by {
                assert((with_vlen + value)[9 + j] == with_vlen[9 + j]);
                assert(with_vlen[9 + j] == with_key[9 + j]);
                assert(with_key[9 + j] == key[j]);
            }
            assert forall|j: int| 0 <= j < 8 implies e[9 + kl + j] == lv[j] by {
                assert((with_vlen + value)[9 + kl + j] == with_vlen[9 + kl + j]);
                assert(with_vlen[9 + kl + j] == lv[j]);
            }
            assert forall|j: int| 0 <= j < vl implies e[9 + kl + 8 + j] == value[j] by {
                assert((with_vlen + value)[9 + kl + 8 + j] == value[j]);
            }
            assert(d[pos] == 0u8) by {
                assert(d[pos + 0] == e[0]);
                assert(e[0] == front[0]);
            }
            assert(d.subrange(pos + 1, pos + 9) =~= lk) by {
                assert forall|j: int| 0 <= j < 8 implies d.subrange(pos + 1, pos + 9)[j] == lk[j] by {
                    assert(d[pos + (1 + j)] == e[1 + j]);
                }
            }
            assert(be_val8(d.subrange(pos + 1, pos + 9)) as int == kl);
            assert(d.subrange(pos + 9, pos + 9 + kl) =~= key) by {
                assert forall|j: int| 0 <= j < kl implies d.subrange(pos + 9, pos + 9 + kl)[j]
                    == key[j] by {
                    assert(d[pos + (9 + j)] == e[9 + j]);
                }
            }
            assert(d.subrange(pos + 9 + kl, pos + 9 + kl + 8) =~= lv) by {
                assert forall|j: int| 0 <= j < 8 implies d.subrange(
                    pos + 9 + kl,
                    pos + 9 + kl + 8,
                )[j] == lv[j] by {
                    assert(d[pos + (9 + kl + j)] == e[9 + kl + j]);
                }
            }
            assert(be_val8(d.subrange(pos + 9 + kl, pos + 9 + kl + 8)) as int == vl);
            assert(d.subrange(pos + 9 + kl + 8, pos + 9 + kl + 8 + vl) =~= value) by {
                assert forall|j: int| 0 <= j < vl implies d.subrange(
                    pos + 9 + kl + 8,
                    pos + 9 + kl + 8 + vl,
                )[j] == value[j] by {
                    assert(d[pos + (9 + kl + 8 + j)] == e[9 + kl + 8 + j]);
                }
            }
        },
        RecModel::Remove { key } => {
            let kl = key.len() as int;
            let lk = u64_be(kl as u64);
            lemma_be_roundtrip(kl as u64);
            let front = seq![1u8] + lk;
            assert(e == front + key);
            assert(e.len() == 9 + kl);
            assert(d[pos] == 1u8) by {
                assert(d[pos + 0] == e[0]);
                assert(e[0] == front[0]);
            }
            assert(d.subrange(pos + 1, pos + 9) =~= lk) by {
                assert forall|j: int| 0 <= j < 8 implies d.subrange(pos + 1, pos + 9)[j] == lk[j] by {
                    assert(d[pos + (1 + j)] == e[1 + j]);
                    assert(e[1 + j] == front[1 + j]);
                }
            }
            assert(be_val8(d.subrange(pos + 1, pos + 9)) as int == kl);
            assert(d.subrange(pos + 9, pos + 9 + kl) =~= key) by {
                assert forall|j: int| 0 <= j < kl implies d.subrange(pos + 9, pos + 9 + kl)[j]
                    == key[j] by {
                    assert(d[pos + (9 + j)] == e[9 + j]);
                    assert(e[9 + j] == key[j]);
                }
            }
        },
    }
}

/// A decode that succeeds is untouched by bytes appended after the data.
pub proof fn lemma_dec_append(d: Seq<u8>, e: Seq<u8>, pos: int)
    requires
        rec_dec_at(d, pos) is Some,
    ensures
        rec_dec_at(d + e, pos) == rec_dec_at(d, pos),
{
    let de = d + e;
    assert(de[pos] == d[pos]);
    assert(de.subrange(pos + 1, pos + 9) =~= d.subrange(pos + 1, pos + 9));
    let klen = be_val8(d.subrange(pos + 1, pos + 9)) as int;
    if d[pos] == 0u8 {
        assert(de.subrange(pos + 9, pos + 9 + klen) =~= d.subrange(pos + 9, pos + 9 + klen));
        assert(de.subrange(pos + 9 + klen, pos + 9 + klen + 8) =~= d.subrange(
            pos + 9 + klen,
            pos + 9 + klen + 8,
        ));
        let vlen = be_val8(d.subrange(pos + 9 + klen, pos + 9 + klen + 8)) as int;
        assert(de.subrange(pos + 9 + klen + 8, pos + 9 + klen + 8 + vlen) =~= d.subrange(
            pos + 9 + klen + 8,
            pos + 9 + klen + 8 + vlen,
        ));
    } else {
        assert(de.subrange(pos + 9, pos + 9 + klen) =~= d.subrange(pos + 9, pos + 9 + klen));
    }
}

/// Append `src` whole to `out`.
pub fn append_bytes(out: &mut Vec<u8>, src: &Vec<u8>)
    ensures
        final(out)@ == old(out)@ + src@,
{
    let n = src.len();
    let mut i: usize = 0;
    while i < n
        invariant
            n == src@.len(),
            i <= n,
            out@ == old(out)@ + src@.subrange(0, i as int),
        decreases n - i,
    {
        out.push(src[i]);
        proof {
            assert(out@ =~= old(out)@ + src@.subrange(0, i + 1 as int));
        }
        i = i + 1;
    }
    proof {
        assert(src@.subrange(0, n as int) =~= src@);
    }
}

/// Copy `len` bytes starting at `pos` out of `data`.
pub fn copy_range(data: &Vec<u8>, pos: usize, len: usize) -> (r: Vec<u8>)
    requires
        pos + len <= data@.len(),
    ensures
        r@ == data@.subrange(pos as int, pos as int + len as int),
{
    let n = data.len();
    let mut out: Vec<u8> = Vec::new();
    let mut i: usize = 0;
    while i < len
        invariant
            n == data@.len(),
            pos + len <= data@.len(),
            i <= len,
            out@ == data@.subrange(pos as int, pos as int + i as int),
        decreases len - i,
    {
        out.push(data[pos + i]);
        proof {
            assert(out@ =~= data@.subrange(pos as int, pos as int + (i + 1) as int));
        }
        i = i + 1;
    }
    out
}

/// Append the encoding of `rec` to `out`, returning how many bytes were written.
pub fn record_append(out: &mut Vec<u8>, rec: &Record) -> (n: usize)
    ensures
        final(out)@ == old(out)@ + rec_enc(rec@),
        n == rec_enc(rec@).len(),
{
    let start = out.len();
    match rec {
        Record::Put { key, value } => {
            out.push(0u8);
            u64_write_be(out, key.len() as u64);
            append_bytes(out, key);
            u64_write_be(out, value.len() as u64);
            append_bytes(out, value);
            proof {
                assert(out@ =~= old(out)@ + rec_enc(rec@));
            }
        },
        Record::Remove { key } => {
            out.push(1u8);
            u64_write_be(out, key.len() as u64);
            append_bytes(out, key);
            proof {
                assert(out@ =~= old(out)@ + rec_enc(rec@));
            }
        },
    }
    out.len() - start
}

/// Decode the record at `pos`, as `rec_dec_at` describes.
pub fn record_read_at(data: &Vec<u8>, pos: usize) -> (r: Option<(Record, usize)>)
    ensures
        match r {
            Some((rec, n)) => rec_dec_at(data@, pos as int) == Some((rec@, n as int)),
            None => rec_dec_at(data@, pos as int) is None,
        },
{
    let len = data.len();
    if len < 9 || pos > len - 9 {
        return None;
    }
    let tag = data[pos];
    let klen64 = u64_read_be(data, pos + 1);
    let remaining = (len - pos - 9) as u64;
    if tag == 0u8 {
        if klen64 > remaining {
            return None;
        }
        let klen = klen64 as usize;
        let key = copy_range(data, pos + 9, klen);
        if 8 > remaining - klen64 {
            return None;
        }
        let vlen64 = u64_read_be(data, pos + 9 + klen);
        if vlen64 > remaining - klen64 - 8 {
            return None;
        }
        let vlen = vlen64 as usize;
        let value = copy_range(data, pos + 9 + klen + 8, vlen);
        let next = pos + 9 + klen + 8 + vlen;
        Some((Record::Put { key, value }, next))
    } else if tag == 1u8 {
        if klen64 > remaining {
            return None;
        }
        let klen = klen64 as usize;
        let key = copy_range(data, pos + 9, klen);
        Some((Record::Remove { key }, pos + 9 + klen))
    } else {
        None
    }
}

/// A record decoded at `pos` decodes the same way from the slice that
/// holds exactly its bytes.
pub proof fn lemma_dec_slice(d: Seq<u8>, pos: int, r: RecModel, n: int)
    requires
        rec_dec_at(d, pos) == Some((r, n)),
    ensures
        rec_dec_at(d.subrange(pos, n), 0) == Some((r, n - pos)),
{
    let s = d.subrange(pos, n);
    let klen = be_val8(d.subrange(pos + 1, pos + 9)) as int;
    assert(s[0] == d[pos]);
    assert(s.subrange(1, 9) =~= d.subrange(pos + 1, pos + 9));
    if d[pos] == 0u8 {
        let vlen = be_val8(d.subrange(pos + 9 + klen, pos + 9 + klen + 8)) as int;
        assert(n == pos + 9 + klen + 8 + vlen);
        assert(s.subrange(9, 9 + klen) =~= d.subrange(pos + 9, pos + 9 + klen));
        assert(s.subrange(9 + klen, 9 + klen + 8) =~= d.subrange(
            pos + 9 + klen,
            pos + 9 + klen + 8,
        ));
        assert(s.subrange(9 + klen + 8, 9 + klen + 8 + vlen) =~= d.subrange(
            pos + 9 + klen + 8,
            pos + 9 + klen + 8 + vlen,
        ));
    } else {
        assert(n == pos + 9 + klen);
        assert(s.subrange(9, 9 + klen) =~= d.subrange(pos + 9, pos + 9 + klen));
    }
}

/// The other direction: any 8 bytes are the encoding of the value they
/// denote.
pub proof fn lemma_be_roundtrip2(s: Seq<u8>)
    requires
        s.len() == 8,
    ensures
        u64_be(be_val8(s)) == s,
{
    let b0 = s[0] as u64;
    let b1 = s[1] as u64;
    let b2 = s[2] as u64;
    let b3 = s[3] as u64;
    let b4 = s[4] as u64;
    let b5 = s[5] as u64;
    let b6 = s[6] as u64;
    let b7 = s[7] as u64;
    let x = be_val8(s);
    assert(x == ((b0 << 56) | (b1 << 48) | (b2 << 40) | (b3 << 32) | (b4 << 24) | (b5 << 16) | (b6
        << 8) | b7) as u64);
    assert(b0 < 256 && b1 < 256 && b2 < 256 && b3 < 256 && b4 < 256 && b5 < 256 && b6 < 256 && b7
        < 256 ==> ((((b0 << 56) | (b1 << 48) | (b2 << 40) | (b3 << 32) | (b4 << 24) | (b5 << 16) | (
    b6 << 8) | b7) >> 56) & 0xff == b0 && (((b0 << 56) | (b1 << 48) | (b2 << 40) | (b3 << 32) | (b4
        << 24) | (b5 << 16) | (b6 << 8) | b7) >> 48) & 0xff == b1 && (((b0 << 56) | (b1 << 48) | (b2
        << 40) | (b3 << 32) | (b4 << 24) | (b5 << 16) | (b6 << 8) | b7) >> 40) & 0xff == b2 && (((b0
        << 56) | (b1 << 48) | (b2 << 40) | (b3 << 32) | (b4 << 24) | (b5 << 16) | (b6 << 8) | b7)
        >> 32) & 0xff == b3 && (((b0 << 56) | (b1 << 48) | (b2 << 40) | (b3 << 32) | (b4 << 24) | (
    b5 << 16) | (b6 << 8) | b7) >> 24) & 0xff == b4 && (((b0 << 56) | (b1 << 48) | (b2 << 40) | (b3
        << 32) | (b4 << 24) | (b5 << 16) | (b6 << 8) | b7) >> 16) & 0xff == b5 && (((b0 << 56) | (b1
        << 48) | (b2 << 40) | (b3 << 32) | (b4 << 24) | (b5 << 16) | (b6 << 8) | b7) >> 8) & 0xff
        == b6 && (((b0 << 56) | (b1 << 48) | (b2 << 40) | (b3 << 32) | (b4 << 24) | (b5 << 16) | (b6
        << 8) | b7) >> 0) & 0xff == b7)) by (bit_vector);
    assert forall|i: int| 0 <= i < 8 implies u64_be(x)[i] == s[i] by {
        assert(u64_be(x)[i] == be_byte(x, i));
        if i == 0 {
            assert(be_byte(x, 0) == ((x >> 56) & 0xff) as u8);
        } else if i == 1 {
            assert(be_byte(x, 1) == ((x >> 48) & 0xff) as u8);
        } else if i == 2 {
            assert(be_byte(x, 2) == ((x >> 40) & 0xff) as u8);
        } else if i == 3 {
            assert(be_byte(x, 3) == ((x >> 32) & 0xff) as u8);
        } else if i == 4 {
            assert(be_byte(x, 4) == ((x >> 24) & 0xff) as u8);
        } else if i == 5 {
            assert(be_byte(x, 5) == ((x >> 16) & 0xff) as u8);
        } else if i == 6 {
            assert(be_byte(x, 6) == ((x >> 8) & 0xff) as u8);
        } else {
            assert(be_byte(x, 7) == ((x >> 0) & 0xff) as u8);
        }
    }
    assert(u64_be(x) =~= s);
}

} // verus!
