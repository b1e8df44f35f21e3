//! Bit-exact byte layouts of output points, ordinal ranges and satpoints.
use vstd::prelude::*;

use crate::error::IndexError;

verus! {

/// Number of bytes of one encoded ordinal range.
pub const RANGE_BYTES: usize = 11;

/// Number of bytes of an encoded output point.
pub const OUTPOINT_BYTES: usize = 36;

/// Number of bytes of an encoded satpoint.
pub const SATPOINT_BYTES: usize = 44;

/// Bit position where the length field of an encoded range starts.
pub const BASE_BITS: u64 = 51;

/// `2^51`: every range base is below it.
pub const BASE_LIMIT: u64 = 0x8_0000_0000_0000;

/// `2^21`: every range length is below it; the bits of an encoded range from bit 72 on are zero.
pub const LENGTH_LIMIT: u64 = 0x20_0000;

/// `256^k`.
pub open spec fn radix(k: nat) -> nat
    decreases k,
{
    if k == 0 {
        1
    } else {
        256 * radix((k - 1) as nat)
    }
}

/// The `k` low bytes of `n`, least significant first.
pub open spec fn le_bytes(n: nat, k: nat) -> Seq<u8>
    decreases k,
{
    if k == 0 {
        Seq::empty()
    } else {
        seq![(n % 256) as u8] + le_bytes(n / 256, (k - 1) as nat)
    }
}

/// The number whose little-endian bytes are `s`.
pub open spec fn le_value(s: Seq<u8>) -> nat
    decreases s.len(),
{
    if s.len() == 0 {
        0
    } else {
        s[0] as nat + 256 * le_value(s.drop_first())
    }
}

pub proof fn lemma_radix_positive(k: nat)
    ensures
        radix(k) > 0,
    decreases k,
{
    if k > 0 {
        lemma_radix_positive((k - 1) as nat);
    }
}

pub proof fn lemma_le_bytes_len(n: nat, k: nat)
    ensures
        le_bytes(n, k).len() == k,
    decreases k,
{
    if k > 0 {
        lemma_le_bytes_len(n / 256, (k - 1) as nat);
    }
}

/// Reading back `k` bytes of `n` gives `n` modulo `256^k`.
pub proof fn lemma_le_round_trip(n: nat, k: nat)
    ensures
        le_value(le_bytes(n, k)) == n % radix(k),
    decreases k,
{
    if k == 0 {
        assert(le_bytes(n, k) =~= Seq::<u8>::empty());
    } else {
        let k1 = (k - 1) as nat;
        lemma_le_round_trip(n / 256, k1);
        lemma_radix_positive(k1);
        let s = le_bytes(n, k);
        assert(s.drop_first() =~= le_bytes(n / 256, k1));
        assert((n % 256) as u8 as nat == n % 256);
        vstd::arithmetic::div_mod::lemma_mod_breakdown(n as int, 256, radix(k1) as int);
    }
}

/// A byte string read as a number is below `256^len`.
pub proof fn lemma_le_value_bound(s: Seq<u8>)
    ensures
        le_value(s) < radix(s.len()),
    decreases s.len(),
{
    if s.len() > 0 {
        lemma_le_value_bound(s.drop_first());
        assert(le_value(s) <= 255 + 256 * (radix((s.len() - 1) as nat) - 1));
    }
}

/// Writing back the value of a byte string gives the same bytes.
pub proof fn lemma_le_value_bytes(s: Seq<u8>)
    ensures
        le_bytes(le_value(s), s.len()) == s,
    decreases s.len(),
{
    if s.len() > 0 {
        lemma_le_value_bytes(s.drop_first());
        let v = le_value(s);
        assert(v % 256 == s[0] as nat);
        assert(v / 256 == le_value(s.drop_first()));
        assert(le_bytes(v, s.len()) =~= s);
    }
}


/// Appends the `k` low bytes of `n`, least significant first.
pub fn push_le(out: &mut Vec<u8>, n: u128, k: usize)
    requires
        k <= 16,
    ensures
        final(out)@ == old(out)@ + le_bytes(n as nat, k as nat),
{
    let mut x: u128 = n;
    let mut i: usize = 0;
    while i < k
        invariant
            i <= k,
            out@ + le_bytes(x as nat, (k - i) as nat) == old(out)@ + le_bytes(n as nat, k as nat),
        decreases k - i,
    {
        let ghost before = out@;
        let ghost rest = le_bytes(x as nat, (k - i) as nat);
        assert(rest == seq![(x as nat % 256) as u8] + le_bytes(x as nat / 256, (k - i - 1) as nat));
        out.push((x % 256) as u8);
        x = x / 256;
        i = i + 1;
        assert(before + rest =~= out@ + le_bytes(x as nat, (k - i) as nat));
    }
}

/// Reads `k` bytes starting at `start` as a little-endian number.
pub fn read_le(bytes: &[u8], start: usize, k: usize) -> (r: u128)
    requires
        k <= 16,
        start + k <= bytes.len(),
    ensures
        r as nat == le_value(bytes@.subrange(start as int, start + k)),
{
    let mut acc: u128 = 0;
    let mut i: usize = k;
    while i > 0
        invariant
            i <= k,
            k <= 16,
            start + k <= bytes.len(),
            acc as nat == le_value(bytes@.subrange(start + i, start + k)),
        decreases i,
    {
        let ghost tail = bytes@.subrange(start + i, start + k);
        let ghost s = bytes@.subrange(start + i - 1, start + k);
        assert(s.drop_first() =~= tail);
        proof {
            lemma_le_value_bound(tail);
            lemma_radix_mono((k - i) as nat, 15);
            lemma_radix_values();
        }
        acc = acc * 256 + bytes[start + i - 1] as u128;
        i = i - 1;
    }
    acc
}

/// `256^k` grows with `k`.
pub proof fn lemma_radix_mono(a: nat, b: nat)
    requires
        a <= b,
    ensures
        radix(a) <= radix(b),
    decreases b - a,
{
    if a < b {
        lemma_radix_mono(a, (b - 1) as nat);
        lemma_radix_positive((b - 1) as nat);
    }
}

/// The powers of 256 that the layouts use.
pub proof fn lemma_radix_values()
    ensures
        radix(4) == 0x1_0000_0000,
        radix(8) == 0x1_0000_0000_0000_0000,
        radix(11) == 0x100_0000_0000_0000_0000_0000,
        radix(15) == 1329227995784915872903807060280344576,
{
    assert(radix(0) == 1);
    assert(radix(1) == 256) by { assert(radix(1) == 256 * radix(0)); }
    assert(radix(2) == 65536) by { assert(radix(2) == 256 * radix(1)); }
    assert(radix(3) == 16777216) by { assert(radix(3) == 256 * radix(2)); }
    assert(radix(4) == 4294967296) by { assert(radix(4) == 256 * radix(3)); }
    assert(radix(5) == 1099511627776) by { assert(radix(5) == 256 * radix(4)); }
    assert(radix(6) == 281474976710656) by { assert(radix(6) == 256 * radix(5)); }
    assert(radix(7) == 72057594037927936) by { assert(radix(7) == 256 * radix(6)); }
    assert(radix(8) == 18446744073709551616) by { assert(radix(8) == 256 * radix(7)); }
    assert(radix(9) == 4722366482869645213696) by { assert(radix(9) == 256 * radix(8)); }
    assert(radix(10) == 1208925819614629174706176) by { assert(radix(10) == 256 * radix(9)); }
    assert(radix(11) == 309485009821345068724781056) by { assert(radix(11) == 256 * radix(10)); }
    assert(radix(12) == 79228162514264337593543950336) by { assert(radix(12) == 256 * radix(11)); }
    assert(radix(13) == 20282409603651670423947251286016) by { assert(radix(13) == 256 * radix(12)); }
    assert(radix(14) == 5192296858534827628530496329220096) by { assert(radix(14) == 256 * radix(13)); }
    assert(radix(15) == 1329227995784915872903807060280344576) by { assert(radix(15) == 256 * radix(14)); }
}


/// A transaction output: the id of its transaction and its index there.
#[derive(Clone, Copy, Debug, PartialEq, Eq)]
pub struct OutPoint {
    pub txid: [u8; 32],
    pub vout: u32,
}

/// A position inside an output: its output point and an offset in units.
#[derive(Clone, Copy, Debug, PartialEq, Eq)]
pub struct SatPoint {
    pub outpoint: OutPoint,
    pub offset: u64,
}

/// The 36 bytes of an output point: the id, then the index in little-endian order.
pub open spec fn outpoint_bytes(txid: Seq<u8>, vout: u32) -> Seq<u8> {
    txid + le_bytes(vout as nat, 4)
}

/// The 44 bytes of a satpoint: the output point, then the offset in little-endian order.
pub open spec fn satpoint_bytes(outpoint: Seq<u8>, offset: u64) -> Seq<u8> {
    outpoint + le_bytes(offset as nat, 8)
}

/// Whether `[base, end)` fits the encoding of a range.
pub open spec fn range_encodable(base: u64, end: u64) -> bool {
    base <= end && base < BASE_LIMIT && end - base < LENGTH_LIMIT
}

/// The number that the 11 bytes of `[base, end)` hold: the base, then the length from bit 51 on.
pub open spec fn range_number(base: u64, end: u64) -> nat {
    (base + (end - base) * BASE_LIMIT) as nat
}

/// The 11 bytes of the range `[base, end)`.
pub open spec fn range_bytes(base: u64, end: u64) -> Seq<u8> {
    le_bytes(range_number(base, end), 11)
}

/// The range that 11 bytes hold: the base is the low 51 bits, the length the rest.
pub open spec fn range_of_bytes(b: Seq<u8>) -> (u64, u64) {
    let n = le_value(b);
    let base = n % (BASE_LIMIT as nat);
    (base as u64, (base + n / (BASE_LIMIT as nat)) as u64)
}

/// The 36 bytes of an output point.
pub fn encode_outpoint(outpoint: OutPoint) -> (r: Vec<u8>)
    ensures
        r@ == outpoint_bytes(outpoint.txid@, outpoint.vout),
        r@.len() == OUTPOINT_BYTES,
{
    let mut r: Vec<u8> = Vec::new();
    let mut i: usize = 0;
    while i < 32
        invariant
            i <= 32,
            r@ == outpoint.txid@.subrange(0, i as int),
        decreases 32 - i,
    {
        r.push(outpoint.txid[i]);
        i = i + 1;
        assert(r@ =~= outpoint.txid@.subrange(0, i as int));
    }
    assert(outpoint.txid@.subrange(0, 32) =~= outpoint.txid@);
    push_le(&mut r, outpoint.vout as u128, 4);
    proof {
        lemma_le_bytes_len(outpoint.vout as nat, 4);
    }
    r
}

/// The output point that 36 bytes hold.
pub fn decode_outpoint(b: &[u8]) -> (r: OutPoint)
    requires
        b@.len() == OUTPOINT_BYTES,
    ensures
        r.txid@ == b@.subrange(0, 32),
        r.vout as nat == le_value(b@.subrange(32, 36)),
{
    let mut txid: [u8; 32] = [0u8; 32];
    let mut i: usize = 0;
    while i < 32
        invariant
            i <= 32,
            b@.len() == OUTPOINT_BYTES,
            txid@.len() == 32,
            forall|j: int| 0 <= j < i ==> txid@[j] == b@[j],
        decreases 32 - i,
    {
        txid[i] = b[i];
        i = i + 1;
    }
    assert(txid@ =~= b@.subrange(0, 32));
    proof {
        lemma_le_value_bound(b@.subrange(32, 36));
        lemma_radix_values();
    }
    let vout = read_le(b, 32, 4) as u32;
    OutPoint { txid, vout }
}

/// The 44 bytes of a satpoint.
pub fn encode_satpoint(satpoint: SatPoint) -> (r: Vec<u8>)
    ensures
        r@ == satpoint_bytes(outpoint_bytes(satpoint.outpoint.txid@, satpoint.outpoint.vout), satpoint.offset),
        r@.len() == SATPOINT_BYTES,
{
    let mut r = encode_outpoint(satpoint.outpoint);
    push_le(&mut r, satpoint.offset as u128, 8);
    proof {
        lemma_le_bytes_len(satpoint.offset as nat, 8);
    }
    r
}

/// The satpoint that 44 bytes hold.
pub fn decode_satpoint(b: &[u8]) -> (r: SatPoint)
    requires
        b@.len() == SATPOINT_BYTES,
    ensures
        r.outpoint.txid@ == b@.subrange(0, 32),
        r.outpoint.vout as nat == le_value(b@.subrange(32, 36)),
        r.offset as nat == le_value(b@.subrange(36, 44)),
{
    let outpoint = decode_outpoint(&b[0..36]);
    proof {
        assert(b@.subrange(0, 36).subrange(0, 32) =~= b@.subrange(0, 32));
        assert(b@.subrange(0, 36).subrange(32, 36) =~= b@.subrange(32, 36));
        lemma_le_value_bound(b@.subrange(36, 44));
        lemma_radix_values();
    }
    let offset = read_le(b, 36, 8) as u64;
    SatPoint { outpoint, offset }
}

/// Appends the 11 bytes of `[base, end)`, or fails where the range does not fit them.
pub fn push_range(out: &mut Vec<u8>, base: u64, end: u64) -> (r: Result<(), IndexError>)
    ensures
        r is Ok <==> range_encodable(base, end),
        r is Ok ==> final(out)@ == old(out)@ + range_bytes(base, end),
        r is Err ==> r == Err::<(), IndexError>(IndexError::DomainEncode) && final(out)@ == old(out)@,
{
    if base > end || base >= BASE_LIMIT || end - base >= LENGTH_LIMIT {
        return Err(IndexError::DomainEncode);
    }
    let len: u64 = end - base;
    assert(len as u128 * BASE_LIMIT as u128 <= 0x1f_ffff * 0x8_0000_0000_0000) by (nonlinear_arith)
        requires
            len < LENGTH_LIMIT,
    ;
    let n: u128 = base as u128 + len as u128 * BASE_LIMIT as u128;
    push_le(out, n, 11);
    Ok(())
}

/// The 11 bytes of `[base, end)`, or `DomainEncode` where the range does not fit them.
pub fn encode_range(base: u64, end: u64) -> (r: Result<Vec<u8>, IndexError>)
    ensures
        r is Ok <==> range_encodable(base, end),
        r matches Ok(b) ==> b@ == range_bytes(base, end),
        r is Err ==> r == Err::<Vec<u8>, IndexError>(IndexError::DomainEncode),
{
    let mut out: Vec<u8> = Vec::new();
    match push_range(&mut out, base, end) {
        Ok(()) => {
            assert(out@ =~= range_bytes(base, end));
            Ok(out)
        },
        Err(e) => Err(e),
    }
}

/// Whether the 11 bytes `s` of a range have their unused bits, from bit 72 on, zero.
pub open spec fn range_bytes_valid(s: Seq<u8>) -> bool {
    s[9] == 0 && s[10] == 0
}

/// A byte string read as a number: its first `k` bytes, then the rest above them.
pub proof fn lemma_le_value_split(s: Seq<u8>, k: nat)
    requires
        k <= s.len(),
    ensures
        le_value(s) == le_value(s.subrange(0, k as int)) + radix(k) * le_value(s.subrange(k as int, s.len() as int)),
    decreases k,
{
    if k == 0 {
        assert(s.subrange(0, 0) =~= Seq::<u8>::empty());
        assert(s.subrange(0, s.len() as int) =~= s);
        assert(le_value(Seq::<u8>::empty()) == 0);
        assert(radix(0) == 1);
    } else {
        let d = s.drop_first();
        lemma_le_value_split(d, (k - 1) as nat);
        assert(d.subrange(0, k - 1) =~= s.subrange(0, k as int).drop_first());
        assert(d.subrange(k - 1, d.len() as int) =~= s.subrange(k as int, s.len() as int));
        let rest = le_value(s.subrange(k as int, s.len() as int));
        let pre = s.subrange(0, k as int);
        assert(le_value(pre) == pre[0] as nat + 256 * le_value(pre.drop_first()));
        assert(pre[0] == s[0]);
        let low_tail = le_value(d.subrange(0, k - 1));
        let r1 = radix((k - 1) as nat);
        assert(radix(k) == 256 * r1);
        assert(le_value(s) == s[0] as nat + 256 * le_value(d));
        assert(s[0] as nat + 256 * (low_tail + r1 * rest) == (s[0] as nat + 256 * low_tail) + (256 * r1) * rest)
            by (nonlinear_arith);
    }
}

/// The 11 bytes of a range with its unused bits zero hold a number below `2^72`.
proof fn lemma_valid_range_value(s: Seq<u8>)
    requires
        s.len() == RANGE_BYTES,
    ensures
        range_bytes_valid(s) ==> le_value(s) < 0x1_0000_0000_0000_0000_00,
        le_value(s) < 0x1_0000_0000_0000_0000_00 ==> range_bytes_valid(s),
{
    lemma_le_value_split(s, 9);
    lemma_radix_values();
    let lo = s.subrange(0, 9);
    let hi = s.subrange(9, 11);
    lemma_le_value_bound(lo);
    assert(lo.len() == 9);
    assert(le_value(lo) < radix(9));
    assert(radix(9) == 0x1_0000_0000_0000_0000_00) by {
        assert(radix(11) == 256 * (256 * radix(9)));
    }
    assert(hi.drop_first().drop_first() =~= Seq::<u8>::empty());
    assert(le_value(hi.drop_first().drop_first()) == 0);
    assert(le_value(hi.drop_first()) == hi.drop_first()[0] as nat + 256 * le_value(hi.drop_first().drop_first()));
    assert(le_value(hi) == hi[0] as nat + 256 * le_value(hi.drop_first()));
    assert(hi[0] == s[9] && hi.drop_first()[0] == s[10]);
    assert(le_value(s) == le_value(lo) + 0x1_0000_0000_0000_0000_00 * le_value(hi));
}

/// The range `[base, end)` that the 11 bytes at `start` hold; their unused bits must be zero.
pub fn decode_range(b: &[u8], start: usize) -> (r: (u64, u64))
    requires
        start + RANGE_BYTES <= b.len(),
        range_bytes_valid(b@.subrange(start as int, start + RANGE_BYTES)),
    ensures
        r == range_of_bytes(b@.subrange(start as int, start + RANGE_BYTES)),
        r.0 <= r.1,
        r.0 < BASE_LIMIT,
        r.1 - r.0 < LENGTH_LIMIT,
{
    let ghost s = b@.subrange(start as int, start + RANGE_BYTES);
    proof {
        lemma_valid_range_value(s);
    }
    let n = read_le(b, start, RANGE_BYTES);
    assert(n < 0x1_0000_0000_0000_0000_00);
    let base = (n % BASE_LIMIT as u128) as u64;
    assert(n / 0x8_0000_0000_0000 < 0x20_0000) by (nonlinear_arith)
        requires
            n < 0x1_0000_0000_0000_0000_00,
    ;
    let len = (n / BASE_LIMIT as u128) as u64;
    (base, base + len)
}


/// Decoding the bytes of an encodable range gives the range back.
pub proof fn lemma_range_round_trip(base: u64, end: u64)
    requires
        range_encodable(base, end),
    ensures
        range_of_bytes(range_bytes(base, end)) == (base, end),
        range_bytes(base, end).len() == RANGE_BYTES,
        range_bytes_valid(range_bytes(base, end)),
{
    let len = (end - base) as nat;
    let n = range_number(base, end);
    lemma_radix_values();
    lemma_le_bytes_len(n, 11);
    assert(n < 0x100_0000_0000_0000_0000_0000) by (nonlinear_arith)
        requires
            n == base + len * 0x8_0000_0000_0000,
            base < 0x8_0000_0000_0000,
            len < 0x20_0000,
    ;
    assert(n < 0x1_0000_0000_0000_0000_00) by (nonlinear_arith)
        requires
            n == base + len * 0x8_0000_0000_0000,
            base < 0x8_0000_0000_0000,
            len < 0x20_0000,
    ;
    lemma_le_round_trip(n, 11);
    vstd::arithmetic::div_mod::lemma_small_mod(n, radix(11));
    vstd::arithmetic::div_mod::lemma_fundamental_div_mod_converse(
        n as int,
        BASE_LIMIT as int,
        len as int,
        base as int,
    );
    lemma_valid_range_value(range_bytes(base, end));
}

/// Decoding the bytes of an output point gives its id and index back.
pub proof fn lemma_outpoint_round_trip(txid: Seq<u8>, vout: u32)
    requires
        txid.len() == 32,
    ensures
        outpoint_bytes(txid, vout).len() == OUTPOINT_BYTES,
        outpoint_bytes(txid, vout).subrange(0, 32) == txid,
        le_value(outpoint_bytes(txid, vout).subrange(32, 36)) == vout as nat,
{
    let b = outpoint_bytes(txid, vout);
    lemma_le_bytes_len(vout as nat, 4);
    assert(b.subrange(0, 32) =~= txid);
    assert(b.subrange(32, 36) =~= le_bytes(vout as nat, 4));
    lemma_le_round_trip(vout as nat, 4);
    lemma_radix_values();
}

/// Decoding the bytes of a satpoint gives its output point and offset back.
pub proof fn lemma_satpoint_round_trip(txid: Seq<u8>, vout: u32, offset: u64)
    requires
        txid.len() == 32,
    ensures
        satpoint_bytes(outpoint_bytes(txid, vout), offset).len() == SATPOINT_BYTES,
        satpoint_bytes(outpoint_bytes(txid, vout), offset).subrange(0, 32) == txid,
        le_value(satpoint_bytes(outpoint_bytes(txid, vout), offset).subrange(32, 36)) == vout as nat,
        le_value(satpoint_bytes(outpoint_bytes(txid, vout), offset).subrange(36, 44)) == offset as nat,
{
    let o = outpoint_bytes(txid, vout);
    let b = satpoint_bytes(o, offset);
    lemma_outpoint_round_trip(txid, vout);
    lemma_le_bytes_len(offset as nat, 8);
    assert(b.subrange(0, 32) =~= o.subrange(0, 32));
    assert(b.subrange(32, 36) =~= o.subrange(32, 36));
    assert(b.subrange(36, 44) =~= le_bytes(offset as nat, 8));
    lemma_le_round_trip(offset as nat, 8);
    lemma_radix_values();
}

/// Encoding the output point that 36 bytes hold gives the same bytes.
pub proof fn lemma_outpoint_bytes_round_trip(b: Seq<u8>)
    requires
        b.len() == OUTPOINT_BYTES,
    ensures
        le_value(b.subrange(32, 36)) < 0x1_0000_0000,
        outpoint_bytes(b.subrange(0, 32), le_value(b.subrange(32, 36)) as u32) == b,
{
    let t = b.subrange(32, 36);
    lemma_le_value_bound(t);
    lemma_radix_values();
    lemma_le_value_bytes(t);
    assert(b =~= b.subrange(0, 32) + t);
}

} // verus!
