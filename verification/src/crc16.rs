use vstd::prelude::*;

verus! {

// ---------------------------------------------------------------------------
// The CRC-16/MODBUS function (reflected polynomial 0xA001, initial value 0xFFFF)
// ---------------------------------------------------------------------------

/// One bit step of the reflected CRC-16/MODBUS shift register.
pub open spec fn crc_shift(c: u16) -> u16 {
    if c & 1 == 1 {
        (c >> 1) ^ 0xa001
    } else {
        c >> 1
    }
}

/// `n` bit steps of the shift register.
pub open spec fn crc_shifts(c: u16, n: nat) -> u16
    decreases n,
{
    if n == 0 {
        c
    } else {
        crc_shifts(crc_shift(c), (n - 1) as nat)
    }
}

/// The register after one more byte.
pub open spec fn crc_byte(c: u16, b: u8) -> u16 {
    crc_shifts(c ^ (b as u16), 8)
}

/// The register after feeding the bytes of `s`, first to last, starting from `c`.
pub open spec fn crc_update(c: u16, s: Seq<u8>) -> u16
    decreases s.len(),
{
    if s.len() == 0 {
        c
    } else {
        crc_byte(crc_update(c, s.drop_last()), s.last())
    }
}

/// CRC-16/MODBUS of a byte sequence.
pub open spec fn crc16_spec(s: Seq<u8>) -> u16 {
    crc_update(0xffff, s)
}

// ---------------------------------------------------------------------------
// Skipped ranges
// ---------------------------------------------------------------------------

/// Index `i` lies in one of the ranges `(offset, len)` of `skips`.
pub open spec fn skipped(skips: Seq<(usize, usize)>, i: int) -> bool {
    exists|k: int| #![trigger skips[k]] 0 <= k < skips.len() && skips[k].0 <= i < skips[k].0 + skips[k].1
}

/// The bytes of `bytes`, in order, whose index `drop` does not reject.
pub open spec fn kept_where(bytes: Seq<u8>, drop: spec_fn(int) -> bool) -> Seq<u8>
    decreases bytes.len(),
{
    if bytes.len() == 0 {
        Seq::empty()
    } else {
        let rest = kept_where(bytes.drop_last(), drop);
        if drop(bytes.len() - 1) {
            rest
        } else {
            rest.push(bytes.last())
        }
    }
}

/// The bytes of `bytes`, in order, that lie in none of the ranges of `skips`:
/// the bytes that the checksum covers.
pub open spec fn checksummed_bytes(bytes: Seq<u8>, skips: Seq<(usize, usize)>) -> Seq<u8> {
    kept_where(bytes, |i: int| skipped(skips, i))
}

/// Half-open interval `(start, end)` of `ivs` holds index `i`.
pub open spec fn covered(ivs: Seq<(usize, usize)>, i: int) -> bool {
    exists|k: int| #![trigger ivs[k]] 0 <= k < ivs.len() && ivs[k].0 <= i < ivs[k].1
}

/// Each interval is non-empty.
pub open spec fn nonempty_intervals(ivs: Seq<(usize, usize)>) -> bool {
    forall|k: int| 0 <= k < ivs.len() ==> #[trigger] ivs[k].0 < ivs[k].1
}

/// Intervals in increasing order of start.
pub open spec fn sorted_by_start(ivs: Seq<(usize, usize)>) -> bool {
    forall|a: int, b: int| 0 <= a < b < ivs.len() ==> #[trigger] ivs[a].0 <= #[trigger] ivs[b].0
}

/// Intervals in increasing order, each ending strictly before the next starts.
pub open spec fn separated(ivs: Seq<(usize, usize)>) -> bool {
    forall|a: int, b: int| 0 <= a < b < ivs.len() ==> #[trigger] ivs[a].1 < #[trigger] ivs[b].0
}

// ---------------------------------------------------------------------------
// Lemmas
// ---------------------------------------------------------------------------

/// Feeding `s1 + s2` is feeding `s1`, then `s2`.
pub proof fn lemma_crc_update_concat(c: u16, s1: Seq<u8>, s2: Seq<u8>)
    ensures
        crc_update(c, s1 + s2) == crc_update(crc_update(c, s1), s2),
    decreases s2.len(),
{
    if s2.len() == 0 {
        assert(s1 + s2 =~= s1);
    } else {
        assert((s1 + s2).drop_last() =~= s1 + s2.drop_last());
        assert((s1 + s2).last() == s2.last());
        lemma_crc_update_concat(c, s1, s2.drop_last());
    }
}

/// The checksum of a sequence is the register after feeding it from 0xFFFF, with no
/// final transformation: the checksum of the empty sequence is 0xFFFF, and the checksum
/// of `s1 + s2` is the register after feeding `s2` on top of the checksum of `s1`.
pub proof fn lemma_crc16_incremental(s1: Seq<u8>, s2: Seq<u8>)
    ensures
        crc16_spec(Seq::empty()) == 0xffff,
        crc16_spec(s1 + s2) == crc_update(crc16_spec(s1), s2),
{
    lemma_crc_update_concat(0xffff, s1, s2);
}

/// Known answer of the standard check: "123456789" gives 0x4B37.
pub proof fn lemma_crc16_check_value()
    ensures
        crc16_spec(seq![0x31u8, 0x32, 0x33, 0x34, 0x35, 0x36, 0x37, 0x38, 0x39]) == 0x4b37,
{
    assert(crc_byte(0xffffu16, 0x31u8) == 0x947eu16) by (bit_vector);
    assert(crc_byte(0x947eu16, 0x32u8) == 0xf595u16) by (bit_vector);
    assert(crc_byte(0xf595u16, 0x33u8) == 0x7a75u16) by (bit_vector);
    assert(crc_byte(0x7a75u16, 0x34u8) == 0x30bau16) by (bit_vector);
    assert(crc_byte(0x30bau16, 0x35u8) == 0xa471u16) by (bit_vector);
    assert(crc_byte(0xa471u16, 0x36u8) == 0x32e4u16) by (bit_vector);
    assert(crc_byte(0x32e4u16, 0x37u8) == 0x9d73u16) by (bit_vector);
    assert(crc_byte(0x9d73u16, 0x38u8) == 0x37ddu16) by (bit_vector);
    assert(crc_byte(0x37ddu16, 0x39u8) == 0x4b37u16) by (bit_vector);
    let s = seq![0x31u8, 0x32, 0x33, 0x34, 0x35, 0x36, 0x37, 0x38, 0x39];
    reveal_with_fuel(crc_update, 10);
    assert(s.drop_last() =~= seq![0x31u8, 0x32, 0x33, 0x34, 0x35, 0x36, 0x37, 0x38]);
    assert(s.drop_last().drop_last() =~= seq![0x31u8, 0x32, 0x33, 0x34, 0x35, 0x36, 0x37]);
    assert(s.drop_last().drop_last().drop_last() =~= seq![0x31u8, 0x32, 0x33, 0x34, 0x35, 0x36]);
    assert(s.take(5) =~= seq![0x31u8, 0x32, 0x33, 0x34, 0x35]);
    assert(s.take(4) =~= seq![0x31u8, 0x32, 0x33, 0x34]);
    assert(s.take(3) =~= seq![0x31u8, 0x32, 0x33]);
    assert(s.take(2) =~= seq![0x31u8, 0x32]);
    assert(s.take(1) =~= seq![0x31u8]);
    assert(s.take(0) =~= Seq::<u8>::empty());
}

/// Extending a prefix by one index adds that byte unless it is dropped.
proof fn lemma_kept_step(bytes: Seq<u8>, drop: spec_fn(int) -> bool, n: int)
    requires
        0 <= n < bytes.len(),
    ensures
        kept_where(bytes.take(n + 1), drop) == (if drop(n) {
            kept_where(bytes.take(n), drop)
        } else {
            kept_where(bytes.take(n), drop).push(bytes[n])
        }),
{
    assert(bytes.take(n + 1).drop_last() =~= bytes.take(n));
}

/// Over a stretch `[a, b)` where nothing is dropped, the kept bytes grow by the stretch.
pub proof fn lemma_kept_plain(bytes: Seq<u8>, drop: spec_fn(int) -> bool, a: int, b: int)
    requires
        0 <= a <= b <= bytes.len(),
        forall|i: int| a <= i < b ==> !#[trigger] drop(i),
    ensures
        kept_where(bytes.take(b), drop) == kept_where(bytes.take(a), drop) + bytes.subrange(a, b),
    decreases b - a,
{
    if a == b {
        assert(bytes.subrange(a, b) =~= Seq::<u8>::empty());
        assert(kept_where(bytes.take(a), drop) + bytes.subrange(a, b) =~= kept_where(
            bytes.take(a),
            drop,
        ));
    } else {
        lemma_kept_plain(bytes, drop, a, b - 1);
        lemma_kept_step(bytes, drop, b - 1);
        assert(bytes.subrange(a, b) =~= bytes.subrange(a, b - 1).push(bytes[b - 1]));
        assert(kept_where(bytes.take(a), drop) + bytes.subrange(a, b) =~= (kept_where(
            bytes.take(a),
            drop,
        ) + bytes.subrange(a, b - 1)).push(bytes[b - 1]));
    }
}

/// Over a stretch `[a, b)` where everything is dropped, the kept bytes stay as they are.
pub proof fn lemma_kept_dropped(bytes: Seq<u8>, drop: spec_fn(int) -> bool, a: int, b: int)
    requires
        0 <= a <= b <= bytes.len(),
        forall|i: int| a <= i < b ==> #[trigger] drop(i),
    ensures
        kept_where(bytes.take(b), drop) == kept_where(bytes.take(a), drop),
    decreases b - a,
{
    if a < b {
        lemma_kept_dropped(bytes, drop, a, b - 1);
        lemma_kept_step(bytes, drop, b - 1);
    }
}

/// Two byte sequences of equal length that agree at every index that is not dropped,
/// under two drop predicates that agree on the indices, keep the same bytes.
pub proof fn lemma_kept_agree(
    b1: Seq<u8>,
    b2: Seq<u8>,
    d1: spec_fn(int) -> bool,
    d2: spec_fn(int) -> bool,
)
    requires
        b1.len() == b2.len(),
        forall|i: int| 0 <= i < b1.len() ==> #[trigger] d1(i) == d2(i),
        forall|i: int| 0 <= i < b1.len() && !d1(i) ==> #[trigger] b1[i] == b2[i],
    ensures
        kept_where(b1, d1) == kept_where(b2, d2),
    decreases b1.len(),
{
    if b1.len() > 0 {
        lemma_kept_agree(b1.drop_last(), b2.drop_last(), d1, d2);
    }
}

/// The checksum does not depend on the bytes inside the skip ranges: two blocks of equal
/// length that agree outside them have the same checksum.
pub proof fn lemma_checksum_ignores_skipped(b1: Seq<u8>, b2: Seq<u8>, skips: Seq<(usize, usize)>)
    requires
        b1.len() == b2.len(),
        forall|i: int| 0 <= i < b1.len() && !skipped(skips, i) ==> #[trigger] b1[i] == b2[i],
    ensures
        crc16_spec(checksummed_bytes(b1, skips)) == crc16_spec(checksummed_bytes(b2, skips)),
{
    let d = |i: int| skipped(skips, i);
    assert forall|i: int| 0 <= i < b1.len() && !d(i) implies #[trigger] b1[i] == b2[i] by {}
    lemma_kept_agree(b1, b2, d, d);
}

// ---------------------------------------------------------------------------
// Error detection
// ---------------------------------------------------------------------------

/// Byte-wise exclusive or of two sequences of equal length.
pub open spec fn seq_xor(a: Seq<u8>, b: Seq<u8>) -> Seq<u8> {
    Seq::new(a.len(), |i: int| a[i] ^ b[i])
}

proof fn lemma_shift_linear(a: u16, b: u16)
    ensures
        crc_shift(a ^ b) == crc_shift(a) ^ crc_shift(b),
        crc_shift(0) == 0,
        a != 0 ==> crc_shift(a) != 0,
{
    assert(((a ^ b) & 1 == 1 ==> (a & 1 == 1) != (b & 1 == 1)) && ((a ^ b) & 1 != 1 ==> (a & 1
        == 1) == (b & 1 == 1))) by (bit_vector);
    assert((a & 1 == 1 && b & 1 == 1) ==> ((a ^ b) >> 1) == ((a >> 1) ^ 0xa001) ^ ((b >> 1)
        ^ 0xa001)) by (bit_vector);
    assert((a & 1 == 1 && b & 1 != 1) ==> ((a ^ b) >> 1) ^ 0xa001 == ((a >> 1) ^ 0xa001) ^ (b
        >> 1)) by (bit_vector);
    assert((a & 1 != 1 && b & 1 == 1) ==> ((a ^ b) >> 1) ^ 0xa001 == (a >> 1) ^ ((b >> 1)
        ^ 0xa001)) by (bit_vector);
    assert((a & 1 != 1 && b & 1 != 1) ==> ((a ^ b) >> 1) == (a >> 1) ^ (b >> 1)) by (bit_vector);
    assert((0u16 & 1 != 1) && (0u16 >> 1) == 0) by (bit_vector);
    assert(a != 0 ==> ((a & 1 == 1 ==> (a >> 1) ^ 0xa001 != 0) && (a & 1 != 1 ==> a >> 1 != 0)))
        by (bit_vector);
}

proof fn lemma_shifts_linear(a: u16, b: u16, n: nat)
    ensures
        crc_shifts(a ^ b, n) == crc_shifts(a, n) ^ crc_shifts(b, n),
        crc_shifts(0, n) == 0,
        a != 0 ==> crc_shifts(a, n) != 0,
    decreases n,
{
    lemma_shift_linear(a, b);
    if n > 0 {
        lemma_shifts_linear(crc_shift(a), crc_shift(b), (n - 1) as nat);
        lemma_shifts_linear(0, 0, (n - 1) as nat);
    }
}

/// The CRC register is linear: feeding two inputs and combining the results by
/// exclusive or is feeding their combination.
pub proof fn lemma_crc_update_xor(c1: u16, s1: Seq<u8>, c2: u16, s2: Seq<u8>)
    requires
        s1.len() == s2.len(),
    ensures
        crc_update(c1, s1) ^ crc_update(c2, s2) == crc_update(c1 ^ c2, seq_xor(s1, s2)),
    decreases s1.len(),
{
    if s1.len() > 0 {
        let d = seq_xor(s1, s2);
        assert(d.drop_last() =~= seq_xor(s1.drop_last(), s2.drop_last()));
        lemma_crc_update_xor(c1, s1.drop_last(), c2, s2.drop_last());
        let r1 = crc_update(c1, s1.drop_last());
        let r2 = crc_update(c2, s2.drop_last());
        let x1 = s1.last();
        let x2 = s2.last();
        assert((r1 ^ (x1 as u16)) ^ (r2 ^ (x2 as u16)) == (r1 ^ r2) ^ ((x1 ^ x2) as u16))
            by (bit_vector);
        lemma_shifts_linear(r1 ^ (x1 as u16), r2 ^ (x2 as u16), 8);
    }
}

proof fn lemma_crc_zeros(c: u16, n: nat)
    ensures
        c == 0 ==> crc_update(c, Seq::new(n, |i: int| 0u8)) == 0,
        c != 0 ==> crc_update(c, Seq::new(n, |i: int| 0u8)) != 0,
    decreases n,
{
    if n > 0 {
        let z = Seq::new(n, |i: int| 0u8);
        assert(z.drop_last() =~= Seq::new((n - 1) as nat, |i: int| 0u8));
        lemma_crc_zeros(c, (n - 1) as nat);
        let r = crc_update(c, z.drop_last());
        assert(r ^ (0u8 as u16) == r) by (bit_vector);
        lemma_shifts_linear(r, r, 8);
    }
}

/// CRC-16/MODBUS detects every change of a single byte.
pub proof fn lemma_crc_detects_single_byte(c: u16, s: Seq<u8>, k: int, x: u8)
    requires
        0 <= k < s.len(),
        s[k] != x,
    ensures
        crc_update(c, s) != crc_update(c, s.update(k, x)),
{
    let t = s.update(k, x);
    lemma_crc_update_xor(c, s, c, t);
    let d = seq_xor(s, t);
    let delta = s[k] ^ x;
    let zk = Seq::new(k as nat, |i: int| 0u8);
    let zr = Seq::new((s.len() - k - 1) as nat, |i: int| 0u8);
    assert(d =~= zk.push(delta) + zr) by {
        assert forall|i: int| 0 <= i < d.len() implies d[i] == (zk.push(delta) + zr)[i] by {
            if i != k {
                assert(s[i] ^ t[i] == 0) by {
                    let a = s[i];
                    assert(a ^ a == 0) by (bit_vector);
                }
            }
        }
    }
    assert(c ^ c == 0) by (bit_vector);
    lemma_crc_update_concat(0, zk.push(delta), zr);
    assert(zk.push(delta).drop_last() =~= zk);
    lemma_crc_zeros(0, k as nat);
    let sx = s[k];
    assert(sx != x ==> sx ^ x != 0) by (bit_vector);
    assert(0u16 ^ (delta as u16) != 0) by (bit_vector)
        requires
            delta != 0,
    ;
    lemma_shifts_linear(0u16 ^ (delta as u16), 0, 8);
    lemma_crc_zeros(crc_byte(0, delta), (s.len() - k - 1) as nat);
    let a = crc_update(c, s);
    let b = crc_update(c, t);
    assert(a ^ b != 0 ==> a != b) by (bit_vector);
}

/// Changing one byte that the checksum covers changes exactly one of the checksummed
/// bytes; returns its position among them.
pub proof fn lemma_kept_single_change(
    b1: Seq<u8>,
    b2: Seq<u8>,
    drop: spec_fn(int) -> bool,
    j: int,
) -> (k: int)
    requires
        b1.len() == b2.len(),
        0 <= j < b1.len(),
        !drop(j),
        forall|i: int| 0 <= i < b1.len() && i != j ==> #[trigger] b1[i] == b2[i],
    ensures
        0 <= k < kept_where(b1, drop).len(),
        kept_where(b1, drop)[k] == b1[j],
        kept_where(b2, drop) == kept_where(b1, drop).update(k, b2[j]),
    decreases b1.len(),
{
    let n = b1.len() - 1;
    if j == n {
        lemma_kept_agree(b1.drop_last(), b2.drop_last(), drop, drop);
        let k = kept_where(b1.drop_last(), drop).len() as int;
        assert(kept_where(b2, drop) =~= kept_where(b1, drop).update(k, b2[j]));
        k
    } else {
        let k = lemma_kept_single_change(b1.drop_last(), b2.drop_last(), drop, j);
        assert(b1.last() == b2.last());
        assert(kept_where(b2, drop) =~= kept_where(b1, drop).update(k, b2[j]));
        k
    }
}

// ---------------------------------------------------------------------------
// Executable functions
// ---------------------------------------------------------------------------

/// With no skip ranges, the checksum covers every byte.
pub proof fn lemma_checksummed_no_skips(bytes: Seq<u8>)
    ensures
        checksummed_bytes(bytes, Seq::empty()) == bytes,
{
    let empty = Seq::<(usize, usize)>::empty();
    lemma_kept_agree(bytes, bytes, |i: int| skipped(empty, i), |i: int| false);
    lemma_kept_plain(bytes, |i: int| false, 0, bytes.len() as int);
    assert(bytes.take(0) =~= Seq::<u8>::empty());
    assert(bytes.take(bytes.len() as int) =~= bytes);
    assert(bytes.subrange(0, bytes.len() as int) =~= bytes);
    assert(Seq::<u8>::empty() + bytes =~= bytes);
}

/// CRC-16/MODBUS of `bytes`.
pub fn crc16_modbus(bytes: &[u8]) -> (crc: u16)
    ensures
        crc == crc16_spec(bytes@),
{
    let no_skips: Vec<(usize, usize)> = Vec::new();
    let crc = crc16_modbus_with_skips(bytes, no_skips.as_slice());
    proof {
        assert(no_skips@ =~= Seq::<(usize, usize)>::empty());
        lemma_checksummed_no_skips(bytes@);
    }
    crc
}

/// Feeds `bytes` into the CRC register `crc`.
fn crc16_modbus_update(crc: u16, bytes: &[u8]) -> (out: u16)
    ensures
        out == crc_update(crc, bytes@),
{
    let ghost init = crc;
    let mut crc = crc;
    let mut i: usize = 0;
    while i < bytes.len()
        invariant
            i <= bytes@.len(),
            crc == crc_update(init, bytes@.take(i as int)),
        decreases bytes@.len() - i,
    {
        proof {
            assert(bytes@.take(i + 1).drop_last() =~= bytes@.take(i as int));
        }
        let b = bytes[i];
        let ghost x = crc ^ (b as u16);
        crc = crc ^ (b as u16);
        let mut j: usize = 0;
        while j < 8
            invariant
                j <= 8,
                crc_shifts(crc, (8 - j) as nat) == crc_shifts(x, 8),
            decreases 8 - j,
        {
            if (crc & 1) == 1 {
                crc = (crc >> 1) ^ 0xa001;
            } else {
                crc = crc >> 1;
            }
            j = j + 1;
        }
        i = i + 1;
    }
    proof {
        assert(bytes@.take(i as int) =~= bytes@);
    }
    crc
}


// ---------------------------------------------------------------------------
// Interval bookkeeping for the skipped ranges
// ---------------------------------------------------------------------------

proof fn lemma_covered_push(ivs: Seq<(usize, usize)>, x: (usize, usize), i: int)
    ensures
        covered(ivs.push(x), i) <==> (covered(ivs, i) || (x.0 <= i < x.1)),
{
    let s = ivs.push(x);
    if covered(s, i) {
        let k = choose|k: int| #![trigger s[k]] 0 <= k < s.len() && s[k].0 <= i < s[k].1;
        if k < ivs.len() {
            assert(ivs[k] == s[k]);
        }
    }
    if covered(ivs, i) {
        let k = choose|k: int| #![trigger ivs[k]] 0 <= k < ivs.len() && ivs[k].0 <= i < ivs[k].1;
        assert(s[k] == ivs[k]);
    }
    if x.0 <= i < x.1 {
        assert(s[ivs.len() as int] == x);
    }
}

proof fn lemma_covered_insert(ivs: Seq<(usize, usize)>, p: int, x: (usize, usize), i: int)
    requires
        0 <= p <= ivs.len(),
    ensures
        covered(ivs.insert(p, x), i) <==> (covered(ivs, i) || (x.0 <= i < x.1)),
{
    let s = ivs.insert(p, x);
    if covered(s, i) {
        let k = choose|k: int| #![trigger s[k]] 0 <= k < s.len() && s[k].0 <= i < s[k].1;
        if k < p {
            assert(ivs[k] == s[k]);
        } else if k > p {
            assert(ivs[k - 1] == s[k]);
        }
    }
    if covered(ivs, i) {
        let k = choose|k: int| #![trigger ivs[k]] 0 <= k < ivs.len() && ivs[k].0 <= i < ivs[k].1;
        if k < p {
            assert(s[k] == ivs[k]);
        } else {
            assert(s[k + 1] == ivs[k]);
        }
    }
    if x.0 <= i < x.1 {
        assert(s[p] == x);
    }
}

proof fn lemma_skipped_take(skips: Seq<(usize, usize)>, k: int, i: int)
    requires
        0 <= k < skips.len(),
    ensures
        skipped(skips.take(k + 1), i) <==> (skipped(skips.take(k), i) || (skips[k].0 <= i
            < skips[k].0 + skips[k].1)),
{
    let a = skips.take(k);
    let b = skips.take(k + 1);
    if skipped(b, i) {
        let j = choose|j: int| #![trigger b[j]] 0 <= j < b.len() && b[j].0 <= i < b[j].0 + b[j].1;
        if j < k {
            assert(a[j] == b[j]);
        }
    }
    if skipped(a, i) {
        let j = choose|j: int| #![trigger a[j]] 0 <= j < a.len() && a[j].0 <= i < a[j].0 + a[j].1;
        assert(b[j] == a[j]);
    }
    if skips[k].0 <= i < skips[k].0 + skips[k].1 {
        assert(b[k] == skips[k]);
    }
}

/// The non-empty skip ranges as half-open intervals `(start, end)`, the end saturated.
fn nonempty_ranges(skips: &[(usize, usize)]) -> (out: Vec<(usize, usize)>)
    ensures
        nonempty_intervals(out@),
        forall|i: int| 0 <= i < usize::MAX ==> (covered(out@, i) <==> skipped(skips@, i)),
{
    let mut out: Vec<(usize, usize)> = Vec::new();
    let mut k: usize = 0;
    while k < skips.len()
        invariant
            k <= skips@.len(),
            nonempty_intervals(out@),
            forall|i: int|
                0 <= i < usize::MAX ==> (covered(out@, i) <==> skipped(skips@.take(k as int), i)),
        decreases skips@.len() - k,
    {
        let (start, len) = skips[k];
        let ghost before = out@;
        let end = start.saturating_add(len);
        if start < end {
            out.push((start, end));
        }
        proof {
            assert forall|i: int| 0 <= i < usize::MAX implies (covered(out@, i) <==> skipped(
                skips@.take(k + 1),
                i,
            )) by {
                lemma_skipped_take(skips@, k as int, i);
                if start < end {
                    lemma_covered_push(before, (start, end), i);
                }
            }
        }
        k = k + 1;
    }
    proof {
        assert(skips@.take(k as int) =~= skips@);
    }
    out
}

/// The intervals reordered by start.
fn sort_by_start(ranges: Vec<(usize, usize)>) -> (out: Vec<(usize, usize)>)
    requires
        nonempty_intervals(ranges@),
    ensures
        nonempty_intervals(out@),
        sorted_by_start(out@),
        forall|i: int| covered(out@, i) <==> covered(ranges@, i),
{
    let mut out: Vec<(usize, usize)> = Vec::new();
    let mut k: usize = 0;
    while k < ranges.len()
        invariant
            k <= ranges@.len(),
            nonempty_intervals(ranges@),
            nonempty_intervals(out@),
            sorted_by_start(out@),
            forall|i: int| covered(out@, i) <==> covered(ranges@.take(k as int), i),
        decreases ranges@.len() - k,
    {
        let x = ranges[k];
        let mut p: usize = 0;
        while p < out.len() && out[p].0 <= x.0
            invariant
                p <= out@.len(),
                forall|q: int| 0 <= q < p ==> #[trigger] out@[q].0 <= x.0,
            decreases out@.len() - p,
        {
            p = p + 1;
        }
        let ghost before = out@;
        out.insert(p, x);
        proof {
            assert(ranges@.take(k + 1) =~= ranges@.take(k as int).push(x));
            assert forall|i: int| covered(out@, i) <==> covered(ranges@.take(k + 1), i) by {
                lemma_covered_insert(before, p as int, x, i);
                lemma_covered_push(ranges@.take(k as int), x, i);
            }
            assert forall|a: int, b: int| 0 <= a < b < out@.len() implies #[trigger] out@[a].0
                <= #[trigger] out@[b].0 by {
                if b < p {
                } else if b == p {
                } else if a < p {
                    assert(before[b - 1].0 >= before[p as int].0);
                } else if a == p {
                    assert(before[b - 1].0 >= before[p as int].0);
                } else {
                    assert(before[a - 1].0 <= before[b - 1].0);
                }
            }
            assert forall|q: int| 0 <= q < out@.len() implies #[trigger] out@[q].0 < out@[q].1 by {
                if q < p {
                    assert(out@[q] == before[q]);
                } else if q > p {
                    assert(out@[q] == before[q - 1]);
                }
            }
        }
        k = k + 1;
    }
    proof {
        assert(ranges@.take(k as int) =~= ranges@);
    }
    out
}

/// Merges intervals that overlap or touch; the result is separated.
fn merge_overlaps(sorted: Vec<(usize, usize)>) -> (out: Vec<(usize, usize)>)
    requires
        nonempty_intervals(sorted@),
        sorted_by_start(sorted@),
    ensures
        nonempty_intervals(out@),
        separated(out@),
        forall|i: int| covered(out@, i) <==> covered(sorted@, i),
{
    let mut out: Vec<(usize, usize)> = Vec::new();
    let mut k: usize = 0;
    while k < sorted.len()
        invariant
            k <= sorted@.len(),
            nonempty_intervals(sorted@),
            sorted_by_start(sorted@),
            nonempty_intervals(out@),
            separated(out@),
            forall|i: int| covered(out@, i) <==> covered(sorted@.take(k as int), i),
            out@.len() > 0 ==> forall|j: int|
                k <= j < sorted@.len() ==> out@.last().0 <= #[trigger] sorted@[j].0,
        decreases sorted@.len() - k,
    {
        let (start, end) = sorted[k];
        let ghost before = out@;
        let n = out.len();
        proof {
            assert(sorted@.take(k + 1) =~= sorted@.take(k as int).push((start, end)));
            assert(sorted@[k as int].0 < sorted@[k as int].1);
        }
        if n > 0 && start <= out[n - 1].1 {
            let (last_start, last_end) = out[n - 1];
            let new_end = if end > last_end {
                end
            } else {
                last_end
            };
            out.set(n - 1, (last_start, new_end));
            proof {
                assert(before[n - 1].0 < before[n - 1].1);
                assert forall|i: int| covered(out@, i) <==> covered(sorted@.take(k + 1), i) by {
                    lemma_covered_push(sorted@.take(k as int), (start, end), i);
                    assert(before =~= before.drop_last().push(before[n - 1]));
                    assert(out@ =~= before.drop_last().push((last_start, new_end)));
                    lemma_covered_push(before.drop_last(), before[n - 1], i);
                    lemma_covered_push(before.drop_last(), (last_start, new_end), i);
                }
                assert forall|a: int, b: int| 0 <= a < b < out@.len() implies #[trigger] out@[a].1
                    < #[trigger] out@[b].0 by {
                    assert(before[a].1 < before[b].0);
                }
                assert forall|q: int| 0 <= q < out@.len() implies #[trigger] out@[q].0
                    < out@[q].1 by {
                    assert(before[q].0 < before[q].1);
                }
            }
        } else {
            out.push((start, end));
            proof {
                assert forall|i: int| covered(out@, i) <==> covered(sorted@.take(k + 1), i) by {
                    lemma_covered_push(sorted@.take(k as int), (start, end), i);
                    lemma_covered_push(before, (start, end), i);
                }
                assert forall|a: int, b: int| 0 <= a < b < out@.len() implies #[trigger] out@[a].1
                    < #[trigger] out@[b].0 by {
                    if b == n {
                        assert(before[a].1 <= before[n - 1].1);
                        if a < n - 1 {
                            assert(before[a].1 < before[n - 1].0);
                            assert(before[n - 1].0 < before[n - 1].1);
                        }
                    } else {
                        assert(before[a].1 < before[b].0);
                    }
                }
                assert forall|q: int| 0 <= q < out@.len() implies #[trigger] out@[q].0
                    < out@[q].1 by {
                    if q < n {
                        assert(before[q].0 < before[q].1);
                    }
                }
            }
        }
        proof {
            assert forall|j: int| k + 1 <= j < sorted@.len() implies out@.last().0
                <= #[trigger] sorted@[j].0 by {
                assert(sorted@[k as int].0 <= sorted@[j].0);
            }
        }
        k = k + 1;
    }
    proof {
        assert(sorted@.take(k as int) =~= sorted@);
    }
    out
}

/// CRC-16/MODBUS of the bytes of `bytes` that lie outside every range `(offset, len)`
/// of `skips`. Ranges may overlap, come in any order and reach past the end.
pub fn crc16_modbus_with_skips(bytes: &[u8], skips: &[(usize, usize)]) -> (crc: u16)
    ensures
        crc == crc16_spec(checksummed_bytes(bytes@, skips@)),
{
    let ranges = nonempty_ranges(skips);
    let sorted = sort_by_start(ranges);
    let merged = merge_overlaps(sorted);
    let ghost cov = |i: int| covered(merged@, i);

    let mut crc: u16 = 0xffff;
    let mut pos: usize = 0;
    let mut k: usize = 0;
    proof {
        assert(bytes@.take(0) =~= Seq::<u8>::empty());
    }
    while k < merged.len() && merged[k].0 <= bytes.len()
        invariant
            pos <= bytes@.len(),
            k <= merged@.len(),
            separated(merged@),
            nonempty_intervals(merged@),
            cov == (|i: int| covered(merged@, i)),
            crc == crc_update(0xffff, kept_where(bytes@.take(pos as int), cov)),
            forall|j: int| 0 <= j < k ==> #[trigger] merged@[j].1 <= pos || pos == bytes@.len(),
        decreases merged@.len() - k,
    {
        let (start, end) = merged[k];
        let end = if end < bytes.len() {
            end
        } else {
            bytes.len()
        };
        proof {
            assert(merged@[k as int].0 < merged@[k as int].1);
        }
        if pos < start {
            proof {
                assert forall|i: int| pos <= i < start implies !#[trigger] cov(i) by {
                    if covered(merged@, i) {
                        let j = choose|j: int| #![trigger merged@[j]] 0 <= j < merged@.len() && merged@[j].0 <= i < merged@[j].1;
                        if j < k {
                            assert(merged@[j].1 <= pos || pos == bytes@.len());
                        } else if j > k {
                            assert(merged@[k as int].1 < merged@[j].0);
                        }
                    }
                }
                lemma_kept_plain(bytes@, cov, pos as int, start as int);
                lemma_crc_update_concat(
                    0xffff,
                    kept_where(bytes@.take(pos as int), cov),
                    bytes@.subrange(pos as int, start as int),
                );
            }
            crc = crc16_modbus_update(crc, &bytes[pos..start]);
            pos = start;
        }
        let new_pos = if end > pos {
            end
        } else {
            pos
        };
        proof {
            assert forall|i: int| pos <= i < new_pos implies #[trigger] cov(i) by {
                assert(merged@[k as int].0 <= i < merged@[k as int].1);
            }
            lemma_kept_dropped(bytes@, cov, pos as int, new_pos as int);
        }
        pos = new_pos;
        proof {
            assert forall|j: int| 0 <= j < k + 1 implies #[trigger] merged@[j].1 <= pos || pos
                == bytes@.len() by {
                if j < k {
                    assert(merged@[j].1 < merged@[k as int].0);
                }
            }
        }
        k = k + 1;
    }
    let n = bytes.len();
    proof {
        assert forall|i: int| pos <= i < bytes@.len() implies !#[trigger] cov(i) by {
            if covered(merged@, i) {
                let j = choose|j: int| #![trigger merged@[j]] 0 <= j < merged@.len() && merged@[j].0 <= i < merged@[j].1;
                if j < k {
                    assert(merged@[j].1 <= pos || pos == bytes@.len());
                } else if j > k {
                    assert(merged@[k as int].1 < merged@[j].0);
                    assert(merged@[k as int].0 < merged@[k as int].1);
                }
            }
        }
        lemma_kept_plain(bytes@, cov, pos as int, bytes@.len() as int);
        lemma_crc_update_concat(
            0xffff,
            kept_where(bytes@.take(pos as int), cov),
            bytes@.subrange(pos as int, bytes@.len() as int),
        );
        assert(bytes@.take(bytes@.len() as int) =~= bytes@);
        assert forall|i: int| 0 <= i < bytes@.len() implies #[trigger] cov(i) == skipped(skips@, i) by {
            assert(covered(merged@, i) <==> covered(sorted@, i));
            assert(covered(sorted@, i) <==> covered(ranges@, i));
            assert(i < n);
            assert(covered(ranges@, i) <==> skipped(skips@, i));
            assert(cov(i) == covered(merged@, i));
        }
        lemma_kept_agree(bytes@, bytes@, cov, |i: int| skipped(skips@, i));
    }
    if pos < bytes.len() {
        crc = crc16_modbus_update(crc, &bytes[pos..bytes.len()]);
    } else {
        proof {
            assert(bytes@.subrange(pos as int, bytes@.len() as int) =~= Seq::<u8>::empty());
            assert(kept_where(bytes@.take(pos as int), cov) + Seq::<u8>::empty() =~= kept_where(
                bytes@.take(pos as int),
                cov,
            ));
        }
    }
    crc
}

} // verus!
