use vstd::prelude::*;
use vstd::slice::slice_to_vec;
use vstd::utf8::encode_utf8;

use crate::crc16::{
    checksummed_bytes, crc16_modbus, crc16_modbus_with_skips, crc16_spec, lemma_checksummed_no_skips,
};
use crate::profile::{
    max_matches_of, skip_pairs, u16_bytes, u16_value, u32_bytes, u32_value, version_len_of,
    ChecksumAlgo, Endianness, Profile, SkipRange,
};

verus! {

// ---------------------------------------------------------------------------
// Public data types
// ---------------------------------------------------------------------------

/// A place in the firmware where a configuration block may start.
#[derive(Debug, Clone, Copy, PartialEq, Eq, Structural)]
pub struct Candidate {
    pub offset: usize,
}

/// The candidates whose blocks passed every check, in firmware order.
#[derive(Debug, Clone)]
pub struct VerifyReport {
    pub valid: Vec<Candidate>,
}

/// What to write, and which valid block to write it to when there are several.
#[derive(Debug, Clone)]
pub struct PatchOptions {
    pub ssid: String,
    pub psk: String,
    pub select_index: Option<usize>,
}

/// Why a scan for candidates failed.
#[derive(Debug, Clone, Copy, PartialEq, Eq, Structural)]
pub enum ScanError {
    FirmwareTooSmall,
    TooManyCandidates { found: usize, max_matches: usize },
}

/// Why verifying or patching failed.
#[derive(Debug, Clone, Copy, PartialEq, Eq, Structural)]
pub enum VerifyError {
    Scan(ScanError),
    NoCandidates,
    NoValidCandidates { candidates: usize },
    MultipleValidCandidates { valid: usize },
    SelectIndexOutOfRange { index: usize, valid: usize },
    SsidTooLong { bytes: usize, max: usize },
    PskTooLong { bytes: usize, max: usize },
    PatchedBlockNotFound { offset: usize },
}

// ---------------------------------------------------------------------------
// Scanning
// ---------------------------------------------------------------------------

/// The four magic bytes that open a block.
pub open spec fn magic_bytes(p: Profile) -> Seq<u8> {
    u32_bytes(p.scan.endianness, p.scan.magic_u32)
}

/// A block may start at `pos`: the magic is there and a whole block fits.
pub open spec fn is_candidate(p: Profile, fw: Seq<u8>, pos: int) -> bool {
    &&& 0 <= pos
    &&& pos + 4 <= fw.len()
    &&& fw.subrange(pos, pos + 4) == magic_bytes(p)
    &&& pos + p.scan.struct_size <= fw.len()
}

/// The candidates at positions below `n`, in increasing order.
pub open spec fn candidates_below(p: Profile, fw: Seq<u8>, n: int) -> Seq<Candidate>
    decreases n,
{
    if n <= 0 {
        Seq::empty()
    } else if is_candidate(p, fw, n - 1) {
        candidates_below(p, fw, n - 1).push(Candidate { offset: (n - 1) as usize })
    } else {
        candidates_below(p, fw, n - 1)
    }
}

/// Every candidate of the firmware, in increasing order.
pub open spec fn all_candidates(p: Profile, fw: Seq<u8>) -> Seq<Candidate> {
    candidates_below(p, fw, fw.len() - 3)
}

/// The outcome of a scan: the candidates, unless the firmware cannot hold the magic
/// or there are more than the profile allows (the error then reports one more
/// than the limit, where the scan stopped).
pub open spec fn scan_result(p: Profile, fw: Seq<u8>) -> Result<Seq<Candidate>, ScanError> {
    let max = max_matches_of(p);
    if fw.len() < 4 {
        Err(ScanError::FirmwareTooSmall)
    } else if all_candidates(p, fw).len() > max {
        Err(ScanError::TooManyCandidates { found: (max + 1) as usize, max_matches: max })
    } else {
        Ok(all_candidates(p, fw))
    }
}

proof fn lemma_candidates_grow(p: Profile, fw: Seq<u8>, m: int, n: int)
    requires
        m <= n,
    ensures
        candidates_below(p, fw, m).len() <= candidates_below(p, fw, n).len(),
    decreases n - m,
{
    if m < n {
        lemma_candidates_grow(p, fw, m, n - 1);
    }
}

impl Profile {
    /// Finds every position where the magic occurs and a whole block fits.
    pub fn scan_candidates(&self, firmware: &[u8]) -> (res: Result<Vec<Candidate>, ScanError>)
        ensures
            match res {
                Ok(v) => scan_result(*self, firmware@) == Ok::<Seq<Candidate>, ScanError>(v@),
                Err(e) => scan_result(*self, firmware@) == Err::<Seq<Candidate>, ScanError>(e),
            },
    {
        let len = firmware.len();
        if len < 4 {
            return Err(ScanError::FirmwareTooSmall);
        }
        let magic = self.scan.endianness.u32_to_bytes(self.scan.magic_u32);
        let max_matches = match self.scan.max_matches {
            Some(m) => m,
            None => 1,
        };
        let struct_size = self.scan.struct_size;

        let mut out: Vec<Candidate> = Vec::new();
        let mut pos: usize = 0;
        while pos <= len - 4
            invariant
                len == firmware@.len(),
                len >= 4,
                pos <= len - 3,
                magic@ == magic_bytes(*self),
                max_matches == max_matches_of(*self),
                struct_size == self.scan.struct_size,
                out@ == candidates_below(*self, firmware@, pos as int),
                out@.len() <= max_matches,
            decreases len - pos,
        {
            let is_magic = firmware[pos] == magic[0] && firmware[pos + 1] == magic[1]
                && firmware[pos + 2] == magic[2] && firmware[pos + 3] == magic[3];
            proof {
                assert(is_magic <==> firmware@.subrange(pos as int, pos + 4) =~= magic@);
            }
            if is_magic && struct_size <= len - pos {
                out.push(Candidate { offset: pos });
                if out.len() > max_matches {
                    proof {
                        lemma_candidates_grow(
                            *self,
                            firmware@,
                            pos + 1,
                            firmware@.len() - 3,
                        );
                    }
                    return Err(
                        ScanError::TooManyCandidates { found: out.len(), max_matches },
                    );
                }
            }
            pos = pos + 1;
        }
        Ok(out)
    }
}

// ---------------------------------------------------------------------------
// Checking a candidate block
// ---------------------------------------------------------------------------

/// The unsigned integer held by a field of one, two or four bytes.
pub open spec fn uint_value(e: Endianness, b: Seq<u8>) -> Option<u64> {
    if b.len() == 1 {
        Some(b[0] as u64)
    } else if b.len() == 2 {
        Some(u16_value(e, b) as u64)
    } else if b.len() == 4 {
        Some(u32_value(e, b) as u64)
    } else {
        None
    }
}

/// The checksum that a block must carry: CRC-16/MODBUS over the bytes outside the
/// skip ranges.
pub open spec fn block_checksum(p: Profile, block: Seq<u8>) -> u16 {
    crc16_spec(checksummed_bytes(block, skip_pairs(p)))
}

/// A block passes every check: its version field holds the profile's version, its
/// SSID and PSK lengths are within their maxima, and its stored checksum (the first
/// two bytes of the checksum field) equals the computed one. Each field must lie
/// inside the block.
pub open spec fn block_valid(p: Profile, block: Seq<u8>) -> bool {
    let l = p.layout;
    let e = p.scan.endianness;
    let vl = version_len_of(p);
    &&& l.version_offset + vl <= block.len()
    &&& uint_value(e, block.subrange(l.version_offset as int, l.version_offset + vl)) == Some(
        l.version as u64,
    )
    &&& l.ssid_len_offset < block.len()
    &&& l.psk_len_offset < block.len()
    &&& block[l.ssid_len_offset as int] <= l.ssid_max
    &&& block[l.psk_len_offset as int] <= l.psk_max
    &&& l.checksum_offset + l.checksum_len <= block.len()
    &&& l.checksum_len >= 2
    &&& u16_value(e, block.subrange(l.checksum_offset as int, l.checksum_offset + l.checksum_len))
        == block_checksum(p, block)
}

/// The block of the profile's size that starts at `offset`.
pub open spec fn block_at(p: Profile, fw: Seq<u8>, offset: int) -> Seq<u8> {
    fw.subrange(offset, offset + p.scan.struct_size)
}

/// A whole block starts at `offset` and passes every check.
pub open spec fn candidate_valid(p: Profile, fw: Seq<u8>, offset: int) -> bool {
    &&& 0 <= offset
    &&& offset + p.scan.struct_size <= fw.len()
    &&& block_valid(p, block_at(p, fw, offset))
}

/// The candidates of `cs` that pass every check, in their order.
pub open spec fn valid_among(p: Profile, fw: Seq<u8>, cs: Seq<Candidate>) -> Seq<Candidate>
    decreases cs.len(),
{
    if cs.len() == 0 {
        Seq::empty()
    } else if candidate_valid(p, fw, cs.last().offset as int) {
        valid_among(p, fw, cs.drop_last()).push(cs.last())
    } else {
        valid_among(p, fw, cs.drop_last())
    }
}

/// The outcome of verifying a firmware: the valid candidates, or why there are none
/// to report.
pub open spec fn verify_result(p: Profile, fw: Seq<u8>) -> Result<Seq<Candidate>, VerifyError> {
    match scan_result(p, fw) {
        Err(e) => Err(VerifyError::Scan(e)),
        Ok(cs) => if cs.len() == 0 {
            Err(VerifyError::NoCandidates)
        } else if valid_among(p, fw, cs).len() == 0 {
            Err(VerifyError::NoValidCandidates { candidates: cs.len() as usize })
        } else {
            Ok(valid_among(p, fw, cs))
        },
    }
}

/// Reads a field of one, two or four bytes as an unsigned integer.
fn read_uint(endianness: Endianness, bytes: &[u8]) -> (out: Option<u64>)
    ensures
        out == uint_value(endianness, bytes@),
{
    let n = bytes.len();
    if n == 1 {
        Some(bytes[0] as u64)
    } else if n == 2 {
        match endianness.read_u16(bytes) {
            Some(v) => Some(v as u64),
            None => None,
        }
    } else if n == 4 {
        match endianness.read_u32(bytes) {
            Some(v) => Some(v as u64),
            None => None,
        }
    } else {
        None
    }
}

impl Profile {
    /// The skip ranges as `(offset, len)` pairs.
    fn skip_list(&self) -> (out: Vec<(usize, usize)>)
        ensures
            out@ == skip_pairs(*self),
    {
        let mut out: Vec<(usize, usize)> = Vec::new();
        match &self.checksum.skip {
            Some(skips) => {
                let mut k: usize = 0;
                while k < skips.len()
                    invariant
                        k <= skips@.len(),
                        out@ =~= skips@.take(k as int).map_values(
                            |r: SkipRange| (r.offset, r.len),
                        ),
                    decreases skips@.len() - k,
                {
                    out.push((skips[k].offset, skips[k].len));
                    proof {
                        assert(skips@.take(k + 1).map_values(|r: SkipRange| (r.offset, r.len))
                            =~= skips@.take(k as int).map_values(
                            |r: SkipRange| (r.offset, r.len),
                        ).push((skips@[k as int].offset, skips@[k as int].len)));
                    }
                    k = k + 1;
                }
                proof {
                    assert(skips@.take(k as int) =~= skips@);
                }
            },
            None => {},
        }
        out
    }

    /// The checksum the block should carry.
    fn compute_checksum(&self, block: &[u8]) -> (crc: u16)
        ensures
            crc == block_checksum(*self, block@),
    {
        let skips = self.skip_list();
        match self.checksum.algo {
            ChecksumAlgo::Crc16Modbus => {
                if skips.len() == 0 {
                    proof {
                        assert(skips@ =~= Seq::<(usize, usize)>::empty());
                        lemma_checksummed_no_skips(block@);
                    }
                    crc16_modbus(block)
                } else {
                    crc16_modbus_with_skips(block, skips.as_slice())
                }
            },
        }
    }

    /// Checks the block at `candidate`: version, SSID and PSK lengths, checksum.
    fn verify_candidate(&self, firmware: &[u8], candidate: Candidate) -> (res: Result<(), ()>)
        ensures
            res is Ok <==> candidate_valid(*self, firmware@, candidate.offset as int),
    {
        let len = firmware.len();
        let size = self.scan.struct_size;
        let off = candidate.offset;
        if size > len || off > len - size {
            return Err(());
        }
        let block = &firmware[off..off + size];
        proof {
            assert(block@ == block_at(*self, firmware@, off as int));
        }
        let e = self.scan.endianness;

        // version
        let version_len = match self.layout.version_len {
            Some(l) => l,
            None => 2,
        };
        let vo = self.layout.version_offset;
        if version_len > size || vo > size - version_len {
            return Err(());
        }
        let version_value = match read_uint(e, &block[vo..vo + version_len]) {
            Some(v) => v,
            None => return Err(()),
        };
        if version_value != self.layout.version as u64 {
            return Err(());
        }

        // lengths
        if self.layout.ssid_len_offset >= size || self.layout.psk_len_offset >= size {
            return Err(());
        }
        let ssid_len = block[self.layout.ssid_len_offset] as usize;
        let psk_len = block[self.layout.psk_len_offset] as usize;
        if ssid_len > self.layout.ssid_max || psk_len > self.layout.psk_max {
            return Err(());
        }

        // checksum
        let co = self.layout.checksum_offset;
        let cl = self.layout.checksum_len;
        if cl > size || co > size - cl {
            return Err(());
        }
        let stored = match e.read_u16(&block[co..co + cl]) {
            Some(v) => v,
            None => return Err(()),
        };
        let computed = self.compute_checksum(block);
        if computed != stored {
            return Err(());
        }
        Ok(())
    }

    /// Scans the firmware and keeps the candidates whose blocks pass every check.
    pub fn verify(&self, firmware: &[u8]) -> (res: Result<VerifyReport, VerifyError>)
        ensures
            match res {
                Ok(r) => verify_result(*self, firmware@) == Ok::<Seq<Candidate>, VerifyError>(
                    r.valid@,
                ),
                Err(e) => verify_result(*self, firmware@) == Err::<Seq<Candidate>, VerifyError>(e),
            },
    {
        let candidates = match self.scan_candidates(firmware) {
            Ok(c) => c,
            Err(e) => return Err(VerifyError::Scan(e)),
        };
        if candidates.len() == 0 {
            return Err(VerifyError::NoCandidates);
        }
        let mut valid: Vec<Candidate> = Vec::new();
        let mut k: usize = 0;
        while k < candidates.len()
            invariant
                k <= candidates@.len(),
                valid@ == valid_among(*self, firmware@, candidates@.take(k as int)),
            decreases candidates@.len() - k,
        {
            let c = candidates[k];
            proof {
                assert(candidates@.take(k + 1).drop_last() =~= candidates@.take(k as int));
            }
            if self.verify_candidate(firmware, c).is_ok() {
                valid.push(c);
            }
            k = k + 1;
        }
        proof {
            assert(candidates@.take(k as int) =~= candidates@);
        }
        if valid.len() == 0 {
            return Err(VerifyError::NoValidCandidates { candidates: candidates.len() });
        }
        Ok(VerifyReport { valid })
    }
}

// ---------------------------------------------------------------------------
// Patching
// ---------------------------------------------------------------------------

/// `b` with `data` written from index `at` on.
pub open spec fn put(b: Seq<u8>, at: int, data: Seq<u8>) -> Seq<u8> {
    b.subrange(0, at) + data + b.subrange(at + data.len(), b.len() as int)
}

/// `n` zero bytes.
pub open spec fn zeros(n: nat) -> Seq<u8> {
    Seq::new(n, |i: int| 0u8)
}

/// The field `offset .. offset + max` of `b` cleared to zeros, then its start
/// overwritten with the first `max` bytes of `data`. When the field does not fit in
/// `b`, `b` is left as it is.
pub open spec fn padded_field(b: Seq<u8>, offset: usize, max: usize, data: Seq<u8>) -> Seq<u8> {
    if offset + max <= b.len() {
        let n = if data.len() <= max {
            data.len()
        } else {
            max as nat
        };
        put(b, offset as int, data.take(n as int) + zeros((max - n) as nat))
    } else {
        b
    }
}

/// The block after patching, in the order the writes happen: the SSID length byte,
/// the PSK length byte, the zero-padded SSID field, the zero-padded PSK field, and
/// last the checksum of all that, in the first two bytes of the checksum field.
pub open spec fn patched_block(p: Profile, block: Seq<u8>, ssid: Seq<u8>, psk: Seq<u8>) -> Seq<u8> {
    let l = p.layout;
    let b1 = block.update(l.ssid_len_offset as int, ssid.len() as u8);
    let b2 = b1.update(l.psk_len_offset as int, psk.len() as u8);
    let b3 = padded_field(b2, l.ssid_offset, l.ssid_max, ssid);
    let b4 = padded_field(b3, l.psk_offset, l.psk_max, psk);
    put(b4, l.checksum_offset as int, u16_bytes(p.scan.endianness, block_checksum(p, b4)))
}

/// The outcome of writing `ssid` and `psk` (as bytes) to the block at `base`, with its
/// checks in order: each value must fit its field, the block must lie inside the
/// firmware, each length must fit its length byte, both length bytes must lie inside the
/// block, and the checksum field must lie inside the block and hold two bytes. Then the whole firmware comes back with that block
/// patched.
pub open spec fn patch_at_result(p: Profile, fw: Seq<u8>, base: int, ssid: Seq<u8>, psk: Seq<u8>) -> Result<
    Seq<u8>,
    VerifyError,
> {
    let l = p.layout;
    let size = p.scan.struct_size;
    if ssid.len() > l.ssid_max {
        Err(VerifyError::SsidTooLong { bytes: ssid.len() as usize, max: l.ssid_max })
    } else if psk.len() > l.psk_max {
        Err(VerifyError::PskTooLong { bytes: psk.len() as usize, max: l.psk_max })
    } else if base + size > fw.len() {
        Err(VerifyError::NoCandidates)
    } else if ssid.len() > 255 {
        Err(VerifyError::SsidTooLong { bytes: ssid.len() as usize, max: 255 })
    } else if psk.len() > 255 {
        Err(VerifyError::PskTooLong { bytes: psk.len() as usize, max: 255 })
    } else if l.ssid_len_offset >= size || l.psk_len_offset >= size {
        Err(VerifyError::NoCandidates)
    } else if l.checksum_offset + l.checksum_len > size || l.checksum_len < 2 {
        Err(VerifyError::NoCandidates)
    } else {
        Ok(put(fw, base, patched_block(p, block_at(p, fw, base), ssid, psk)))
    }
}

/// Which valid candidate to patch: the only one when no index is given, the one at
/// `index` when one is; never a guess among several.
pub open spec fn select_candidate(valid: Seq<Candidate>, index: Option<usize>) -> Result<
    Candidate,
    VerifyError,
> {
    if valid.len() == 1 && index is None {
        Ok(valid[0])
    } else {
        match index {
            Some(i) => if i < valid.len() {
                Ok(valid[i as int])
            } else {
                Err(VerifyError::SelectIndexOutOfRange { index: i, valid: valid.len() as usize })
            },
            None => Err(VerifyError::MultipleValidCandidates { valid: valid.len() as usize }),
        }
    }
}

/// The outcome of patching: verify, select, write the UTF-8 bytes of the SSID and PSK
/// to the selected block, then verify the result. A result that does not verify, or in
/// which the selected block is no longer valid, is refused.
pub open spec fn patch_result(p: Profile, fw: Seq<u8>, opts: PatchOptions) -> Result<
    Seq<u8>,
    VerifyError,
> {
    match verify_result(p, fw) {
        Err(e) => Err(e),
        Ok(valid) => match select_candidate(valid, opts.select_index) {
            Err(e) => Err(e),
            Ok(c) => match patch_at_result(
                p,
                fw,
                c.offset as int,
                encode_utf8(opts.ssid@),
                encode_utf8(opts.psk@),
            ) {
                Err(e) => Err(e),
                Ok(out) => match verify_result(p, out) {
                    Err(e) => Err(e),
                    Ok(again) => if again.contains(c) {
                        Ok(out)
                    } else {
                        Err(VerifyError::PatchedBlockNotFound { offset: c.offset })
                    },
                },
            },
        },
    }
}

/// Every candidate that survives the checks is valid.
pub proof fn lemma_valid_among_valid(p: Profile, fw: Seq<u8>, cs: Seq<Candidate>)
    ensures
        forall|k: int|
            0 <= k < valid_among(p, fw, cs).len() ==> candidate_valid(
                p,
                fw,
                #[trigger] valid_among(p, fw, cs)[k].offset as int,
            ),
    decreases cs.len(),
{
    if cs.len() > 0 {
        lemma_valid_among_valid(p, fw, cs.drop_last());
        let prev = valid_among(p, fw, cs.drop_last());
        let cur = valid_among(p, fw, cs);
        assert forall|k: int| 0 <= k < cur.len() implies candidate_valid(
            p,
            fw,
            #[trigger] cur[k].offset as int,
        ) by {
            if k < prev.len() {
                assert(cur[k] == prev[k]);
            }
        }
    }
}

/// Clears the field `offset .. offset + max` of `block` and writes the first `max`
/// bytes of `data` at its start; does nothing when the field does not fit.
fn write_padded(block: &mut [u8], offset: usize, max: usize, data: &[u8])
    ensures
        final(block)@ == padded_field(old(block)@, offset, max, data@),
{
    let len = block.len();
    if max > len || offset > len - max {
        return;
    }
    let mut i: usize = 0;
    while i < max
        invariant
            len == old(block)@.len(),
            offset + max <= len,
            i <= max,
            block@ =~= put(old(block)@, offset as int, zeros(i as nat)),
        decreases max - i,
    {
        block[offset + i] = 0;
        i = i + 1;
    }
    let size = if data.len() < max {
        data.len()
    } else {
        max
    };
    let ghost cleared = block@;
    let mut j: usize = 0;
    while j < size
        invariant
            len == old(block)@.len(),
            offset + max <= len,
            size <= max,
            size <= data@.len(),
            j <= size,
            cleared == put(old(block)@, offset as int, zeros(max as nat)),
            block@ =~= put(
                old(block)@,
                offset as int,
                data@.take(j as int) + zeros((max - j) as nat),
            ),
        decreases size - j,
    {
        block[offset + j] = data[j];
        proof {
            assert(data@.take(j + 1) + zeros((max - j - 1) as nat) =~= (data@.take(j as int)
                + zeros((max - j) as nat)).update(j as int, data@[j as int]));
        }
        j = j + 1;
    }
}

impl Profile {
    /// Writes the SSID and PSK bytes, their lengths and a fresh checksum into the
    /// block at `base` of a copy of the firmware.
    fn patch_at_offset(&self, firmware: &[u8], base: usize, ssid: &str, psk: &str) -> (res: Result<
        Vec<u8>,
        VerifyError,
    >)
        requires
            base + self.scan.struct_size <= usize::MAX,
        ensures
            match res {
                Ok(v) => patch_at_result(
                    *self,
                    firmware@,
                    base as int,
                    encode_utf8(ssid@),
                    encode_utf8(psk@),
                ) == Ok::<Seq<u8>, VerifyError>(v@),
                Err(e) => patch_at_result(
                    *self,
                    firmware@,
                    base as int,
                    encode_utf8(ssid@),
                    encode_utf8(psk@),
                ) == Err::<Seq<u8>, VerifyError>(e),
            },
    {
        let ssid_bytes = ssid.as_bytes();
        let psk_bytes = psk.as_bytes();
        if ssid_bytes.len() > self.layout.ssid_max {
            return Err(
                VerifyError::SsidTooLong { bytes: ssid_bytes.len(), max: self.layout.ssid_max },
            );
        }
        if psk_bytes.len() > self.layout.psk_max {
            return Err(
                VerifyError::PskTooLong { bytes: psk_bytes.len(), max: self.layout.psk_max },
            );
        }
        let size = self.scan.struct_size;
        let flen = firmware.len();
        if base + size > flen {
            return Err(VerifyError::NoCandidates);
        }
        let mut block: Vec<u8> = slice_to_vec(&firmware[base..base + size]);
        if ssid_bytes.len() > 255 {
            return Err(VerifyError::SsidTooLong { bytes: ssid_bytes.len(), max: 255 });
        }
        if psk_bytes.len() > 255 {
            return Err(VerifyError::PskTooLong { bytes: psk_bytes.len(), max: 255 });
        }
        if self.layout.ssid_len_offset >= size || self.layout.psk_len_offset >= size {
            return Err(VerifyError::NoCandidates);
        }
        let ssid_len = ssid_bytes.len() as u8;
        let psk_len = psk_bytes.len() as u8;

        block.set(self.layout.ssid_len_offset, ssid_len);
        block.set(self.layout.psk_len_offset, psk_len);
        write_padded(block.as_mut_slice(), self.layout.ssid_offset, self.layout.ssid_max, ssid_bytes);
        write_padded(block.as_mut_slice(), self.layout.psk_offset, self.layout.psk_max, psk_bytes);

        let checksum_value = self.compute_checksum(block.as_slice());

        let co = self.layout.checksum_offset;
        let cl = self.layout.checksum_len;
        if cl > size || co > size - cl {
            return Err(VerifyError::NoCandidates);
        }
        let ghost b4 = block@;
        let mut field: Vec<u8> = slice_to_vec(&block[co..co + cl]);
        if !self.scan.endianness.write_u16(field.as_mut_slice(), checksum_value) {
            return Err(VerifyError::NoCandidates);
        }
        let mut i: usize = 0;
        while i < cl
            invariant
                block@.len() == size,
                co + cl <= size,
                field@.len() == cl,
                i <= cl,
                forall|j: int| 0 <= j < size ==> #[trigger] block@[j] == (if co <= j < co + i {
                    field@[j - co]
                } else {
                    b4[j]
                }),
            decreases cl - i,
        {
            block.set(co + i, field[i]);
            i = i + 1;
        }
        proof {
            let bytes2 = u16_bytes(self.scan.endianness, checksum_value);
            assert(field@ =~= bytes2 + b4.subrange(co + 2, co + cl));
            assert(block@ =~= put(b4, co as int, bytes2));
        }

        let mut out: Vec<u8> = slice_to_vec(&firmware[0..base]);
        let mut k: usize = 0;
        while k < size
            invariant
                block@.len() == size,
                k <= size,
                out@ =~= firmware@.subrange(0, base as int) + block@.take(k as int),
            decreases size - k,
        {
            out.push(block[k]);
            k = k + 1;
        }
        let len = firmware.len();
        let mut m: usize = base + size;
        while m < len
            invariant
                base + size <= m <= len,
                len == firmware@.len(),
                block@.len() == size,
                out@ =~= firmware@.subrange(0, base as int) + block@ + firmware@.subrange(
                    base + size,
                    m as int,
                ),
            decreases len - m,
        {
            out.push(firmware[m]);
            m = m + 1;
        }
        proof {
            assert(block@.take(size as int) =~= block@);
            assert(out@ =~= put(firmware@, base as int, block@));
        }
        Ok(out)
    }

    /// Verifies the firmware, selects the block to patch, writes the SSID and PSK into
    /// a copy of the firmware and verifies that copy again.
    pub fn patch(&self, firmware: &[u8], opts: PatchOptions) -> (res: Result<Vec<u8>, VerifyError>)
        ensures
            match res {
                Ok(v) => patch_result(*self, firmware@, opts) == Ok::<Seq<u8>, VerifyError>(v@),
                Err(e) => patch_result(*self, firmware@, opts) == Err::<Seq<u8>, VerifyError>(e),
            },
    {
        let report = match self.verify(firmware) {
            Ok(r) => r,
            Err(e) => return Err(e),
        };
        let n = report.valid.len();
        let selected = if n == 1 && opts.select_index.is_none() {
            report.valid[0]
        } else {
            match opts.select_index {
                Some(index) => {
                    if index < n {
                        report.valid[index]
                    } else {
                        return Err(VerifyError::SelectIndexOutOfRange { index, valid: n });
                    }
                },
                None => {
                    return Err(VerifyError::MultipleValidCandidates { valid: n });
                },
            }
        };
        let flen = firmware.len();
        proof {
            let cs = all_candidates(*self, firmware@);
            lemma_valid_among_valid(*self, firmware@, cs);
            assert(report.valid@ == valid_among(*self, firmware@, cs));
        }
        let out = match self.patch_at_offset(
            firmware,
            selected.offset,
            opts.ssid.as_str(),
            opts.psk.as_str(),
        ) {
            Ok(out) => out,
            Err(e) => return Err(e),
        };
        let again = match self.verify(out.as_slice()) {
            Ok(r) => r,
            Err(e) => return Err(e),
        };
        let mut found = false;
        let mut k: usize = 0;
        while k < again.valid.len()
            invariant
                k <= again.valid@.len(),
                found <==> exists|j: int| 0 <= j < k && again.valid@[j] == selected,
            decreases again.valid@.len() - k,
        {
            if again.valid[k].offset == selected.offset {
                found = true;
            }
            k = k + 1;
        }
        if found {
            return Ok(out);
        }
        Err(VerifyError::PatchedBlockNotFound { offset: selected.offset })
    }
}

} // verus!
