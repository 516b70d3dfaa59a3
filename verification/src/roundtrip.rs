//! Properties that span scanning, verifying and patching.

use vstd::prelude::*;
use vstd::utf8::encode_utf8;

use crate::crc16::{
    checksummed_bytes, lemma_crc_detects_single_byte, lemma_kept_agree, lemma_kept_single_change,
    skipped,
};
use crate::firmware::{
    all_candidates, block_at, block_checksum, block_valid, candidate_valid, candidates_below,
    is_candidate, padded_field, patch_at_result, patch_result, patched_block, put, scan_result,
    select_candidate, uint_value, valid_among, verify_result, zeros, Candidate, PatchOptions,
    ScanError, VerifyError,
};
use crate::profile::{
    lemma_u16_roundtrip, lemma_u32_roundtrip, skip_pairs, u16_bytes, u16_value, u32_bytes,
    version_len_of, Endianness, Profile,
};

verus! {

/// The half-open ranges `[a, a + al)` and `[b, b + bl)` share no index.
pub open spec fn apart(a: int, al: int, b: int, bl: int) -> bool {
    a + al <= b || b + bl <= a
}

/// The fields that a patch writes fit in the block, and none of them overlaps a field
/// written after it: the two length bytes, the SSID field, the PSK field and the two
/// checksum bytes are pairwise apart.
pub open spec fn writes_apart(p: Profile) -> bool {
    let l = p.layout;
    let slo = l.ssid_len_offset as int;
    let plo = l.psk_len_offset as int;
    let so = l.ssid_offset as int;
    let sm = l.ssid_max as int;
    let po = l.psk_offset as int;
    let pm = l.psk_max as int;
    let co = l.checksum_offset as int;
    &&& so + sm <= p.scan.struct_size
    &&& po + pm <= p.scan.struct_size
    &&& slo != plo
    &&& apart(slo, 1, so, sm) && apart(slo, 1, po, pm) && apart(slo, 1, co, 2)
    &&& apart(plo, 1, so, sm) && apart(plo, 1, po, pm) && apart(plo, 1, co, 2)
    &&& apart(so, sm, po, pm) && apart(so, sm, co, 2) && apart(po, pm, co, 2)
}

/// A layout in which patching cannot disturb what verification reads: the written
/// fields are apart, neither the magic nor the version field is written, and the two
/// checksum bytes lie in the checksum's skip ranges.
pub open spec fn layout_sound(p: Profile) -> bool {
    let l = p.layout;
    let vo = l.version_offset as int;
    let vl = version_len_of(p) as int;
    let slo = l.ssid_len_offset as int;
    let plo = l.psk_len_offset as int;
    let so = l.ssid_offset as int;
    let sm = l.ssid_max as int;
    let po = l.psk_offset as int;
    let pm = l.psk_max as int;
    let co = l.checksum_offset as int;
    &&& writes_apart(p)
    // the version field is never written
    &&& apart(vo, vl, slo, 1) && apart(vo, vl, plo, 1) && apart(vo, vl, so, sm)
    &&& apart(vo, vl, po, pm) && apart(vo, vl, co, 2)
    // nor is the magic
    &&& apart(0, 4, slo, 1) && apart(0, 4, plo, 1) && apart(0, 4, so, sm)
    &&& apart(0, 4, po, pm) && apart(0, 4, co, 2)
    // the checksum does not cover itself
    &&& checksum_skipped(p)
}

proof fn lemma_put(b: Seq<u8>, at: int, data: Seq<u8>)
    requires
        0 <= at,
        at + data.len() <= b.len(),
    ensures
        put(b, at, data).len() == b.len(),
        forall|i: int|
            0 <= i < b.len() ==> #[trigger] put(b, at, data)[i] == (if at <= i < at + data.len() {
                data[i - at]
            } else {
                b[i]
            }),
{
}

proof fn lemma_padded(b: Seq<u8>, offset: usize, max: usize, data: Seq<u8>)
    requires
        offset + max <= b.len(),
        data.len() <= max,
    ensures
        padded_field(b, offset, max, data).len() == b.len(),
        forall|i: int|
            0 <= i < b.len() ==> #[trigger] padded_field(b, offset, max, data)[i] == (if offset
                <= i < offset + max {
                if i - offset < data.len() {
                    data[i - offset]
                } else {
                    0u8
                }
            } else {
                b[i]
            }),
        padded_field(b, offset, max, data).subrange(offset as int, offset + max) == data + zeros(
            (max - data.len()) as nat,
        ),
{
    let f = data.take(data.len() as int) + zeros((max - data.len()) as nat);
    assert(data.take(data.len() as int) =~= data);
    lemma_put(b, offset as int, f);
    assert(padded_field(b, offset, max, data).subrange(offset as int, offset + max) =~= f);
}

/// A candidate position below `n` is listed among the candidates below `n`.
proof fn lemma_candidate_listed(p: Profile, fw: Seq<u8>, pos: int, n: int)
    requires
        is_candidate(p, fw, pos),
        pos < n,
    ensures
        candidates_below(p, fw, n).contains(Candidate { offset: pos as usize }),
    decreases n,
{
    if pos < n - 1 {
        lemma_candidate_listed(p, fw, pos, n - 1);
        let prev = candidates_below(p, fw, n - 1);
        let k = choose|k: int| 0 <= k < prev.len() && prev[k] == Candidate { offset: pos as usize };
        if is_candidate(p, fw, n - 1) {
            assert(candidates_below(p, fw, n)[k] == prev[k]);
        }
    } else {
        let cur = candidates_below(p, fw, n);
        assert(cur[cur.len() - 1] == Candidate { offset: pos as usize });
    }
}

/// A listed candidate whose block is valid survives the checks.
proof fn lemma_valid_listed(p: Profile, fw: Seq<u8>, cs: Seq<Candidate>, c: Candidate)
    requires
        cs.contains(c),
        candidate_valid(p, fw, c.offset as int),
    ensures
        valid_among(p, fw, cs).contains(c),
    decreases cs.len(),
{
    if cs.last() == c {
        let cur = valid_among(p, fw, cs);
        assert(cur[cur.len() - 1] == c);
    } else {
        let k = choose|k: int| 0 <= k < cs.len() && cs[k] == c;
        assert(cs.drop_last()[k] == c);
        lemma_valid_listed(p, fw, cs.drop_last(), c);
        let prev = valid_among(p, fw, cs.drop_last());
        let j = choose|j: int| 0 <= j < prev.len() && prev[j] == c;
        if candidate_valid(p, fw, cs.last().offset as int) {
            assert(valid_among(p, fw, cs)[j] == prev[j]);
        }
    }
}

/// What one write to a block leaves behind, in the order `patched_block` performs them.
proof fn lemma_patched_block(p: Profile, block: Seq<u8>, ssid: Seq<u8>, psk: Seq<u8>)
    requires
        layout_sound(p),
        block.len() == p.scan.struct_size,
        block_valid(p, block),
        ssid.len() <= p.layout.ssid_max,
        psk.len() <= p.layout.psk_max,
    ensures
        ({
            let l = p.layout;
            let out = patched_block(p, block, ssid, psk);
            &&& out.len() == block.len()
            &&& block_valid(p, out)
            &&& forall|i: int| 0 <= i < 4 && i < block.len() ==> #[trigger] out[i] == block[i]
            &&& out[l.ssid_len_offset as int] == ssid.len() as u8
            &&& out[l.psk_len_offset as int] == psk.len() as u8
            &&& out.subrange(l.ssid_offset as int, l.ssid_offset + l.ssid_max) == ssid + zeros(
                (l.ssid_max - ssid.len()) as nat,
            )
            &&& out.subrange(l.psk_offset as int, l.psk_offset + l.psk_max) == psk + zeros(
                (l.psk_max - psk.len()) as nat,
            )
        }),
{
    let l = p.layout;
    let e = p.scan.endianness;
    let b1 = block.update(l.ssid_len_offset as int, ssid.len() as u8);
    let b2 = b1.update(l.psk_len_offset as int, psk.len() as u8);
    let b3 = padded_field(b2, l.ssid_offset, l.ssid_max, ssid);
    let b4 = padded_field(b3, l.psk_offset, l.psk_max, psk);
    let crc = block_checksum(p, b4);
    let cb = u16_bytes(e, crc);
    let b5 = put(b4, l.checksum_offset as int, cb);
    assert(b5 == patched_block(p, block, ssid, psk));
    lemma_padded(b2, l.ssid_offset, l.ssid_max, ssid);
    lemma_padded(b3, l.psk_offset, l.psk_max, psk);
    lemma_u16_roundtrip(e, crc);
    lemma_put(b4, l.checksum_offset as int, cb);

    let co = l.checksum_offset as int;
    let cl = l.checksum_len as int;
    let vo = l.version_offset as int;
    let vl = version_len_of(p) as int;

    // the version field is untouched
    assert(b5.subrange(vo, vo + vl) =~= block.subrange(vo, vo + vl)) by {
        assert forall|i: int| 0 <= i < vl implies #[trigger] b5.subrange(vo, vo + vl)[i] == block.subrange(
            vo,
            vo + vl,
        )[i] by {
            assert(b5[vo + i] == b4[vo + i]);
            assert(b4[vo + i] == b3[vo + i]);
            assert(b3[vo + i] == b2[vo + i]);
        }
    }
    // the stored checksum reads back as the computed one
    assert(b5.subrange(co, co + cl)[0] == cb[0]);
    assert(b5.subrange(co, co + cl)[1] == cb[1]);
    assert(u16_value(e, b5.subrange(co, co + cl)) == u16_value(e, cb));
    // and writing it changed no byte that the checksum covers
    let d = |i: int| skipped(skip_pairs(p), i);
    assert forall|i: int| 0 <= i < b5.len() && !d(i) implies #[trigger] b5[i] == b4[i] by {
        if co <= i < co + 2 {
            assert(skipped(skip_pairs(p), i));
        }
    }
    lemma_kept_agree(b5, b4, d, d);
    assert(checksummed_bytes(b5, skip_pairs(p)) == checksummed_bytes(b4, skip_pairs(p)));
    // the length bytes survive the later writes
    assert(b5[l.ssid_len_offset as int] == b4[l.ssid_len_offset as int]);
    assert(b4[l.ssid_len_offset as int] == b3[l.ssid_len_offset as int]);
    assert(b3[l.ssid_len_offset as int] == b2[l.ssid_len_offset as int]);
    assert(b5[l.psk_len_offset as int] == b4[l.psk_len_offset as int]);
    assert(b4[l.psk_len_offset as int] == b3[l.psk_len_offset as int]);
    assert(b3[l.psk_len_offset as int] == b2[l.psk_len_offset as int]);
    // the magic is untouched
    assert forall|i: int| 0 <= i < 4 && i < block.len() implies #[trigger] b5[i] == block[i] by {
        assert(b5[i] == b4[i]);
        assert(b4[i] == b3[i]);
        assert(b3[i] == b2[i]);
    }
    // the SSID and PSK fields read back
    let so = l.ssid_offset as int;
    let sm = l.ssid_max as int;
    let po = l.psk_offset as int;
    let pm = l.psk_max as int;
    assert(b5.subrange(so, so + sm) =~= b3.subrange(so, so + sm)) by {
        assert forall|i: int| 0 <= i < sm implies #[trigger] b5.subrange(so, so + sm)[i] == b3.subrange(
            so,
            so + sm,
        )[i] by {
            assert(b5[so + i] == b4[so + i]);
            assert(b4[so + i] == b3[so + i]);
        }
    }
    assert(b5.subrange(po, po + pm) =~= b4.subrange(po, po + pm)) by {
        assert forall|i: int| 0 <= i < pm implies #[trigger] b5.subrange(po, po + pm)[i] == b4.subrange(
            po,
            po + pm,
        )[i] by {
            assert(b5[po + i] == b4[po + i]);
        }
    }
}

/// Whenever patching succeeds, its output verifies, with the selected block among the
/// valid ones; the output is the selected block rewritten.
pub proof fn lemma_patch_output_verifies(p: Profile, fw: Seq<u8>, opts: PatchOptions, out: Seq<u8>)
    requires
        patch_result(p, fw, opts) == Ok::<Seq<u8>, VerifyError>(out),
    ensures
        ({
            let base = select_candidate(verify_result(p, fw).unwrap(), opts.select_index).unwrap();
            &&& verify_result(p, out) is Ok
            &&& verify_result(p, out).unwrap().contains(base)
            &&& patch_at_result(
                p,
                fw,
                base.offset as int,
                encode_utf8(opts.ssid@),
                encode_utf8(opts.psk@),
            ) == Ok::<Seq<u8>, VerifyError>(out)
        }),
{
}

/// On a sound layout, writing to the selected block yields a block that is still a
/// candidate and passes every check; bytes outside it are unchanged, and its length
/// bytes and SSID and PSK fields read back the values written, padded with zeros.
/// Patching then returns that firmware, unless the firmware now holds more candidates
/// than the profile allows (the written values may themselves contain the magic), in
/// which case it refuses.
pub proof fn lemma_patch_then_verify(p: Profile, fw: Seq<u8>, opts: PatchOptions)
    requires
        fw.len() <= usize::MAX,
        layout_sound(p),
        verify_result(p, fw) is Ok,
        select_candidate(verify_result(p, fw).unwrap(), opts.select_index) is Ok,
        patch_at_result(
            p,
            fw,
            select_candidate(verify_result(p, fw).unwrap(), opts.select_index).unwrap().offset as int,
            encode_utf8(opts.ssid@),
            encode_utf8(opts.psk@),
        ) is Ok,
    ensures
        ({
            let base = select_candidate(verify_result(p, fw).unwrap(), opts.select_index).unwrap();
            let b = base.offset as int;
            let size = p.scan.struct_size as int;
            let l = p.layout;
            let ssid = encode_utf8(opts.ssid@);
            let psk = encode_utf8(opts.psk@);
            let out = patch_at_result(p, fw, b, ssid, psk).unwrap();
            let block = out.subrange(b, b + size);
            &&& out.len() == fw.len()
            &&& forall|i: int| 0 <= i < fw.len() && !(b <= i < b + size) ==> #[trigger] out[i]
                == fw[i]
            &&& is_candidate(p, out, b)
            &&& candidate_valid(p, out, b)
            &&& block[l.ssid_len_offset as int] == ssid.len()
            &&& block[l.psk_len_offset as int] == psk.len()
            &&& block.subrange(l.ssid_offset as int, l.ssid_offset + l.ssid_max) == ssid + zeros(
                (l.ssid_max - ssid.len()) as nat,
            )
            &&& block.subrange(l.psk_offset as int, l.psk_offset + l.psk_max) == psk + zeros(
                (l.psk_max - psk.len()) as nat,
            )
            &&& match patch_result(p, fw, opts) {
                Ok(o) => o == out,
                Err(e) => e is Scan && e->Scan_0 is TooManyCandidates,
            }
        }),
{
    let valid = verify_result(p, fw).unwrap();
    let base = select_candidate(valid, opts.select_index).unwrap();
    let b = base.offset as int;
    let ssid = encode_utf8(opts.ssid@);
    let psk = encode_utf8(opts.psk@);
    let out = patch_at_result(p, fw, b, ssid, psk).unwrap();
    lemma_selected(p, fw, opts);
    lemma_written_block(p, fw, b, ssid, psk);
    lemma_verifies_with(p, out, base);
}

/// The firmware after writing to a valid block of a sound layout.
proof fn lemma_written_block(p: Profile, fw: Seq<u8>, b: int, ssid: Seq<u8>, psk: Seq<u8>)
    requires
        fw.len() <= usize::MAX,
        layout_sound(p),
        candidate_valid(p, fw, b),
        is_candidate(p, fw, b),
        patch_at_result(p, fw, b, ssid, psk) is Ok,
    ensures
        ({
            let size = p.scan.struct_size as int;
            let l = p.layout;
            let out = patch_at_result(p, fw, b, ssid, psk).unwrap();
            let block = out.subrange(b, b + size);
            &&& out.len() == fw.len()
            &&& forall|i: int| 0 <= i < fw.len() && !(b <= i < b + size) ==> #[trigger] out[i]
                == fw[i]
            &&& is_candidate(p, out, b)
            &&& candidate_valid(p, out, b)
            &&& block[l.ssid_len_offset as int] == ssid.len()
            &&& block[l.psk_len_offset as int] == psk.len()
            &&& block.subrange(l.ssid_offset as int, l.ssid_offset + l.ssid_max) == ssid + zeros(
                (l.ssid_max - ssid.len()) as nat,
            )
            &&& block.subrange(l.psk_offset as int, l.psk_offset + l.psk_max) == psk + zeros(
                (l.psk_max - psk.len()) as nat,
            )
        }),
{
    let size = p.scan.struct_size as int;
    let out = patch_at_result(p, fw, b, ssid, psk).unwrap();
    let old_block = block_at(p, fw, b);
    let new_block = patched_block(p, old_block, ssid, psk);
    lemma_patched_block(p, old_block, ssid, psk);
    assert(out == put(fw, b, new_block));
    lemma_put(fw, b, new_block);
    assert(out.subrange(b, b + size) =~= new_block);
    assert(block_at(p, out, b) == new_block);
    // the magic is still at `b`
    assert(out.subrange(b, b + 4) =~= fw.subrange(b, b + 4)) by {
        assert forall|i: int| 0 <= i < 4 implies #[trigger] out.subrange(b, b + 4)[i] == fw.subrange(
            b,
            b + 4,
        )[i] by {
            if i < size {
                assert(new_block[i] == old_block[i]);
            }
        }
    }
}

/// A firmware with a valid candidate at `c` either verifies with `c` among the valid
/// blocks or holds more candidates than the profile allows.
proof fn lemma_verifies_with(p: Profile, fw: Seq<u8>, c: Candidate)
    requires
        is_candidate(p, fw, c.offset as int),
        candidate_valid(p, fw, c.offset as int),
    ensures
        match verify_result(p, fw) {
            Ok(valid) => valid.contains(c),
            Err(e) => e is Scan && e->Scan_0 is TooManyCandidates,
        },
{
    lemma_candidate_listed(p, fw, c.offset as int, fw.len() - 3);
    assert(Candidate { offset: c.offset } == c);
    let cs = all_candidates(p, fw);
    if scan_result(p, fw) is Ok {
        lemma_valid_listed(p, fw, cs, c);
    }
}

/// Every listed candidate is a candidate.
proof fn lemma_candidates_sound(p: Profile, fw: Seq<u8>, n: int, c: Candidate)
    requires
        candidates_below(p, fw, n).contains(c),
        fw.len() <= usize::MAX,
    ensures
        is_candidate(p, fw, c.offset as int),
    decreases n,
{
    if n > 0 {
        let prev = candidates_below(p, fw, n - 1);
        let cur = candidates_below(p, fw, n);
        let k = choose|k: int| 0 <= k < cur.len() && cur[k] == c;
        if k < prev.len() {
            assert(prev[k] == c);
            lemma_candidates_sound(p, fw, n - 1, c);
        } else {
            assert(is_candidate(p, fw, n - 1));
            assert(c == Candidate { offset: (n - 1) as usize });
        }
    }
}

/// The block that patching selects was listed as valid, and patching it is what
/// patching does.
proof fn lemma_selected(p: Profile, fw: Seq<u8>, opts: PatchOptions)
    requires
        fw.len() <= usize::MAX,
        verify_result(p, fw) is Ok,
        select_candidate(verify_result(p, fw).unwrap(), opts.select_index) is Ok,
    ensures
        ({
            let base = select_candidate(verify_result(p, fw).unwrap(), opts.select_index).unwrap();
            &&& candidate_valid(p, fw, base.offset as int)
            &&& is_candidate(p, fw, base.offset as int)
        }),
{
    let valid = verify_result(p, fw).unwrap();
    let base = select_candidate(valid, opts.select_index).unwrap();
    let cs = all_candidates(p, fw);
    crate::firmware::lemma_valid_among_valid(p, fw, cs);
    lemma_valid_among_sub(p, fw, cs);
    assert(valid == valid_among(p, fw, cs));
    let k = if valid.len() == 1 && opts.select_index is None {
        0
    } else {
        opts.select_index.unwrap() as int
    };
    assert(valid[k] == base);
    assert(cs.contains(base));
    lemma_candidates_sound(p, fw, fw.len() - 3, base);
}

/// Every candidate that survives the checks was listed.
proof fn lemma_valid_among_sub(p: Profile, fw: Seq<u8>, cs: Seq<Candidate>)
    ensures
        forall|k: int|
            0 <= k < valid_among(p, fw, cs).len() ==> cs.contains(
                #[trigger] valid_among(p, fw, cs)[k],
            ),
    decreases cs.len(),
{
    if cs.len() > 0 {
        lemma_valid_among_sub(p, fw, cs.drop_last());
        let prev = valid_among(p, fw, cs.drop_last());
        let cur = valid_among(p, fw, cs);
        assert forall|k: int| 0 <= k < cur.len() implies cs.contains(#[trigger] cur[k]) by {
            if k < prev.len() {
                assert(cur[k] == prev[k]);
                let j = choose|j: int| 0 <= j < cs.drop_last().len() && cs.drop_last()[j] == prev[k];
                assert(cs[j] == prev[k]);
            } else {
                assert(cs[cs.len() - 1] == cur[k]);
            }
        }
    }
}

/// Verification reports exactly the blocks that are candidates and pass every check.
pub proof fn lemma_verify_exact(p: Profile, fw: Seq<u8>)
    requires
        fw.len() <= usize::MAX,
        verify_result(p, fw) is Ok,
    ensures
        forall|c: Candidate|
            verify_result(p, fw).unwrap().contains(c) <==> (is_candidate(p, fw, c.offset as int)
                && candidate_valid(p, fw, c.offset as int)),
{
    let cs = all_candidates(p, fw);
    let valid = verify_result(p, fw).unwrap();
    assert(valid == valid_among(p, fw, cs));
    crate::firmware::lemma_valid_among_valid(p, fw, cs);
    lemma_valid_among_sub(p, fw, cs);
    assert forall|c: Candidate| valid.contains(c) <==> (is_candidate(p, fw, c.offset as int)
        && candidate_valid(p, fw, c.offset as int)) by {
        if valid.contains(c) {
            let k = choose|k: int| 0 <= k < valid.len() && valid[k] == c;
            assert(cs.contains(valid[k]));
            lemma_candidates_sound(p, fw, fw.len() - 3, c);
        }
        if is_candidate(p, fw, c.offset as int) && candidate_valid(p, fw, c.offset as int) {
            lemma_candidate_listed(p, fw, c.offset as int, fw.len() - 3);
            assert(Candidate { offset: c.offset } == c);
            lemma_valid_listed(p, fw, cs, c);
        }
    }
}

/// The two stored checksum bytes lie in the checksum's skip ranges.
pub open spec fn checksum_skipped(p: Profile) -> bool {
    let co = p.layout.checksum_offset as int;
    forall|i: int| co <= i < co + 2 ==> #[trigger] skipped(skip_pairs(p), i)
}

/// Index `i` of a block of `n` bytes is written by one of the four field writes of a
/// patch (length bytes, SSID field, PSK field).
pub open spec fn field_written(p: Profile, n: int, i: int) -> bool {
    let l = p.layout;
    ||| i == l.ssid_len_offset
    ||| i == l.psk_len_offset
    ||| (l.ssid_offset + l.ssid_max <= n && l.ssid_offset <= i < l.ssid_offset + l.ssid_max)
    ||| (l.psk_offset + l.psk_max <= n && l.psk_offset <= i < l.psk_offset + l.psk_max)
}

/// The block after the four field writes of a patch, before the checksum is written.
pub open spec fn fields_written(p: Profile, b: Seq<u8>, ssid: Seq<u8>, psk: Seq<u8>) -> Seq<u8> {
    let l = p.layout;
    let b1 = b.update(l.ssid_len_offset as int, ssid.len() as u8);
    let b2 = b1.update(l.psk_len_offset as int, psk.len() as u8);
    let b3 = padded_field(b2, l.ssid_offset, l.ssid_max, ssid);
    padded_field(b3, l.psk_offset, l.psk_max, psk)
}

proof fn lemma_padded_any(b: Seq<u8>, offset: usize, max: usize, data: Seq<u8>)
    requires
        data.len() <= max,
    ensures
        padded_field(b, offset, max, data).len() == b.len(),
        forall|i: int|
            0 <= i < b.len() ==> #[trigger] padded_field(b, offset, max, data)[i] == (if offset
                + max <= b.len() && offset <= i < offset + max {
                if i - offset < data.len() {
                    data[i - offset]
                } else {
                    0u8
                }
            } else {
                b[i]
            }),
{
    if offset + max <= b.len() {
        lemma_padded(b, offset, max, data);
    }
}

/// The field writes set every written index to a value that does not depend on the
/// block, and leave every other index alone.
proof fn lemma_fields_written(p: Profile, x: Seq<u8>, y: Seq<u8>, ssid: Seq<u8>, psk: Seq<u8>)
    requires
        x.len() == y.len(),
        p.layout.ssid_len_offset < x.len(),
        p.layout.psk_len_offset < x.len(),
        ssid.len() <= p.layout.ssid_max,
        psk.len() <= p.layout.psk_max,
    ensures
        fields_written(p, x, ssid, psk).len() == x.len(),
        forall|i: int|
            0 <= i < x.len() ==> (field_written(p, x.len() as int, i) ==> #[trigger] fields_written(
                p,
                x,
                ssid,
                psk,
            )[i] == fields_written(p, y, ssid, psk)[i]) && (!field_written(p, x.len() as int, i)
                ==> fields_written(p, x, ssid, psk)[i] == x[i]),
{
    let l = p.layout;
    let x1 = x.update(l.ssid_len_offset as int, ssid.len() as u8);
    let x2 = x1.update(l.psk_len_offset as int, psk.len() as u8);
    let x3 = padded_field(x2, l.ssid_offset, l.ssid_max, ssid);
    let y1 = y.update(l.ssid_len_offset as int, ssid.len() as u8);
    let y2 = y1.update(l.psk_len_offset as int, psk.len() as u8);
    let y3 = padded_field(y2, l.ssid_offset, l.ssid_max, ssid);
    lemma_padded_any(x2, l.ssid_offset, l.ssid_max, ssid);
    lemma_padded_any(x3, l.psk_offset, l.psk_max, psk);
    lemma_padded_any(y2, l.ssid_offset, l.ssid_max, ssid);
    lemma_padded_any(y3, l.psk_offset, l.psk_max, psk);
    assert forall|i: int| 0 <= i < x.len() implies (field_written(p, x.len() as int, i)
        ==> #[trigger] fields_written(p, x, ssid, psk)[i] == fields_written(p, y, ssid, psk)[i])
        && (!field_written(p, x.len() as int, i) ==> fields_written(p, x, ssid, psk)[i]
        == x[i]) by {
        assert(x3[i] == padded_field(x2, l.ssid_offset, l.ssid_max, ssid)[i]);
        assert(y3[i] == padded_field(y2, l.ssid_offset, l.ssid_max, ssid)[i]);
    }
}

/// Rewriting an already patched block with the same values changes nothing, provided
/// the checksum does not cover its own two bytes.
proof fn lemma_patched_block_idempotent(p: Profile, b: Seq<u8>, ssid: Seq<u8>, psk: Seq<u8>)
    requires
        p.layout.ssid_len_offset < b.len(),
        p.layout.psk_len_offset < b.len(),
        p.layout.checksum_offset + 2 <= b.len(),
        ssid.len() <= p.layout.ssid_max,
        psk.len() <= p.layout.psk_max,
        checksum_skipped(p),
    ensures
        patched_block(p, patched_block(p, b, ssid, psk), ssid, psk) == patched_block(
            p,
            b,
            ssid,
            psk,
        ),
{
    let co = p.layout.checksum_offset as int;
    let e = p.scan.endianness;
    let b4 = fields_written(p, b, ssid, psk);
    let cb = u16_bytes(e, block_checksum(p, b4));
    let b5 = put(b4, co, cb);
    assert(patched_block(p, b, ssid, psk) == b5);
    lemma_fields_written(p, b, b, ssid, psk);
    lemma_u16_roundtrip(e, block_checksum(p, b4));
    lemma_put(b4, co, cb);
    lemma_fields_written(p, b5, b4, ssid, psk);
    lemma_fields_written(p, b4, b, ssid, psk);
    let x4 = fields_written(p, b5, ssid, psk);
    let d = |i: int| skipped(skip_pairs(p), i);
    assert forall|i: int| 0 <= i < x4.len() && !d(i) implies #[trigger] x4[i] == b4[i] by {
        if co <= i < co + 2 {
            assert(skipped(skip_pairs(p), i));
        }
        if field_written(p, b.len() as int, i) {
            assert(x4[i] == fields_written(p, b4, ssid, psk)[i]);
            assert(fields_written(p, b4, ssid, psk)[i] == fields_written(p, b, ssid, psk)[i]);
        }
    }
    lemma_kept_agree(x4, b4, d, d);
    assert(block_checksum(p, x4) == block_checksum(p, b4));
    assert(patched_block(p, b5, ssid, psk) == put(x4, co, cb));
    lemma_put(x4, co, cb);
    assert(put(x4, co, cb) =~= b5) by {
        assert forall|i: int| 0 <= i < b5.len() implies #[trigger] put(x4, co, cb)[i] == b5[i] by {
            if !(co <= i < co + 2) {
                if field_written(p, b.len() as int, i) {
                    assert(x4[i] == fields_written(p, b4, ssid, psk)[i]);
                }
            }
        }
    }
}

/// Patching a patched firmware again with the same options, when verification reports
/// the same valid blocks for both, returns it unchanged, provided the checksum does not
/// cover its own two bytes.
pub proof fn lemma_patch_idempotent(p: Profile, fw: Seq<u8>, opts: PatchOptions, out: Seq<u8>)
    requires
        fw.len() <= usize::MAX,
        checksum_skipped(p),
        patch_result(p, fw, opts) == Ok::<Seq<u8>, VerifyError>(out),
        verify_result(p, out) == verify_result(p, fw),
    ensures
        patch_result(p, out, opts) == Ok::<Seq<u8>, VerifyError>(out),
{
    let valid = verify_result(p, fw).unwrap();
    let base = select_candidate(valid, opts.select_index).unwrap();
    let b = base.offset as int;
    let size = p.scan.struct_size as int;
    let ssid = encode_utf8(opts.ssid@);
    let psk = encode_utf8(opts.psk@);
    lemma_selected(p, fw, opts);
    let b0 = block_at(p, fw, b);
    let b5 = patched_block(p, b0, ssid, psk);
    assert(out == put(fw, b, b5));
    lemma_fields_written(p, b0, b0, ssid, psk);
    lemma_put(fw, b, b5);
    assert(block_at(p, out, b) =~= b5);
    lemma_patched_block_idempotent(p, b0, ssid, psk);
    assert(put(out, b, b5) =~= out);
    assert(patch_at_result(p, out, b, ssid, psk) == Ok::<Seq<u8>, VerifyError>(out));
}

/// Changing any single byte of a valid block that the checksum covers, other than the
/// two stored checksum bytes, makes the block invalid.
pub proof fn lemma_single_byte_change_detected(p: Profile, fw: Seq<u8>, fw2: Seq<u8>, off: int, j: int)
    requires
        candidate_valid(p, fw, off),
        fw2.len() == fw.len(),
        0 <= j < p.scan.struct_size,
        fw2[off + j] != fw[off + j],
        forall|i: int| 0 <= i < fw.len() && i != off + j ==> #[trigger] fw2[i] == fw[i],
        !skipped(skip_pairs(p), j),
        !(p.layout.checksum_offset <= j < p.layout.checksum_offset + 2),
    ensures
        !candidate_valid(p, fw2, off),
{
    let size = p.scan.struct_size as int;
    let b1 = block_at(p, fw, off);
    let b2 = block_at(p, fw2, off);
    assert forall|i: int| 0 <= i < b1.len() && i != j implies #[trigger] b1[i] == b2[i] by {
        assert(fw2[off + i] == fw[off + i]);
    }
    let sp = skip_pairs(p);
    let d = |i: int| skipped(sp, i);
    let k = lemma_kept_single_change(b1, b2, d, j);
    assert(checksummed_bytes(b1, sp) == crate::crc16::kept_where(b1, d));
    assert(checksummed_bytes(b2, sp) == crate::crc16::kept_where(b2, d));
    lemma_crc_detects_single_byte(0xffff, checksummed_bytes(b1, sp), k, b2[j]);
    let co = p.layout.checksum_offset as int;
    let cl = p.layout.checksum_len as int;
    if candidate_valid(p, fw2, off) {
        let s1 = b1.subrange(co, co + cl);
        let s2 = b2.subrange(co, co + cl);
        assert(s1[0] == s2[0]);
        assert(s1[1] == s2[1]);
        assert(u16_value(p.scan.endianness, s1) == u16_value(p.scan.endianness, s2));
        assert(block_checksum(p, b1) != block_checksum(p, b2));
    }
}

/// Writing to any block that lies inside the firmware, valid or not: only bytes of that
/// block change, and only in the length bytes, the SSID and PSK fields and the two
/// checksum bytes. When the checksum does not cover its own two bytes, the stored
/// checksum matches the block as written. When the written fields are apart, the length
/// bytes and the SSID and PSK fields read back the values written, padded with zeros.
pub proof fn lemma_patch_at_any_block(
    p: Profile,
    fw: Seq<u8>,
    base: int,
    ssid: Seq<u8>,
    psk: Seq<u8>,
    out: Seq<u8>,
)
    requires
        0 <= base,
        patch_at_result(p, fw, base, ssid, psk) == Ok::<Seq<u8>, VerifyError>(out),
    ensures
        ({
            let size = p.scan.struct_size as int;
            let l = p.layout;
            let co = l.checksum_offset as int;
            let block = out.subrange(base, base + size);
            &&& out.len() == fw.len()
            &&& forall|i: int|
                0 <= i < fw.len() && #[trigger] out[i] != fw[i] ==> base <= i < base + size && (
                field_written(p, size, i - base) || co <= i - base < co + 2)
            &&& checksum_skipped(p) ==> u16_value(p.scan.endianness, block.subrange(co, co + 2))
                == block_checksum(p, block)
            &&& writes_apart(p) ==> {
                &&& block[l.ssid_len_offset as int] == ssid.len()
                &&& block[l.psk_len_offset as int] == psk.len()
                &&& block.subrange(l.ssid_offset as int, l.ssid_offset + l.ssid_max) == ssid
                    + zeros((l.ssid_max - ssid.len()) as nat)
                &&& block.subrange(l.psk_offset as int, l.psk_offset + l.psk_max) == psk + zeros(
                    (l.psk_max - psk.len()) as nat,
                )
            }
        }),
{
    let size = p.scan.struct_size as int;
    let l = p.layout;
    let co = l.checksum_offset as int;
    let e = p.scan.endianness;
    let b0 = block_at(p, fw, base);
    let b4 = fields_written(p, b0, ssid, psk);
    let cb = u16_bytes(e, block_checksum(p, b4));
    let b5 = put(b4, co, cb);
    assert(patched_block(p, b0, ssid, psk) == b5);
    lemma_fields_written(p, b0, b0, ssid, psk);
    lemma_u16_roundtrip(e, block_checksum(p, b4));
    lemma_put(b4, co, cb);
    lemma_put(fw, base, b5);
    let block = out.subrange(base, base + size);
    assert(block =~= b5);
    assert forall|i: int| 0 <= i < fw.len() && #[trigger] out[i] != fw[i] implies base <= i
        < base + size && (field_written(p, size, i - base) || co <= i - base < co + 2) by {
        if base <= i < base + size {
            assert(b0[i - base] == fw[i]);
        }
    }
    if checksum_skipped(p) {
        let d = |i: int| skipped(skip_pairs(p), i);
        assert forall|i: int| 0 <= i < b5.len() && !d(i) implies #[trigger] b5[i] == b4[i] by {
            if co <= i < co + 2 {
                assert(skipped(skip_pairs(p), i));
            }
        }
        lemma_kept_agree(b5, b4, d, d);
        assert(b5.subrange(co, co + 2) =~= cb);
    }
    if writes_apart(p) {
        let b1 = b0.update(l.ssid_len_offset as int, ssid.len() as u8);
        let b2 = b1.update(l.psk_len_offset as int, psk.len() as u8);
        let b3 = padded_field(b2, l.ssid_offset, l.ssid_max, ssid);
        lemma_padded(b2, l.ssid_offset, l.ssid_max, ssid);
        lemma_padded(b3, l.psk_offset, l.psk_max, psk);
        assert(b5[l.ssid_len_offset as int] == b2[l.ssid_len_offset as int]);
        assert(b5[l.psk_len_offset as int] == b2[l.psk_len_offset as int]);
        let so = l.ssid_offset as int;
        let sm = l.ssid_max as int;
        let po = l.psk_offset as int;
        let pm = l.psk_max as int;
        assert(b5.subrange(so, so + sm) =~= b3.subrange(so, so + sm)) by {
            assert forall|i: int| 0 <= i < sm implies #[trigger] b5.subrange(so, so + sm)[i]
                == b3.subrange(so, so + sm)[i] by {
                assert(b5[so + i] == b4[so + i]);
                assert(b4[so + i] == b3[so + i]);
            }
        }
        assert(b5.subrange(po, po + pm) =~= b4.subrange(po, po + pm)) by {
            assert forall|i: int| 0 <= i < pm implies #[trigger] b5.subrange(po, po + pm)[i]
                == b4.subrange(po, po + pm)[i] by {
                assert(b5[po + i] == b4[po + i]);
            }
        }
    }
}

/// Whether a candidate passes the checks depends only on the block at its offset.
pub proof fn lemma_candidate_valid_local(p: Profile, fw1: Seq<u8>, o1: int, fw2: Seq<u8>, o2: int)
    requires
        0 <= o1,
        0 <= o2,
        o1 + p.scan.struct_size <= fw1.len(),
        o2 + p.scan.struct_size <= fw2.len(),
        block_at(p, fw1, o1) == block_at(p, fw2, o2),
    ensures
        candidate_valid(p, fw1, o1) == candidate_valid(p, fw2, o2),
{
}

/// A version field of one, two or four bytes written in a byte order reads back, in that
/// same byte order, as the value written.
pub proof fn lemma_version_field_roundtrip(e: Endianness, b: u8, v16: u16, v32: u32)
    ensures
        uint_value(e, seq![b]) == Some(b as u64),
        uint_value(e, u16_bytes(e, v16)) == Some(v16 as u64),
        uint_value(e, u32_bytes(e, v32)) == Some(v32 as u64),
{
    lemma_u16_roundtrip(e, v16);
    lemma_u32_roundtrip(e, v32);
}

/// Scanning reports exactly the positions where the four bytes of the magic, in the
/// profile's byte order, occur with a whole block after them, in increasing order.
pub proof fn lemma_scan_exact(p: Profile, fw: Seq<u8>)
    requires
        fw.len() <= usize::MAX,
        scan_result(p, fw) is Ok,
    ensures
        ({
            let cs = scan_result(p, fw).unwrap();
            let magic = u32_bytes(p.scan.endianness, p.scan.magic_u32);
            &&& forall|k: int|
                0 <= k < cs.len() ==> {
                    let o = #[trigger] cs[k].offset as int;
                    &&& o + 4 <= fw.len()
                    &&& fw.subrange(o, o + 4) == magic
                    &&& o + p.scan.struct_size <= fw.len()
                }
            &&& forall|pos: int|
                0 <= pos && pos + 4 <= fw.len() && #[trigger] fw.subrange(pos, pos + 4) == magic && pos
                    + p.scan.struct_size <= fw.len() ==> cs.contains(
                    Candidate { offset: pos as usize },
                )
            &&& forall|a: int, b: int|
                0 <= a < b < cs.len() ==> #[trigger] cs[a].offset < #[trigger] cs[b].offset
        }),
{
    let cs = scan_result(p, fw).unwrap();
    let n = fw.len() - 3;
    assert forall|k: int| 0 <= k < cs.len() implies {
        let o = #[trigger] cs[k].offset as int;
        &&& o + 4 <= fw.len()
        &&& fw.subrange(o, o + 4) == u32_bytes(p.scan.endianness, p.scan.magic_u32)
        &&& o + p.scan.struct_size <= fw.len()
    } by {
        assert(cs.contains(cs[k]));
        lemma_candidates_sound(p, fw, n, cs[k]);
    }
    assert forall|pos: int|
        0 <= pos && pos + 4 <= fw.len() && #[trigger] fw.subrange(pos, pos + 4) == u32_bytes(
            p.scan.endianness,
            p.scan.magic_u32,
        ) && pos + p.scan.struct_size <= fw.len() implies cs.contains(
        Candidate { offset: pos as usize },
    ) by {
        lemma_candidate_listed(p, fw, pos, n);
    }
    lemma_candidates_increasing(p, fw, n);
}

proof fn lemma_candidates_increasing(p: Profile, fw: Seq<u8>, n: int)
    requires
        fw.len() <= usize::MAX,
    ensures
        forall|k: int|
            0 <= k < candidates_below(p, fw, n).len() ==> #[trigger] candidates_below(
                p,
                fw,
                n,
            )[k].offset < n,
        forall|a: int, b: int|
            0 <= a < b < candidates_below(p, fw, n).len() ==> #[trigger] candidates_below(
                p,
                fw,
                n,
            )[a].offset < #[trigger] candidates_below(p, fw, n)[b].offset,
    decreases n,
{
    if n > 0 {
        lemma_candidates_increasing(p, fw, n - 1);
        let prev = candidates_below(p, fw, n - 1);
        let cur = candidates_below(p, fw, n);
        if is_candidate(p, fw, n - 1) {
            assert(cur[cur.len() - 1].offset == n - 1);
            assert forall|k: int| 0 <= k < cur.len() implies #[trigger] cur[k].offset < n by {
                if k < prev.len() {
                    assert(cur[k] == prev[k]);
                }
            }
            assert forall|a: int, b: int| 0 <= a < b < cur.len() implies #[trigger] cur[a].offset
                < #[trigger] cur[b].offset by {
                assert(cur[a] == prev[a]);
                if b < prev.len() {
                    assert(cur[b] == prev[b]);
                }
            }
        }
    }
}

/// When writing to a block fails, it is for the reason reported: a value longer than its
/// field or than a length byte holds, or a block, length byte or checksum field that
/// does not fit. When none of these holds, the write succeeds.
pub proof fn lemma_patch_at_outcome(p: Profile, fw: Seq<u8>, base: int, ssid: Seq<u8>, psk: Seq<u8>)
    requires
        ssid.len() <= usize::MAX,
        psk.len() <= usize::MAX,
    ensures
        ({
            let l = p.layout;
            let size = p.scan.struct_size;
            let fits = base + size <= fw.len() && l.ssid_len_offset < size && l.psk_len_offset
                < size && l.checksum_offset + l.checksum_len <= size && l.checksum_len >= 2;
            &&& (ssid.len() <= l.ssid_max && ssid.len() <= 255 && psk.len() <= l.psk_max
                && psk.len() <= 255 && fits) ==> patch_at_result(p, fw, base, ssid, psk) is Ok
            &&& match patch_at_result(p, fw, base, ssid, psk) {
                Ok(_) => ssid.len() <= l.ssid_max && ssid.len() <= 255 && psk.len() <= l.psk_max
                    && psk.len() <= 255 && fits,
                Err(VerifyError::SsidTooLong { bytes, max }) => bytes == ssid.len() && ssid.len()
                    > max && (max == l.ssid_max || max == 255),
                Err(VerifyError::PskTooLong { bytes, max }) => bytes == psk.len() && psk.len()
                    > max && (max == l.psk_max || max == 255),
                Err(VerifyError::NoCandidates) => !fits,
                Err(_) => false,
            }
        }),
{
}

/// On a sound layout whose maxima fit in a length byte, patching a firmware that
/// verifies with an SSID and a PSK no longer than their fields succeeds, unless the
/// result holds more candidates than the profile allows.
pub proof fn lemma_patch_within_limits_succeeds(p: Profile, fw: Seq<u8>, opts: PatchOptions)
    requires
        fw.len() <= usize::MAX,
        layout_sound(p),
        p.layout.ssid_max <= 255,
        p.layout.psk_max <= 255,
        verify_result(p, fw) is Ok,
        select_candidate(verify_result(p, fw).unwrap(), opts.select_index) is Ok,
        encode_utf8(opts.ssid@).len() <= p.layout.ssid_max,
        encode_utf8(opts.psk@).len() <= p.layout.psk_max,
    ensures
        match patch_result(p, fw, opts) {
            Ok(_) => true,
            Err(e) => e is Scan && e->Scan_0 is TooManyCandidates,
        },
{
    lemma_selected(p, fw, opts);
    let base = select_candidate(verify_result(p, fw).unwrap(), opts.select_index).unwrap();
    lemma_patch_at_outcome(
        p,
        fw,
        base.offset as int,
        encode_utf8(opts.ssid@),
        encode_utf8(opts.psk@),
    );
    lemma_patch_then_verify(p, fw, opts);
}

/// With several valid blocks and no index given, patching refuses rather than guess.
pub proof fn lemma_no_guessing(p: Profile, fw: Seq<u8>, opts: PatchOptions)
    requires
        verify_result(p, fw) is Ok,
        verify_result(p, fw).unwrap().len() > 1,
        opts.select_index is None,
    ensures
        patch_result(p, fw, opts) == Err::<Seq<u8>, VerifyError>(
            VerifyError::MultipleValidCandidates { valid: verify_result(p, fw).unwrap().len() as usize },
        ),
{
}

/// An SSID whose UTF-8 encoding is longer than the SSID field is refused, and so is a
/// PSK longer than its field, whatever block was selected.
pub proof fn lemma_too_long_refused(p: Profile, fw: Seq<u8>, base: int, ssid: Seq<u8>, psk: Seq<u8>)
    ensures
        ssid.len() > p.layout.ssid_max ==> patch_at_result(p, fw, base, ssid, psk) == Err::<
            Seq<u8>,
            VerifyError,
        >(VerifyError::SsidTooLong { bytes: ssid.len() as usize, max: p.layout.ssid_max }),
        ssid.len() <= p.layout.ssid_max && psk.len() > p.layout.psk_max ==> patch_at_result(
            p,
            fw,
            base,
            ssid,
            psk,
        ) == Err::<Seq<u8>, VerifyError>(
            VerifyError::PskTooLong { bytes: psk.len() as usize, max: p.layout.psk_max },
        ),
{
}

} // verus!
