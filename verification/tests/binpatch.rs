use binpatch_core::{
    crc16_modbus, crc16_modbus_with_skips, default_out_name, Candidate, Checksum, ChecksumAlgo, Endianness, Layout,
    PatchOptions, Profile, ProfileError, Scan, ScanError, SkipRange, VerifyError,
};

/// The reference profile `wifi_cfg_v1_crc16_modbus`.
fn sample_profile() -> Profile {
    Profile {
        profile_version: 1,
        id: "wifi_cfg_v1_crc16_modbus".to_string(),
        name: "Generic WiFi config v1 (CRC16/MODBUS)".to_string(),
        description: None,
        scan: Scan {
            magic_u32: 0x57494649,
            endianness: Endianness::Little,
            struct_size: 108,
            max_matches: Some(4),
        },
        layout: Layout {
            version: 1,
            version_offset: 4,
            version_len: Some(2),
            checksum_offset: 6,
            checksum_len: 2,
            ssid_len_offset: 8,
            psk_len_offset: 9,
            ssid_offset: 12,
            ssid_max: 32,
            psk_offset: 44,
            psk_max: 64,
        },
        checksum: Checksum {
            algo: ChecksumAlgo::Crc16Modbus,
            skip: Some(vec![SkipRange { offset: 6, len: 2 }]),
        },
    }
}

/// The profile of the validation tests, with the given SSID and PSK maxima.
fn bounds_profile(ssid_max: usize, psk_max: usize) -> Profile {
    Profile {
        profile_version: 1,
        id: "bad".to_string(),
        name: "bad".to_string(),
        description: None,
        scan: Scan {
            magic_u32: 0x57494649,
            endianness: Endianness::Little,
            struct_size: 400,
            max_matches: None,
        },
        layout: Layout {
            version: 1,
            version_offset: 4,
            version_len: None,
            checksum_offset: 6,
            checksum_len: 2,
            ssid_len_offset: 8,
            psk_len_offset: 9,
            ssid_offset: 12,
            ssid_max,
            psk_offset: 300,
            psk_max,
        },
        checksum: Checksum {
            algo: ChecksumAlgo::Crc16Modbus,
            skip: Some(vec![SkipRange { offset: 6, len: 2 }]),
        },
    }
}

fn pad_into(block: &mut [u8], offset: usize, max: usize, data: &[u8]) {
    let dst = &mut block[offset..offset + max];
    dst.fill(0);
    let size = data.len().min(max);
    dst[..size].copy_from_slice(&data[..size]);
}

fn skip_list(profile: &Profile) -> Vec<(usize, usize)> {
    profile
        .checksum
        .skip
        .as_deref()
        .unwrap_or_default()
        .iter()
        .map(|s| (s.offset, s.len))
        .collect()
}

fn build_valid_block(profile: &Profile, ssid: &str, psk: &str) -> Vec<u8> {
    let mut block = vec![0u8; profile.scan.struct_size];
    let magic = profile.scan.endianness.u32_to_bytes(profile.scan.magic_u32);
    block[0..4].copy_from_slice(&magic);

    let version_len = profile.layout.version_len.unwrap_or(2);
    let version_range = profile.layout.version_offset..profile.layout.version_offset + version_len;
    profile
        .scan
        .endianness
        .write_u16(&mut block[version_range], profile.layout.version as u16);

    block[profile.layout.ssid_len_offset] = ssid.len() as u8;
    block[profile.layout.psk_len_offset] = psk.len() as u8;
    pad_into(&mut block, profile.layout.ssid_offset, profile.layout.ssid_max, ssid.as_bytes());
    pad_into(&mut block, profile.layout.psk_offset, profile.layout.psk_max, psk.as_bytes());

    let checksum = crc16_modbus_with_skips(&block, &skip_list(profile));
    let checksum_range =
        profile.layout.checksum_offset..profile.layout.checksum_offset + profile.layout.checksum_len;
    profile.scan.endianness.write_u16(&mut block[checksum_range], checksum);
    block
}

fn opts(ssid: &str, psk: &str, select_index: Option<usize>) -> PatchOptions {
    PatchOptions { ssid: ssid.to_string(), psk: psk.to_string(), select_index }
}

// ---------------------------------------------------------------------------
// CRC
// ---------------------------------------------------------------------------

#[test]
fn crc16_modbus_known_vector() {
    // Standard MODBUS test vector: "123456789" -> 0x4B37
    let crc = crc16_modbus(b"123456789");
    assert_eq!(crc, 0x4b37);
}

#[test]
fn crc16_empty_input_is_initial_value() {
    assert_eq!(crc16_modbus(b""), 0xffff);
}

#[test]
fn crc16_without_skips_matches_plain() {
    let data = b"firmware bytes \x00\x01\x02\xff";
    assert_eq!(crc16_modbus_with_skips(data, &[]), crc16_modbus(data));
    assert_eq!(crc16_modbus_with_skips(data, &[(3, 0)]), crc16_modbus(data));
}

#[test]
fn crc16_skips_leave_out_ranges() {
    let data = b"12XX3456YY789";
    // "123456789" once the two XX and YY ranges are left out.
    assert_eq!(crc16_modbus_with_skips(data, &[(2, 2), (8, 2)]), 0x4b37);
    // order, overlap and touching ranges make no difference
    assert_eq!(crc16_modbus_with_skips(data, &[(8, 2), (2, 1), (3, 1), (2, 2)]), 0x4b37);
    // a range reaching past the end is cut at the end
    assert_eq!(crc16_modbus_with_skips(b"123456789ZZ", &[(9, 100)]), 0x4b37);
    // a range starting past the end changes nothing
    assert_eq!(crc16_modbus_with_skips(b"123456789", &[(20, 5)]), 0x4b37);
    // skipping everything leaves the initial value
    assert_eq!(crc16_modbus_with_skips(b"123456789", &[(0, 9)]), 0xffff);
    // a huge length saturates instead of overflowing
    assert_eq!(crc16_modbus_with_skips(b"123456789ZZ", &[(9, usize::MAX)]), 0x4b37);
}

#[test]
fn crc16_ignores_bytes_in_skipped_ranges() {
    let a = b"abcdefgh";
    let b = b"abXYefgh";
    assert_eq!(crc16_modbus_with_skips(a, &[(2, 2)]), crc16_modbus_with_skips(b, &[(2, 2)]));
    assert_ne!(crc16_modbus(a), crc16_modbus(b));
}

// ---------------------------------------------------------------------------
// Endianness
// ---------------------------------------------------------------------------

#[test]
fn endianness_u32_to_bytes() {
    assert_eq!(Endianness::Little.u32_to_bytes(0x57494649), [0x49, 0x46, 0x49, 0x57]);
    assert_eq!(Endianness::Big.u32_to_bytes(0x57494649), [0x57, 0x49, 0x46, 0x49]);
}

#[test]
fn endianness_reads() {
    let bytes = [0x01, 0x02, 0x03, 0x04, 0x05];
    assert_eq!(Endianness::Little.read_u16(&bytes), Some(0x0201));
    assert_eq!(Endianness::Big.read_u16(&bytes), Some(0x0102));
    assert_eq!(Endianness::Little.read_u32(&bytes), Some(0x04030201));
    assert_eq!(Endianness::Big.read_u32(&bytes), Some(0x01020304));
    assert_eq!(Endianness::Little.read_u16(&bytes[..1]), None);
    assert_eq!(Endianness::Big.read_u32(&bytes[..3]), None);
}

#[test]
fn endianness_write_u16() {
    let mut out = [0xaa, 0xbb, 0xcc];
    assert!(Endianness::Little.write_u16(&mut out, 0x1234));
    assert_eq!(out, [0x34, 0x12, 0xcc]);
    assert!(Endianness::Big.write_u16(&mut out, 0x1234));
    assert_eq!(out, [0x12, 0x34, 0xcc]);
    let mut short = [0xaa];
    assert!(!Endianness::Little.write_u16(&mut short, 0x1234));
    assert_eq!(short, [0xaa]);
}

#[test]
fn endianness_roundtrips() {
    for e in [Endianness::Little, Endianness::Big] {
        for v in [0u32, 1, 0xff, 0x100, 0xdead_beef, u32::MAX] {
            assert_eq!(e.read_u32(&e.u32_to_bytes(v)), Some(v));
        }
        for v in [0u16, 1, 0xff, 0x100, 0xbeef, u16::MAX] {
            let mut buf = [0u8; 2];
            assert!(e.write_u16(&mut buf, v));
            assert_eq!(e.read_u16(&buf), Some(v));
        }
    }
}

// ---------------------------------------------------------------------------
// Profile validation
// ---------------------------------------------------------------------------

#[test]
fn rejects_ssid_max_over_u8() {
    let err = bounds_profile(256, 64).validate().unwrap_err();
    assert!(matches!(err, ProfileError::InvalidSsidMax));
}

#[test]
fn rejects_psk_max_over_u8() {
    let err = bounds_profile(32, 256).validate().unwrap_err();
    assert!(matches!(err, ProfileError::InvalidPskMax));
}

#[test]
fn validate_accepts_reference_profile() {
    assert!(sample_profile().validate().is_ok());
    assert!(bounds_profile(32, 64).validate().is_ok());
}

#[test]
fn validate_reports_each_rule() {
    let mut p = sample_profile();
    p.profile_version = 2;
    assert!(matches!(p.validate(), Err(ProfileError::UnsupportedVersion(2))));

    let mut p = sample_profile();
    p.scan.struct_size = 0;
    assert!(matches!(p.validate(), Err(ProfileError::InvalidStructSize)));

    let mut p = sample_profile();
    p.scan.max_matches = Some(0);
    assert!(matches!(p.validate(), Err(ProfileError::InvalidMaxMatches)));

    let mut p = sample_profile();
    p.layout.version_len = Some(3);
    assert!(matches!(p.validate(), Err(ProfileError::InvalidVersionLen)));

    let mut p = sample_profile();
    p.layout.checksum_len = 4;
    assert!(matches!(p.validate(), Err(ProfileError::InvalidChecksumLen)));

    let mut p = sample_profile();
    p.layout.psk_offset = 60;
    match p.validate() {
        Err(ProfileError::LayoutOutOfBounds { field, offset, len, struct_size }) => {
            assert_eq!(field, "psk");
            assert_eq!((offset, len, struct_size), (60, 64, 108));
        }
        other => panic!("unexpected result: {other:?}"),
    }

    let mut p = sample_profile();
    p.layout.version_offset = 107;
    match p.validate() {
        Err(ProfileError::LayoutOutOfBounds { field, .. }) => assert_eq!(field, "version"),
        other => panic!("unexpected result: {other:?}"),
    }

    let mut p = sample_profile();
    p.checksum.skip = Some(vec![SkipRange { offset: 6, len: 2 }, SkipRange { offset: 100, len: 9 }]);
    match p.validate() {
        Err(ProfileError::SkipOutOfBounds { offset, len, struct_size }) => {
            assert_eq!((offset, len, struct_size), (100, 9, 108));
        }
        other => panic!("unexpected result: {other:?}"),
    }
}

#[test]
fn validate_reports_first_broken_rule() {
    let mut p = sample_profile();
    p.profile_version = 7;
    p.scan.struct_size = 0;
    assert!(matches!(p.validate(), Err(ProfileError::UnsupportedVersion(7))));
}

// ---------------------------------------------------------------------------
// Scan, verify, patch
// ---------------------------------------------------------------------------

#[test]
fn verify_and_patch_roundtrip() {
    let profile = sample_profile();
    let block = build_valid_block(&profile, "old", "oldpsk");

    let mut firmware = vec![0u8; 16];
    firmware.extend_from_slice(&block);
    firmware.extend_from_slice(&[0u8; 16]);

    let report = profile.verify(&firmware).unwrap();
    assert_eq!(report.valid.len(), 1);

    let patched = profile.patch(&firmware, opts("newssid", "newpsk", None)).unwrap();

    let report2 = profile.verify(&patched).unwrap();
    assert_eq!(report2.valid.len(), 1);
}

#[test]
fn patch_writes_fields_and_keeps_the_rest() {
    let profile = sample_profile();
    let block = build_valid_block(&profile, "old", "oldpsk");
    let mut firmware = vec![0x5au8; 16];
    firmware.extend_from_slice(&block);
    firmware.extend_from_slice(&[0xa5u8; 16]);

    let patched = profile.patch(&firmware, opts("newssid", "newpsk", None)).unwrap();
    assert_eq!(patched.len(), firmware.len());
    assert_eq!(&patched[..16], &firmware[..16]);
    assert_eq!(&patched[16 + 108..], &firmware[16 + 108..]);
    assert_eq!(patched, {
        let mut expected = firmware[..16].to_vec();
        expected.extend_from_slice(&build_valid_block(&profile, "newssid", "newpsk"));
        expected.extend_from_slice(&[0xa5u8; 16]);
        expected
    });
    let b = &patched[16..16 + 108];
    assert_eq!(b[8], 7);
    assert_eq!(b[9], 6);
    assert_eq!(&b[12..19], b"newssid");
    assert!(b[19..44].iter().all(|&x| x == 0));
    assert_eq!(&b[44..50], b"newpsk");
    assert!(b[50..108].iter().all(|&x| x == 0));
    assert_eq!(report_offsets(&profile, &patched), vec![16]);
}

fn report_offsets(profile: &Profile, firmware: &[u8]) -> Vec<usize> {
    profile.verify(firmware).unwrap().valid.iter().map(|c| c.offset).collect()
}

#[test]
fn verify_preserves_scan_error_too_many_candidates() {
    let profile = sample_profile();
    let block = build_valid_block(&profile, "a", "b");

    let mut firmware = Vec::new();
    for _ in 0..5 {
        firmware.extend_from_slice(&block);
        firmware.extend_from_slice(&[0u8; 4]);
    }

    let err = profile.verify(&firmware).unwrap_err();
    match err {
        VerifyError::Scan(ScanError::TooManyCandidates { found, max_matches }) => {
            assert_eq!(found, 5);
            assert_eq!(max_matches, 4);
        }
        other => panic!("unexpected error: {other:?}"),
    }
}

#[test]
fn patch_reports_ssid_too_long_in_bytes() {
    let profile = sample_profile();
    let block = build_valid_block(&profile, "old", "oldpsk");

    let mut firmware = vec![0u8; 16];
    firmware.extend_from_slice(&block);

    let ssid = "你".repeat(11);
    assert_eq!(ssid.len(), 33);

    let err = profile.patch(&firmware, opts(&ssid, "newpsk", None)).unwrap_err();

    match err {
        VerifyError::SsidTooLong { bytes, max } => {
            assert_eq!(bytes, ssid.len());
            assert_eq!(max, profile.layout.ssid_max);
        }
        other => panic!("unexpected error: {other:?}"),
    }
}

#[test]
fn patch_reports_psk_too_long() {
    let profile = sample_profile();
    let mut firmware = vec![0u8; 16];
    firmware.extend_from_slice(&build_valid_block(&profile, "old", "oldpsk"));
    let psk = "p".repeat(65);
    match profile.patch(&firmware, opts("ok", &psk, None)) {
        Err(VerifyError::PskTooLong { bytes, max }) => assert_eq!((bytes, max), (65, 64)),
        other => panic!("unexpected result: {other:?}"),
    }
}

#[test]
fn patch_reports_select_index_out_of_range() {
    let profile = sample_profile();
    let block1 = build_valid_block(&profile, "old1", "oldpsk1");
    let block2 = build_valid_block(&profile, "old2", "oldpsk2");

    let mut firmware = vec![0u8; 8];
    firmware.extend_from_slice(&block1);
    firmware.extend_from_slice(&[0u8; 8]);
    firmware.extend_from_slice(&block2);
    firmware.extend_from_slice(&[0u8; 8]);

    let report = profile.verify(&firmware).unwrap();
    assert_eq!(report.valid.len(), 2);

    let err = profile.patch(&firmware, opts("newssid", "newpsk", Some(99))).unwrap_err();

    match err {
        VerifyError::SelectIndexOutOfRange { index, valid } => {
            assert_eq!(index, 99);
            assert_eq!(valid, 2);
        }
        other => panic!("unexpected error: {other:?}"),
    }
}

#[test]
fn patch_refuses_to_guess_among_several() {
    let profile = sample_profile();
    let mut firmware = vec![0u8; 8];
    firmware.extend_from_slice(&build_valid_block(&profile, "a", "b"));
    firmware.extend_from_slice(&build_valid_block(&profile, "c", "d"));
    match profile.patch(&firmware, opts("x", "y", None)) {
        Err(VerifyError::MultipleValidCandidates { valid }) => assert_eq!(valid, 2),
        other => panic!("unexpected result: {other:?}"),
    }
    // with an index, the selected block alone is rewritten
    let patched = profile.patch(&firmware, opts("x", "y", Some(1))).unwrap();
    assert_eq!(&patched[..8 + 108], &firmware[..8 + 108]);
    assert_eq!(report_offsets(&profile, &patched), vec![8, 8 + 108]);
    assert_eq!(&patched[8 + 108 + 12..8 + 108 + 13], b"x");
}

#[test]
fn scan_reports_small_firmware_and_ignores_cut_blocks() {
    let profile = sample_profile();
    assert!(matches!(profile.scan_candidates(&[0x49, 0x46, 0x49]), Err(ScanError::FirmwareTooSmall)));
    assert!(matches!(
        profile.verify(&[1, 2]),
        Err(VerifyError::Scan(ScanError::FirmwareTooSmall))
    ));

    // magic present but the block does not fit
    let block = build_valid_block(&profile, "a", "b");
    let cut = &block[..50];
    assert_eq!(profile.scan_candidates(cut).unwrap(), Vec::<Candidate>::new());
    assert!(matches!(profile.verify(cut), Err(VerifyError::NoCandidates)));

    // two candidates, at their offsets
    let mut fw = vec![0u8; 3];
    fw.extend_from_slice(&block);
    fw.extend_from_slice(&block);
    let found = profile.scan_candidates(&fw).unwrap();
    assert_eq!(found, vec![Candidate { offset: 3 }, Candidate { offset: 111 }]);
}

#[test]
fn verify_rejects_corrupted_blocks() {
    let profile = sample_profile();
    let good = build_valid_block(&profile, "home", "secret");

    // checksum mismatch
    let mut bad = good.clone();
    bad[20] ^= 1;
    assert!(matches!(
        profile.verify(&bad),
        Err(VerifyError::NoValidCandidates { candidates: 1 })
    ));

    // wrong version
    let mut bad = good.clone();
    bad[4] = 2;
    assert!(matches!(profile.verify(&bad), Err(VerifyError::NoValidCandidates { .. })));

    // length above its maximum
    let mut bad = good.clone();
    bad[8] = 33;
    assert!(matches!(profile.verify(&bad), Err(VerifyError::NoValidCandidates { .. })));

    // only the good one of two blocks is reported
    let mut fw = good.clone();
    let mut second = good.clone();
    second[30] ^= 0xff;
    fw.extend_from_slice(&second);
    assert_eq!(report_offsets(&profile, &fw), vec![0]);
}

#[test]
fn verify_reads_version_fields_of_each_width() {
    for (width, endianness) in [(1usize, Endianness::Big), (4, Endianness::Big), (4, Endianness::Little)] {
        let mut profile = sample_profile();
        profile.scan.endianness = endianness;
        profile.layout.version = if width == 1 { 0x04 } else { 0x0102_0304 };
        profile.layout.version_len = Some(width);
        profile.layout.version_offset = 100;
        assert!(profile.validate().is_ok());

        let mut block = vec![0u8; 108];
        block[0..4].copy_from_slice(&endianness.u32_to_bytes(profile.scan.magic_u32));
        let v = profile.layout.version;
        let field: Vec<u8> = if width == 1 {
            vec![v as u8]
        } else {
            endianness.u32_to_bytes(v).to_vec()
        };
        block[100..100 + width].copy_from_slice(&field);
        let crc = crc16_modbus_with_skips(&block, &[(6, 2)]);
        endianness.write_u16(&mut block[6..8], crc);
        assert_eq!(report_offsets(&profile, &block), vec![0]);

        let mut wrong = block.clone();
        wrong[100] ^= 0x80;
        let crc = crc16_modbus_with_skips(&wrong, &[(6, 2)]);
        endianness.write_u16(&mut wrong[6..8], crc);
        assert!(matches!(profile.verify(&wrong), Err(VerifyError::NoValidCandidates { candidates: 1 })));
    }
}

#[test]
fn verify_without_skip_list_checks_whole_block() {
    let mut profile = sample_profile();
    profile.checksum.skip = None;
    // the stored checksum is part of the checksummed bytes, so the block built for the
    // skip list no longer verifies
    let block = build_valid_block(&sample_profile(), "a", "b");
    assert!(matches!(profile.verify(&block), Err(VerifyError::NoValidCandidates { candidates: 1 })));
}

// ---------------------------------------------------------------------------
// Output file name
// ---------------------------------------------------------------------------

#[test]
fn default_out_name_inserts_tag_before_extension() {
    assert_eq!(default_out_name(b"fw.bin"), b"fw.wifi.bin".to_vec());
    assert_eq!(default_out_name(b"a.b.elf"), b"a.b.wifi.elf".to_vec());
    assert_eq!(default_out_name(b"firmware"), b"firmware.wifi".to_vec());
    assert_eq!(default_out_name(b".hidden"), b".wifi.hidden".to_vec());
    assert_eq!(default_out_name(b"end."), b"end.wifi.".to_vec());
    assert_eq!(default_out_name(b""), b".wifi".to_vec());
}

#[test]
fn scan_limit_defaults_to_one() {
    let mut profile = sample_profile();
    profile.scan.max_matches = None;
    let block = build_valid_block(&profile, "a", "b");
    let mut fw = block.clone();
    assert_eq!(report_offsets(&profile, &fw), vec![0]);
    fw.extend_from_slice(&block);
    match profile.scan_candidates(&fw) {
        Err(ScanError::TooManyCandidates { found, max_matches }) => assert_eq!((found, max_matches), (2, 1)),
        other => panic!("unexpected result: {other:?}"),
    }
}

/// A small profile whose SSID field can hold the magic itself.
fn tiny_profile() -> Profile {
    Profile {
        profile_version: 1,
        id: "tiny".to_string(),
        name: "tiny".to_string(),
        description: None,
        scan: Scan {
            magic_u32: 0x57494649,
            endianness: Endianness::Little,
            struct_size: 16,
            max_matches: None,
        },
        layout: Layout {
            version: 1,
            version_offset: 4,
            version_len: None,
            checksum_offset: 6,
            checksum_len: 2,
            ssid_len_offset: 8,
            psk_len_offset: 9,
            ssid_offset: 10,
            ssid_max: 4,
            psk_offset: 14,
            psk_max: 2,
        },
        checksum: Checksum {
            algo: ChecksumAlgo::Crc16Modbus,
            skip: Some(vec![SkipRange { offset: 6, len: 2 }]),
        },
    }
}

#[test]
fn patch_refuses_output_that_does_not_verify() {
    let profile = tiny_profile();
    assert!(profile.validate().is_ok());
    let mut firmware = build_valid_block(&profile, "ab", "c");
    firmware.extend_from_slice(&[0u8; 10]);
    assert_eq!(firmware.len(), 26);
    assert_eq!(report_offsets(&profile, &firmware), vec![0]);

    // an SSID equal to the magic makes a second candidate in the output
    match profile.patch(&firmware, opts("IFIW", "", None)) {
        Err(VerifyError::Scan(ScanError::TooManyCandidates { found, max_matches })) => {
            assert_eq!((found, max_matches), (2, 1));
        }
        other => panic!("unexpected result: {other:?}"),
    }

    // any other SSID goes through, and the output verifies
    let patched = profile.patch(&firmware, opts("wxyz", "", None)).unwrap();
    assert_eq!(report_offsets(&profile, &patched), vec![0]);
}

#[test]
fn patch_again_with_same_options_changes_nothing() {
    let profile = sample_profile();
    let mut firmware = vec![0u8; 16];
    firmware.extend_from_slice(&build_valid_block(&profile, "old", "oldpsk"));
    let o = opts("newssid", "newpsk", None);
    let patched = profile.patch(&firmware, o.clone()).unwrap();
    let again = profile.patch(&patched, o).unwrap();
    assert_eq!(again, patched);
}

#[test]
fn every_single_byte_change_is_detected() {
    let profile = sample_profile();
    let block = build_valid_block(&profile, "home", "secret");
    for j in 0..block.len() {
        if j == 6 || j == 7 {
            continue;
        }
        for delta in [1u8, 0x80, 0xff] {
            let mut changed = block.clone();
            changed[j] ^= delta;
            assert!(profile.verify(&changed).is_err(), "byte {j} xor {delta:#x} not detected");
        }
    }
}
