use vstd::prelude::*;

verus! {

/// Byte order of the multi-byte integers stored in a configuration block.
#[derive(Debug, Clone, Copy, PartialEq, Eq, Structural)]
pub enum Endianness {
    Little,
    Big,
}

/// The two bytes of `value` in the given byte order.
pub open spec fn u16_bytes(e: Endianness, value: u16) -> Seq<u8> {
    let lo = (value % 256) as u8;
    let hi = (value / 256) as u8;
    match e {
        Endianness::Little => seq![lo, hi],
        Endianness::Big => seq![hi, lo],
    }
}

/// The four bytes of `value` in the given byte order.
pub open spec fn u32_bytes(e: Endianness, value: u32) -> Seq<u8> {
    let b0 = (value % 0x100) as u8;
    let b1 = ((value / 0x100) % 0x100) as u8;
    let b2 = ((value / 0x1_0000) % 0x100) as u8;
    let b3 = (value / 0x100_0000) as u8;
    match e {
        Endianness::Little => seq![b0, b1, b2, b3],
        Endianness::Big => seq![b3, b2, b1, b0],
    }
}

/// The integer held by the first two bytes of `b` in the given byte order.
pub open spec fn u16_value(e: Endianness, b: Seq<u8>) -> u16
    recommends
        b.len() >= 2,
{
    match e {
        Endianness::Little => (b[0] + 256 * b[1]) as u16,
        Endianness::Big => (256 * b[0] + b[1]) as u16,
    }
}

/// The integer held by the first four bytes of `b` in the given byte order.
pub open spec fn u32_value(e: Endianness, b: Seq<u8>) -> u32
    recommends
        b.len() >= 4,
{
    match e {
        Endianness::Little => (b[0] + 0x100 * b[1] + 0x1_0000 * b[2] + 0x100_0000 * b[3]) as u32,
        Endianness::Big => (0x100_0000 * b[0] + 0x1_0000 * b[1] + 0x100 * b[2] + b[3]) as u32,
    }
}

impl Endianness {
    /// Encodes `value` as four bytes in this byte order.
    pub fn u32_to_bytes(self, value: u32) -> (out: [u8; 4])
        ensures
            out@ == u32_bytes(self, value),
    {
        let b0 = (value % 0x100) as u8;
        let b1 = ((value / 0x100) % 0x100) as u8;
        let b2 = ((value / 0x1_0000) % 0x100) as u8;
        let b3 = (value / 0x100_0000) as u8;
        let out = match self {
            Endianness::Little => [b0, b1, b2, b3],
            Endianness::Big => [b3, b2, b1, b0],
        };
        assert(out@ =~= u32_bytes(self, value));
        out
    }

    /// Reads a `u16` from the first two bytes of `bytes`; `None` when there are fewer.
    pub fn read_u16(self, bytes: &[u8]) -> (out: Option<u16>)
        ensures
            out == (if bytes@.len() >= 2 {
                Some(u16_value(self, bytes@))
            } else {
                None::<u16>
            }),
    {
        if bytes.len() < 2 {
            return None;
        }
        let b0 = bytes[0] as u16;
        let b1 = bytes[1] as u16;
        Some(
            match self {
                Endianness::Little => b0 + 256 * b1,
                Endianness::Big => 256 * b0 + b1,
            },
        )
    }

    /// Reads a `u32` from the first four bytes of `bytes`; `None` when there are fewer.
    pub fn read_u32(self, bytes: &[u8]) -> (out: Option<u32>)
        ensures
            out == (if bytes@.len() >= 4 {
                Some(u32_value(self, bytes@))
            } else {
                None::<u32>
            }),
    {
        if bytes.len() < 4 {
            return None;
        }
        let b0 = bytes[0] as u32;
        let b1 = bytes[1] as u32;
        let b2 = bytes[2] as u32;
        let b3 = bytes[3] as u32;
        Some(
            match self {
                Endianness::Little => b0 + 0x100 * b1 + 0x1_0000 * b2 + 0x100_0000 * b3,
                Endianness::Big => 0x100_0000 * b0 + 0x1_0000 * b1 + 0x100 * b2 + b3,
            },
        )
    }

    /// Writes `value` into the first two bytes of `out`. Returns `false`, leaving
    /// `out` unchanged, when `out` is shorter than two bytes.
    pub fn write_u16(self, out: &mut [u8], value: u16) -> (written: bool)
        ensures
            written == (old(out)@.len() >= 2),
            written ==> final(out)@ == u16_bytes(self, value) + old(out)@.subrange(
                2,
                old(out)@.len() as int,
            ),
            !written ==> final(out)@ == old(out)@,
    {
        let lo = (value % 256) as u8;
        let hi = (value / 256) as u8;
        let (first, second) = match self {
            Endianness::Little => (lo, hi),
            Endianness::Big => (hi, lo),
        };
        if out.len() < 2 {
            return false;
        }
        out[0] = first;
        out[1] = second;
        assert(out@ =~= u16_bytes(self, value) + old(out)@.subrange(2, old(out)@.len() as int));
        true
    }
}

/// Reading back the two bytes written for `value` gives `value`.
pub proof fn lemma_u16_roundtrip(e: Endianness, value: u16)
    ensures
        u16_bytes(e, value).len() == 2,
        u16_value(e, u16_bytes(e, value)) == value,
{
}

/// Writing the value read from two bytes gives those two bytes back.
pub proof fn lemma_u16_bytes_of_value(e: Endianness, b: Seq<u8>)
    requires
        b.len() == 2,
    ensures
        u16_bytes(e, u16_value(e, b)) == b,
{
    assert(u16_bytes(e, u16_value(e, b)) =~= b);
}

/// Reading back the four bytes written for `value` gives `value`.
pub proof fn lemma_u32_roundtrip(e: Endianness, value: u32)
    ensures
        u32_bytes(e, value).len() == 4,
        u32_value(e, u32_bytes(e, value)) == value,
{
    assert(value == (value % 0x100) + 0x100 * ((value / 0x100) % 0x100) + 0x1_0000 * ((value
        / 0x1_0000) % 0x100) + 0x100_0000 * (value / 0x100_0000)) by (nonlinear_arith);
}

/// Writing the value read from four bytes gives those four bytes back.
pub proof fn lemma_u32_bytes_of_value(e: Endianness, b: Seq<u8>)
    requires
        b.len() == 4,
    ensures
        u32_bytes(e, u32_value(e, b)) == b,
{
    let (x0, x1, x2, x3) = match e {
        Endianness::Little => (b[0], b[1], b[2], b[3]),
        Endianness::Big => (b[3], b[2], b[1], b[0]),
    };
    let v: int = x0 + 0x100 * x1 + 0x1_0000 * x2 + 0x100_0000 * x3;
    assert(v % 0x100 == x0 && (v / 0x100) % 0x100 == x1 && (v / 0x1_0000) % 0x100 == x2 && v
        / 0x100_0000 == x3) by (nonlinear_arith)
        requires
            0 <= x0 < 0x100,
            0 <= x1 < 0x100,
            0 <= x2 < 0x100,
            0 <= x3 < 0x100,
            v == x0 + 0x100 * x1 + 0x1_0000 * x2 + 0x100_0000 * x3,
    ;
    assert(u32_bytes(e, u32_value(e, b)) =~= b);
}

// ---------------------------------------------------------------------------
// Profile data model
// ---------------------------------------------------------------------------

/// The error type of the TOML reader, carried through `ProfileError::Toml`.
#[verifier::external_type_specification]
#[verifier::external_body]
pub struct ExTomlDeError(toml::de::Error);

/// A profile: where a Wi-Fi configuration block sits in a firmware image and how it
/// is recognised, laid out and checksummed.
#[derive(Debug, Clone)]
pub struct Profile {
    pub profile_version: u32,
    pub id: String,
    pub name: String,
    pub description: Option<String>,
    pub scan: Scan,
    pub layout: Layout,
    pub checksum: Checksum,
}

/// How candidate blocks are found.
#[derive(Debug, Clone)]
pub struct Scan {
    pub magic_u32: u32,
    pub endianness: Endianness,
    pub struct_size: usize,
    pub max_matches: Option<usize>,
}

/// Offsets and sizes of the fields inside a block, relative to the block start.
#[derive(Debug, Clone)]
pub struct Layout {
    pub version: u32,
    pub version_offset: usize,
    pub version_len: Option<usize>,
    pub checksum_offset: usize,
    pub checksum_len: usize,
    pub ssid_len_offset: usize,
    pub psk_len_offset: usize,
    pub ssid_offset: usize,
    pub ssid_max: usize,
    pub psk_offset: usize,
    pub psk_max: usize,
}

/// How the block checksum is computed.
#[derive(Debug, Clone)]
pub struct Checksum {
    pub algo: ChecksumAlgo,
    pub skip: Option<Vec<SkipRange>>,
}

/// Supported checksum algorithms.
#[derive(Debug, Clone)]
pub enum ChecksumAlgo {
    Crc16Modbus,
}

/// A byte range of the block that the checksum leaves out.
#[derive(Debug, Clone)]
pub struct SkipRange {
    pub offset: usize,
    pub len: usize,
}

/// Why a profile was rejected.
#[derive(Debug)]
pub enum ProfileError {
    Toml(toml::de::Error),
    UnsupportedVersion(u32),
    InvalidStructSize,
    InvalidMaxMatches,
    InvalidVersionLen,
    InvalidChecksumLen,
    InvalidSsidMax,
    InvalidPskMax,
    LayoutOutOfBounds { field: &'static str, offset: usize, len: usize, struct_size: usize },
    SkipOutOfBounds { offset: usize, len: usize, struct_size: usize },
}

/// Width of the version field: `layout.version_len`, two bytes when absent.
pub open spec fn version_len_of(p: Profile) -> usize {
    match p.layout.version_len {
        Some(l) => l,
        None => 2,
    }
}

/// Most candidates a scan accepts: `scan.max_matches`, one when absent.
pub open spec fn max_matches_of(p: Profile) -> usize {
    match p.scan.max_matches {
        Some(m) => m,
        None => 1,
    }
}

/// The checksum skip ranges as `(offset, len)` pairs; none when absent.
pub open spec fn skip_pairs(p: Profile) -> Seq<(usize, usize)> {
    match p.checksum.skip {
        Some(v) => v@.map_values(|r: SkipRange| (r.offset, r.len)),
        None => Seq::empty(),
    }
}

/// The range `offset .. offset + len` does not fit in `struct_size` bytes
/// (the end is computed with saturation at `usize::MAX`).
pub open spec fn range_exceeds(offset: usize, len: usize, struct_size: usize) -> bool {
    offset > struct_size || (if offset + len > usize::MAX {
        usize::MAX as int
    } else {
        offset + len
    }) > struct_size
}

/// The bounds error for a layout field, if its range does not fit.
pub open spec fn layout_bounds_error(
    field: &'static str,
    offset: usize,
    len: usize,
    struct_size: usize,
) -> Option<ProfileError> {
    if range_exceeds(offset, len, struct_size) {
        Some(ProfileError::LayoutOutOfBounds { field, offset, len, struct_size })
    } else {
        None
    }
}

/// Index of the first skip range at or after `k` that does not fit in `struct_size`.
pub open spec fn first_bad_skip(skips: Seq<SkipRange>, struct_size: usize, k: int) -> Option<int>
    decreases skips.len() - k,
{
    if k < 0 || k >= skips.len() {
        None
    } else if range_exceeds(skips[k].offset, skips[k].len, struct_size) {
        Some(k)
    } else {
        first_bad_skip(skips, struct_size, k + 1)
    }
}

/// The outcome of validating a profile: the first rule it breaks, in the order
/// version, struct size, match limit, version width, checksum width, SSID and PSK
/// maxima, then the field ranges (version, checksum, ssid_len, psk_len, ssid, psk),
/// then the checksum skip ranges in order.
pub open spec fn validation(p: Profile) -> Result<(), ProfileError> {
    let size = p.scan.struct_size;
    let vl = version_len_of(p);
    let l = p.layout;
    if p.profile_version != 1 {
        Err(ProfileError::UnsupportedVersion(p.profile_version))
    } else if size == 0 {
        Err(ProfileError::InvalidStructSize)
    } else if p.scan.max_matches matches Some(m) && m < 1 {
        Err(ProfileError::InvalidMaxMatches)
    } else if !(vl == 1 || vl == 2 || vl == 4) {
        Err(ProfileError::InvalidVersionLen)
    } else if p.checksum.algo is Crc16Modbus && l.checksum_len != 2 {
        Err(ProfileError::InvalidChecksumLen)
    } else if l.ssid_max > 255 {
        Err(ProfileError::InvalidSsidMax)
    } else if l.psk_max > 255 {
        Err(ProfileError::InvalidPskMax)
    } else if let Some(e) = layout_bounds_error("version", l.version_offset, vl, size) {
        Err(e)
    } else if let Some(e) = layout_bounds_error("checksum", l.checksum_offset, l.checksum_len, size) {
        Err(e)
    } else if let Some(e) = layout_bounds_error("ssid_len", l.ssid_len_offset, 1, size) {
        Err(e)
    } else if let Some(e) = layout_bounds_error("psk_len", l.psk_len_offset, 1, size) {
        Err(e)
    } else if let Some(e) = layout_bounds_error("ssid", l.ssid_offset, l.ssid_max, size) {
        Err(e)
    } else if let Some(e) = layout_bounds_error("psk", l.psk_offset, l.psk_max, size) {
        Err(e)
    } else {
        match p.checksum.skip {
            Some(v) => match first_bad_skip(v@, size, 0) {
                Some(k) => Err(
                    ProfileError::SkipOutOfBounds {
                        offset: v@[k].offset,
                        len: v@[k].len,
                        struct_size: size,
                    },
                ),
                None => Ok(()),
            },
            None => Ok(()),
        }
    }
}

impl Profile {
    /// Checks the profile's own consistency; the first broken rule is reported.
    pub fn validate(&self) -> (res: Result<(), ProfileError>)
        ensures
            res == validation(*self),
    {
        if self.profile_version != 1 {
            return Err(ProfileError::UnsupportedVersion(self.profile_version));
        }
        if self.scan.struct_size == 0 {
            return Err(ProfileError::InvalidStructSize);
        }
        if let Some(max) = self.scan.max_matches {
            if max < 1 {
                return Err(ProfileError::InvalidMaxMatches);
            }
        }
        let version_len = match self.layout.version_len {
            Some(l) => l,
            None => 2,
        };
        if !(version_len == 1 || version_len == 2 || version_len == 4) {
            return Err(ProfileError::InvalidVersionLen);
        }
        match self.checksum.algo {
            ChecksumAlgo::Crc16Modbus => {
                if self.layout.checksum_len != 2 {
                    return Err(ProfileError::InvalidChecksumLen);
                }
            },
        }
        if self.layout.ssid_max > 255 {
            return Err(ProfileError::InvalidSsidMax);
        }
        if self.layout.psk_max > 255 {
            return Err(ProfileError::InvalidPskMax);
        }
        let struct_size = self.scan.struct_size;
        self.check_bounds("version", self.layout.version_offset, version_len, struct_size)?;
        self.check_bounds(
            "checksum",
            self.layout.checksum_offset,
            self.layout.checksum_len,
            struct_size,
        )?;
        self.check_bounds("ssid_len", self.layout.ssid_len_offset, 1, struct_size)?;
        self.check_bounds("psk_len", self.layout.psk_len_offset, 1, struct_size)?;
        self.check_bounds("ssid", self.layout.ssid_offset, self.layout.ssid_max, struct_size)?;
        self.check_bounds("psk", self.layout.psk_offset, self.layout.psk_max, struct_size)?;

        if let Some(skips) = &self.checksum.skip {
            let mut k: usize = 0;
            while k < skips.len()
                invariant
                    k <= skips@.len(),
                    validation(*self) == (match first_bad_skip(skips@, struct_size, 0) {
                        Some(j) => Err(
                            ProfileError::SkipOutOfBounds {
                                offset: skips@[j].offset,
                                len: skips@[j].len,
                                struct_size,
                            },
                        ),
                        None => Ok(()),
                    }),
                    first_bad_skip(skips@, struct_size, 0) == first_bad_skip(
                        skips@,
                        struct_size,
                        k as int,
                    ),
                decreases skips@.len() - k,
            {
                let skip = &skips[k];
                if skip.offset > struct_size || skip.offset.saturating_add(skip.len)
                    > struct_size {
                    assert(first_bad_skip(skips@, struct_size, k as int) == Some(k as int));
                    return Err(
                        ProfileError::SkipOutOfBounds {
                            offset: skip.offset,
                            len: skip.len,
                            struct_size,
                        },
                    );
                }
                k = k + 1;
            }
        }
        Ok(())
    }

    fn check_bounds(&self, field: &'static str, offset: usize, len: usize, struct_size: usize) -> (res:
        Result<(), ProfileError>)
        ensures
            res == (match layout_bounds_error(field, offset, len, struct_size) {
                Some(e) => Err::<(), ProfileError>(e),
                None => Ok(()),
            }),
    {
        if offset > struct_size || offset.saturating_add(len) > struct_size {
            return Err(ProfileError::LayoutOutOfBounds { field, offset, len, struct_size });
        }
        Ok(())
    }
}

/// A profile that validates describes a block whose every field lies inside it, with a
/// version field of one, two or four bytes, a two-byte CRC field, and SSID and PSK
/// maxima that a length byte can hold.
pub proof fn lemma_validated_profile_fits(p: Profile)
    requires
        validation(p) is Ok,
        p.scan.struct_size < usize::MAX,
    ensures
        ({
            let l = p.layout;
            let size = p.scan.struct_size;
            let vl = version_len_of(p);
            &&& size > 0
            &&& max_matches_of(p) >= 1
            &&& vl == 1 || vl == 2 || vl == 4
            &&& l.checksum_len == 2
            &&& l.ssid_max <= 255 && l.psk_max <= 255
            &&& l.version_offset + vl <= size
            &&& l.checksum_offset + l.checksum_len <= size
            &&& l.ssid_len_offset < size && l.psk_len_offset < size
            &&& l.ssid_offset + l.ssid_max <= size
            &&& l.psk_offset + l.psk_max <= size
            &&& forall|k: int|
                0 <= k < skip_pairs(p).len() ==> #[trigger] skip_pairs(p)[k].0 + skip_pairs(p)[k].1
                    <= size
        }),
{
    if let Some(v) = p.checksum.skip {
        assert forall|k: int| 0 <= k < skip_pairs(p).len() implies #[trigger] skip_pairs(p)[k].0
            + skip_pairs(p)[k].1 <= p.scan.struct_size by {
            lemma_first_bad_skip_none(v@, p.scan.struct_size, 0, k);
        }
    }
}

/// The limit on matches is rejected exactly when it is zero: a profile fails with
/// `InvalidMaxMatches` only when its version and size are accepted and `max_matches` is
/// `Some(0)`, and any limit of one or more validates exactly as the default does.
pub proof fn lemma_max_matches_rule(p: Profile, m: usize)
    requires
        m >= 1,
    ensures
        (validation(p) == Err::<(), ProfileError>(ProfileError::InvalidMaxMatches)) <==> (
        p.profile_version == 1 && p.scan.struct_size != 0 && p.scan.max_matches == Some(0usize)),
        validation(Profile { scan: Scan { max_matches: Some(m), ..p.scan }, ..p }) == validation(
            Profile { scan: Scan { max_matches: None, ..p.scan }, ..p },
        ),
{
    let a = Profile { scan: Scan { max_matches: Some(m), ..p.scan }, ..p };
    let b = Profile { scan: Scan { max_matches: None, ..p.scan }, ..p };
    assert(skip_pairs(a) == skip_pairs(b));
    assert(version_len_of(a) == version_len_of(b));
}

/// The bytes of each byte order are those of the other, reversed, and so are the values
/// read: big-endian is little-endian with the bytes in the opposite order.
pub proof fn lemma_byte_orders(v16: u16, v32: u32, b: Seq<u8>)
    ensures
        u16_bytes(Endianness::Big, v16) == u16_bytes(Endianness::Little, v16).reverse(),
        u32_bytes(Endianness::Big, v32) == u32_bytes(Endianness::Little, v32).reverse(),
        b.len() == 2 ==> u16_value(Endianness::Big, b) == u16_value(Endianness::Little, b.reverse()),
        b.len() == 4 ==> u32_value(Endianness::Big, b) == u32_value(Endianness::Little, b.reverse()),
        u16_value(Endianness::Little, u16_bytes(Endianness::Little, v16)) == v16,
        u32_value(Endianness::Little, u32_bytes(Endianness::Little, v32)) == v32,
{
    assert(u16_bytes(Endianness::Big, v16) =~= u16_bytes(Endianness::Little, v16).reverse());
    assert(u32_bytes(Endianness::Big, v32) =~= u32_bytes(Endianness::Little, v32).reverse());
    lemma_u16_roundtrip(Endianness::Little, v16);
    lemma_u32_roundtrip(Endianness::Little, v32);
}

proof fn lemma_first_bad_skip_none(skips: Seq<SkipRange>, struct_size: usize, from: int, k: int)
    requires
        0 <= from <= k < skips.len(),
        first_bad_skip(skips, struct_size, from) is None,
    ensures
        !range_exceeds(skips[k].offset, skips[k].len, struct_size),
    decreases k - from,
{
    if from < k {
        lemma_first_bad_skip_none(skips, struct_size, from + 1, k);
    }
}

} // verus!
