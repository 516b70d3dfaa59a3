//! Wi-Fi configuration patching for firmware images, driven by a profile
//! that describes where the configuration block lives and how it is checked.

pub mod crc16;
pub mod firmware;
pub mod out_name;
pub mod profile;
pub mod roundtrip;

pub use profile::Endianness;
pub use crc16::{crc16_modbus, crc16_modbus_with_skips};
pub use profile::{Checksum, ChecksumAlgo, Layout, Profile, ProfileError, Scan, SkipRange};
pub use firmware::{Candidate, PatchOptions, ScanError, VerifyError, VerifyReport};
pub use out_name::default_out_name;
