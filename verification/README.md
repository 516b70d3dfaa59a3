# binpatch_core

Finds the Wi-Fi configuration block of a firmware image, checks it, and writes a new
SSID and PSK into it, as described by a profile (magic, byte order, block size, field
offsets, CRC-16/MODBUS checksum with skipped ranges).

- `src/` is the verified library: `crc16` (checksum with skip ranges), `profile`
  (profile model, byte-order helpers, validation), `firmware` (scan, verify, patch),
  `out_name` (default name of the patched file), `roundtrip` (properties across
  scanning, verifying and patching).
- `tests/` runs the library on concrete firmware images.
- `app/` is the command line tool and the WebAssembly entry points; it reads profiles
  from TOML and files from disk.
