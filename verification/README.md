# tockloader-lib

A Verus library that takes the decisions a Tock loader makes when it reads a
board's flash and when it lays applications out in flash. The functions in
`src/` are verified against their contracts, except five small trusted
wrappers around `utf8_decode`, `byteorder` and std whose contracts restate
what those functions do; reading and writing the board is left to the caller.

- `src/attributes/decode.rs`: the 64-byte attribute records (key, value
  length, value), decoded with the `utf8_decode` crate.
- `src/attributes/system_attributes.rs`: the attribute area, the bootloader
  version and the kernel attribute block, and `SystemAttributesReader`, which
  decides which flash range to read next.
- `src/attributes/app_attributes.rs`: `AppScanner`, which walks the
  applications stored one after the other in flash, their headers and their
  footers, with the TBF parsing done by the caller.
- `src/command_impl/reshuffle_apps.rs`: the placement of fixed and flexible
  applications, with padding, from the board's start address.
- `src/number.rs`: base-16 addresses and little-endian numbers (`byteorder`).
- `src/read_range.rs`: the payload of a serial `ReadRange` command, and the
  proof that reading over a serial connection gives what reading over a probe
  gives.
- `app/`: drivers that perform the probe-rs reads for the reader and the
  scanner.
