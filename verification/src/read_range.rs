use vstd::prelude::*;

use crate::attributes::app_attributes::{
    lemma_scan_reads_within_app, lemma_scan_step_keeps_wf, scan_step, step_allowed, AppScanner,
    AppScannerView, ScanAction, ScanEvent, ScanStage,
};
use crate::attributes::system_attributes::{
    attributes_from_slots, empty_attributes, reader_step, SystemReadAction, SystemReadStage,
    SystemReaderView, ATTRIBUTES_ADDRESS, ATTRIBUTES_LEN,
};

verus! {

/// The little-endian bytes of a 32-bit number.
pub open spec fn le_bytes_u32(x: u32) -> Seq<u8> {
    seq![
        (x % 256) as u8,
        ((x / 256) % 256) as u8,
        ((x / 65536) % 256) as u8,
        ((x / 16777216) % 256) as u8,
    ]
}

/// The little-endian bytes of a 16-bit number.
pub open spec fn le_bytes_u16(x: u16) -> Seq<u8> {
    seq![(x % 256) as u8, ((x / 256) % 256) as u8]
}

/// A `ReadRange` payload reads back as what it asks for: its first four bytes,
/// taken as a little-endian number, are the address, and its last two the
/// length.
pub proof fn lemma_read_range_packet_reads_back(address: u32, len: u16)
    ensures
        ({
            let pkt = le_bytes_u32(address) + le_bytes_u16(len);
            &&& pkt.len() == 6
            &&& pkt[0] + 256 * pkt[1] + 65536 * pkt[2] + 16777216 * pkt[3] == address
            &&& pkt[4] + 256 * pkt[5] == len
        }),
{
    let pkt = le_bytes_u32(address) + le_bytes_u16(len);
    assert(pkt[0] == (address % 256) as u8 && pkt[1] == ((address / 256) % 256) as u8);
    assert(pkt[2] == ((address / 65536) % 256) as u8 && pkt[3] == ((address / 16777216) % 256) as u8);
    assert(pkt[4] == (len % 256) as u8 && pkt[5] == ((len / 256) % 256) as u8);
    assert((address % 256) + 256 * ((address / 256) % 256) + 65536 * ((address / 65536) % 256)
        + 16777216 * ((address / 16777216) % 256) == address) by (bit_vector);
    assert((len % 256) + 256 * ((len / 256) % 256) == len) by (bit_vector);
}

/// The payload of a serial `ReadRange` command: the address and the length
/// to read, little-endian.
pub fn read_range_packet(address: u32, len: u16) -> (pkt: Vec<u8>)
    ensures
        pkt@ == le_bytes_u32(address) + le_bytes_u16(len),
        pkt@.len() == 6,
        pkt@[0] + 256 * pkt@[1] + 65536 * pkt@[2] + 16777216 * pkt@[3] == address,
        pkt@[4] + 256 * pkt@[5] == len,
{
    proof {
        lemma_read_range_packet_reads_back(address, len);
    }
    let mut pkt: Vec<u8> = Vec::new();
    pkt.push((address % 256) as u8);
    pkt.push(((address / 256) % 256) as u8);
    pkt.push(((address / 65536) % 256) as u8);
    pkt.push(((address / 16777216) % 256) as u8);
    pkt.push((len % 256) as u8);
    pkt.push(((len / 256) % 256) as u8);
    assert(pkt@ =~= le_bytes_u32(address) + le_bytes_u16(len));
    pkt
}

/// The range that a serial connection reads for `action` of a system
/// attributes reader; the serial protocol carries 32-bit addresses and 16-bit
/// lengths, so both are cut to those widths.
pub open spec fn system_serial_range(action: SystemReadAction) -> Option<(u32, u16)> {
    match action {
        SystemReadAction::Read { address, len } => Some((address as u32, len as u16)),
        _ => None,
    }
}

/// The range that a serial connection reads for `action` of a system
/// attributes reader.
pub fn system_read_range(action: &SystemReadAction) -> (r: Option<(u32, u16)>)
    ensures
        r == system_serial_range(*action),
{
    match action {
        SystemReadAction::Read { address, len } => Some((*address as u32, *len as u16)),
        _ => None,
    }
}

/// Over a serial connection the reader reads the very range that it asks for
/// whenever that range starts within 32 bits: its lengths always fit in 16.
pub proof fn lemma_serial_reads_system_range(s: SystemReaderView, data: Seq<u8>)
    requires
        s.stage != SystemReadStage::Finished,
    ensures
        reader_step(s, data).1 matches SystemReadAction::Read { address, len } ==> (address
            <= u32::MAX ==> system_serial_range(reader_step(s, data).1) == Some(
            (address as u32, len as u16),
        ) && address as u32 == address && len as u16 == len),
{
}

/// Over a serial connection, a footer is read at the application's address
/// cut to 32 bits plus the footer offset, which must not overflow.
pub open spec fn serial_footer_fits(address: u64, stage: ScanStage) -> bool {
    stage matches ScanStage::Footers { footer_offset, .. } ==> (address as u32) + footer_offset
        <= u32::MAX
}

/// The range that a serial connection reads for `action` of a scanner at
/// `address` in `stage`: the application's address cut to 32 bits, plus the
/// footer offset for a footer, and the length cut to 16 bits.
pub open spec fn scan_serial_range<Error>(address: u64, stage: ScanStage, action: ScanAction<Error>) -> Option<
    (u32, u16),
> {
    match action {
        ScanAction::ReadHeaderLengths { .. } => Some((address as u32, 8u16)),
        ScanAction::ReadHeader { header_size, .. } => Some((address as u32, header_size)),
        ScanAction::ReadFooter { len, .. } => match stage {
            ScanStage::Footers { footer_offset, .. } => Some(
                (((address as u32) + footer_offset) as u32, len as u16),
            ),
            _ => None,
        },
        _ => None,
    }
}

/// The range that a serial connection reads for `action` of `scanner`.
pub fn scan_read_range<Header, Credentials, Error>(
    scanner: &AppScanner<Header, Credentials>,
    action: &ScanAction<Error>,
) -> (r: Option<(u32, u16)>)
    requires
        serial_footer_fits(scanner.address, scanner.stage),
    ensures
        r == scan_serial_range(scanner.address, scanner.stage, *action),
{
    let base: u32 = scanner.address as u32;
    match action {
        ScanAction::ReadHeaderLengths { .. } => Some((base, 8)),
        ScanAction::ReadHeader { header_size, .. } => Some((base, *header_size)),
        ScanAction::ReadFooter { len, .. } => match scanner.stage {
            ScanStage::Footers { footer_offset, .. } => Some((base + footer_offset, *len as u16)),
            _ => None,
        },
        _ => None,
    }
}

/// Over a serial connection the scanner reads the very range that each of its
/// steps asks for, whenever that range starts within 32 bits and its length
/// fits in 16: header lengths at the scan address, headers there, and footers
/// at the address plus the footer offset.
pub proof fn lemma_serial_reads_scan_range<Header, Credentials, Error>(
    s: AppScannerView<Header, Credentials>,
    event: ScanEvent<Header, Credentials, Error>,
)
    requires
        s.wf(),
        step_allowed(s, event),
    ensures
        ({
            let (next, action) = scan_step(s, event);
            &&& action matches ScanAction::ReadHeaderLengths { address } ==> (address <= u32::MAX
                ==> scan_serial_range(next.address, next.stage, action) == Some(
                (address as u32, 8u16),
            ) && address as u32 == address)
            &&& action matches ScanAction::ReadHeader { address, header_size, .. } ==> (address
                <= u32::MAX ==> scan_serial_range(next.address, next.stage, action) == Some(
                (address as u32, header_size),
            ) && address as u32 == address)
            &&& action matches ScanAction::ReadFooter { address, len } ==> (address <= u32::MAX
                && len <= u16::MAX ==> serial_footer_fits(next.address, next.stage)
                && scan_serial_range(next.address, next.stage, action) == Some(
                (address as u32, len as u16),
            ) && address as u32 == address && len as u16 == len)
        }),
{
    lemma_scan_reads_within_app(s, event);
}

/// The `len` bytes of the memory `mem` from `address` on.
pub open spec fn memory_bytes(mem: spec_fn(int) -> u8, address: int, len: int) -> Seq<u8> {
    Seq::new(len as nat, |i: int| mem(address + i))
}

/// A system attributes reader in state `s`, about to do `action`, run for at
/// most `fuel` reads against the memory `mem`: over a serial connection, when
/// `serial`, with the ranges that [`system_read_range`] gives; else over a
/// probe, with the ranges as asked.
pub open spec fn run_reader(
    s: SystemReaderView,
    action: SystemReadAction,
    mem: spec_fn(int) -> u8,
    serial: bool,
    fuel: nat,
) -> (SystemReaderView, SystemReadAction)
    decreases fuel,
{
    if fuel == 0 {
        (s, action)
    } else {
        match action {
            SystemReadAction::Read { address, len } => {
                let data = if serial {
                    match system_serial_range(action) {
                        Some(range) => memory_bytes(mem, range.0 as int, range.1 as int),
                        None => Seq::empty(),
                    }
                } else {
                    memory_bytes(mem, address as int, len as int)
                };
                let (next, next_action) = reader_step(s, data);
                run_reader(next, next_action, mem, serial, (fuel - 1) as nat)
            },
            _ => (s, action),
        }
    }
}

/// Every read of the probe run of the reader starts within 32 bits and is at
/// most 16 bits long.
pub open spec fn reader_reads_fit(
    s: SystemReaderView,
    action: SystemReadAction,
    mem: spec_fn(int) -> u8,
    fuel: nat,
) -> bool
    decreases fuel,
{
    fuel == 0 || match action {
        SystemReadAction::Read { address, len } => {
            &&& address <= u32::MAX
            &&& len <= u16::MAX
            &&& reader_reads_fit(
                reader_step(s, memory_bytes(mem, address as int, len as int)).0,
                reader_step(s, memory_bytes(mem, address as int, len as int)).1,
                mem,
                (fuel - 1) as nat,
            )
        },
        _ => true,
    }
}

/// Reading the system attributes over a serial connection gives what reading
/// them over a probe gives, from the same memory, whenever the probe's reads
/// all start within 32 bits and are at most 16 bits long.
pub proof fn lemma_serial_reader_agrees_with_probe(
    s: SystemReaderView,
    action: SystemReadAction,
    mem: spec_fn(int) -> u8,
    fuel: nat,
)
    requires
        reader_reads_fit(s, action, mem, fuel),
    ensures
        run_reader(s, action, mem, true, fuel) == run_reader(s, action, mem, false, fuel),
    decreases fuel,
{
    if fuel > 0 {
        if let SystemReadAction::Read { address, len } = action {
            let data = memory_bytes(mem, address as int, len as int);
            assert(memory_bytes(mem, (address as u32) as int, (len as u16) as int) == data);
            let (next, next_action) = reader_step(s, data);
            lemma_serial_reader_agrees_with_probe(next, next_action, mem, (fuel - 1) as nat);
        }
    }
}

/// The reader as it starts.
pub open spec fn initial_reader() -> (SystemReaderView, SystemReadAction) {
    (
        SystemReaderView { stage: SystemReadStage::AttributeSlots, attributes: empty_attributes() },
        SystemReadAction::Read { address: ATTRIBUTES_ADDRESS, len: ATTRIBUTES_LEN },
    )
}

/// The application address that the attribute area of `mem` gives, when it
/// gives one, is at most 100 past the 32-bit range, so that the kernel
/// attribute block before it starts within 32 bits.
pub open spec fn app_address_fits_serial(mem: spec_fn(int) -> u8) -> bool {
    attributes_from_slots(memory_bytes(mem, ATTRIBUTES_ADDRESS as int, ATTRIBUTES_LEN as int)) matches Ok(
        m,
    ) ==> (m.appaddr matches Some(a) ==> a <= u32::MAX + 100)
}

/// Read from its start, the reader reads the same attributes over a serial
/// connection as over a probe whenever the application address leaves the
/// kernel attribute block within 32 bits.
pub proof fn lemma_serial_system_attributes_agree(mem: spec_fn(int) -> u8)
    requires
        app_address_fits_serial(mem),
    ensures
        run_reader(initial_reader().0, initial_reader().1, mem, true, 3) == run_reader(
            initial_reader().0,
            initial_reader().1,
            mem,
            false,
            3,
        ),
{
    let (s0, a0) = initial_reader();
    let (s1, a1) = reader_step(s0, memory_bytes(mem, ATTRIBUTES_ADDRESS as int, ATTRIBUTES_LEN as int));
    if let SystemReadAction::Read { address, len } = a1 {
        let (s2, a2) = reader_step(s1, memory_bytes(mem, address as int, len as int));
        if let SystemReadAction::Read { address: ad2, len: l2 } = a2 {
            let (s3, a3) = reader_step(s2, memory_bytes(mem, ad2 as int, l2 as int));
            assert(reader_reads_fit(s3, a3, mem, 0));
        }
        assert(reader_reads_fit(s2, a2, mem, 1));
    }
    assert(reader_reads_fit(s1, a1, mem, 2));
    assert(reader_reads_fit(s0, a0, mem, 3));
    lemma_serial_reader_agrees_with_probe(s0, a0, mem, 3);
}

/// The range that a probe reads for `action` of a scanner: as asked.
pub open spec fn scan_probe_range<Error>(action: ScanAction<Error>) -> Option<(int, int)> {
    match action {
        ScanAction::ReadHeaderLengths { address } => Some((address as int, 8)),
        ScanAction::ReadHeader { address, header_size, .. } => Some(
            (address as int, header_size as int),
        ),
        ScanAction::ReadFooter { address, len } => Some((address as int, len as int)),
        _ => None,
    }
}

/// Over a serial connection the scanner in state `s` reads for `action` the
/// range a probe reads, when that range starts within 32 bits and is at most
/// 16 bits long.
pub open spec fn serial_matches_probe<Header, Credentials, Error>(
    s: AppScannerView<Header, Credentials>,
    action: ScanAction<Error>,
) -> bool {
    scan_probe_range(action) matches Some(range) ==> (range.0 <= u32::MAX && range.1 <= u16::MAX
        ==> serial_footer_fits(s.address, s.stage) && scan_serial_range(s.address, s.stage, action)
        == Some((range.0 as u32, range.1 as u16)))
}

/// The bytes that the scanner in state `s` reads for `action` from `mem`:
/// over a serial connection when `serial`, else over a probe.
pub open spec fn scan_read_bytes<Header, Credentials, Error>(
    s: AppScannerView<Header, Credentials>,
    action: ScanAction<Error>,
    mem: spec_fn(int) -> u8,
    serial: bool,
) -> Seq<u8> {
    if serial {
        match scan_serial_range(s.address, s.stage, action) {
            Some(range) => memory_bytes(mem, range.0 as int, range.1 as int),
            None => Seq::empty(),
        }
    } else {
        match scan_probe_range(action) {
            Some(range) => memory_bytes(mem, range.0, range.1),
            None => Seq::empty(),
        }
    }
}

/// A scanner in state `s`, about to do `action`, run for at most `fuel` reads
/// against the memory `mem`, with `parse` turning what was asked and what was
/// read into the event that the TBF parser gives.
pub open spec fn run_scan<Header, Credentials, Error>(
    s: AppScannerView<Header, Credentials>,
    action: ScanAction<Error>,
    mem: spec_fn(int) -> u8,
    parse: spec_fn(ScanAction<Error>, Seq<u8>) -> ScanEvent<Header, Credentials, Error>,
    serial: bool,
    fuel: nat,
) -> (AppScannerView<Header, Credentials>, ScanAction<Error>)
    decreases fuel,
{
    if fuel == 0 || scan_probe_range(action) is None {
        (s, action)
    } else {
        let event = parse(action, scan_read_bytes(s, action, mem, serial));
        let (next, next_action) = scan_step(s, event);
        run_scan(next, next_action, mem, parse, serial, (fuel - 1) as nat)
    }
}

/// Every read of the probe run of the scanner starts within 32 bits and is at
/// most 16 bits long, and each step may take what was parsed.
pub open spec fn scan_reads_fit<Header, Credentials, Error>(
    s: AppScannerView<Header, Credentials>,
    action: ScanAction<Error>,
    mem: spec_fn(int) -> u8,
    parse: spec_fn(ScanAction<Error>, Seq<u8>) -> ScanEvent<Header, Credentials, Error>,
    fuel: nat,
) -> bool
    decreases fuel,
{
    fuel == 0 || match scan_probe_range(action) {
        None => true,
        Some(range) => {
            let event = parse(action, scan_read_bytes(s, action, mem, false));
            &&& range.0 <= u32::MAX
            &&& range.1 <= u16::MAX
            &&& step_allowed(s, event)
            &&& scan_reads_fit(
                scan_step(s, event).0,
                scan_step(s, event).1,
                mem,
                parse,
                (fuel - 1) as nat,
            )
        },
    }
}

/// Scanning the applications over a serial connection finds what scanning
/// them over a probe finds, in the same memory with the same parser, whenever
/// the probe's reads all start within 32 bits and are at most 16 bits long:
/// the same applications, with the same headers and footers, and the same end.
pub proof fn lemma_serial_scan_agrees_with_probe<Header, Credentials, Error>(
    s: AppScannerView<Header, Credentials>,
    action: ScanAction<Error>,
    mem: spec_fn(int) -> u8,
    parse: spec_fn(ScanAction<Error>, Seq<u8>) -> ScanEvent<Header, Credentials, Error>,
    fuel: nat,
)
    requires
        s.wf(),
        serial_matches_probe(s, action),
        scan_reads_fit(s, action, mem, parse, fuel),
    ensures
        run_scan(s, action, mem, parse, true, fuel) == run_scan(s, action, mem, parse, false, fuel),
    decreases fuel,
{
    if fuel > 0 {
        if let Some(range) = scan_probe_range(action) {
            assert(memory_bytes(mem, (range.0 as u32) as int, (range.1 as u16) as int)
                == memory_bytes(mem, range.0, range.1));
            assert(scan_read_bytes(s, action, mem, true) == scan_read_bytes(s, action, mem, false));
            let event = parse(action, scan_read_bytes(s, action, mem, false));
            lemma_scan_step_keeps_wf(s, event);
            lemma_serial_reads_scan_range(s, event);
            let (next, next_action) = scan_step(s, event);
            lemma_serial_scan_agrees_with_probe(next, next_action, mem, parse, (fuel - 1) as nat);
        }
    }
}

/// A scan as it starts at `address` reads there alike over both connections.
pub proof fn lemma_scan_start_serial_matches_probe<Header, Credentials, Error>(address: u64)
    ensures
        serial_matches_probe(
            AppScannerView::<Header, Credentials> {
                address,
                stage: ScanStage::HeaderLengths,
                apps: Seq::empty(),
                header: None,
                footers: Seq::empty(),
                extents: Seq::empty(),
            },
            ScanAction::<Error>::ReadHeaderLengths { address },
        ),
{
}

/// The memories `mem` and `other` hold the same bytes in every range that
/// the probe run of the scanner reads from `mem`.
pub open spec fn scan_reads_same_bytes<Header, Credentials, Error>(
    s: AppScannerView<Header, Credentials>,
    action: ScanAction<Error>,
    mem: spec_fn(int) -> u8,
    other: spec_fn(int) -> u8,
    parse: spec_fn(ScanAction<Error>, Seq<u8>) -> ScanEvent<Header, Credentials, Error>,
    fuel: nat,
) -> bool
    decreases fuel,
{
    fuel == 0 || match scan_probe_range(action) {
        None => true,
        Some(range) => {
            let event = parse(action, scan_read_bytes(s, action, mem, false));
            &&& memory_bytes(mem, range.0, range.1) == memory_bytes(other, range.0, range.1)
            &&& scan_reads_same_bytes(
                scan_step(s, event).0,
                scan_step(s, event).1,
                mem,
                other,
                parse,
                (fuel - 1) as nat,
            )
        },
    }
}

/// A scan only reads: it finds the same applications in two memories that
/// hold the same bytes wherever it reads, so two scans of flash that nothing
/// wrote to in between agree.
pub proof fn lemma_scan_depends_only_on_bytes_read<Header, Credentials, Error>(
    s: AppScannerView<Header, Credentials>,
    action: ScanAction<Error>,
    mem: spec_fn(int) -> u8,
    other: spec_fn(int) -> u8,
    parse: spec_fn(ScanAction<Error>, Seq<u8>) -> ScanEvent<Header, Credentials, Error>,
    fuel: nat,
)
    requires
        scan_reads_same_bytes(s, action, mem, other, parse, fuel),
    ensures
        run_scan(s, action, mem, parse, false, fuel) == run_scan(s, action, other, parse, false, fuel),
    decreases fuel,
{
    if fuel > 0 {
        if let Some(range) = scan_probe_range(action) {
            let event = parse(action, scan_read_bytes(s, action, mem, false));
            let (next, next_action) = scan_step(s, event);
            lemma_scan_depends_only_on_bytes_read(next, next_action, mem, other, parse, (fuel - 1) as nat);
        }
    }
}

} // verus!
