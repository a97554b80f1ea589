use tockloader_lib::attributes::app_attributes::{AppScanner, ParsedHeader, ScanAction, ScanEvent};
use tockloader_lib::attributes::system_attributes::{SystemAttributesReader, SystemReadAction};
use tockloader_lib::read_range::{read_range_packet, scan_read_range, system_read_range};

#[test]
fn read_range_packet_is_little_endian() {
    assert_eq!(read_range_packet(0x600, 1024), vec![0x00, 0x06, 0x00, 0x00, 0x00, 0x04]);
    assert_eq!(read_range_packet(0x1234_5678, 0xabcd), vec![0x78, 0x56, 0x34, 0x12, 0xcd, 0xab]);
    let mut expected = 0x40E_u32.to_le_bytes().to_vec();
    expected.extend_from_slice(&8_u16.to_le_bytes());
    assert_eq!(read_range_packet(0x40E, 8), expected);
}

#[test]
fn system_read_range_cuts_to_protocol_widths() {
    let action = SystemReadAction::Read { address: 0x1_0004_0000 - 100, len: 100 };
    assert_eq!(system_read_range(&action), Some((0x0003_FF9C, 100)));
    assert_eq!(system_read_range(&SystemReadAction::Done), None);
}

#[test]
fn scan_read_range_offsets_footers() {
    let (mut scanner, action) = AppScanner::<&str, u8>::new::<()>(0x40000);
    assert_eq!(scan_read_range(&scanner, &action), Some((0x40000, 8)));
    let action: ScanAction<()> = scanner.step(ScanEvent::HeaderLengths(Some((2, 0x48, 0x1000))));
    assert_eq!(scan_read_range(&scanner, &action), Some((0x40000, 0x48)));
    let action: ScanAction<()> = scanner.step(ScanEvent::Header(Ok(ParsedHeader { header: "a", binary_end: 0xf00, is_app: true })));
    assert_eq!(action, ScanAction::ReadFooter { address: 0x40f00, len: 0x100 });
    assert_eq!(scan_read_range(&scanner, &action), Some((0x40f00, 0x100)));
}

#[test]
fn serial_reads_the_ranges_the_reader_asks_for() {
    let (_, action) = SystemAttributesReader::new();
    assert_eq!(system_read_range(&action), Some((0x600, 1024)));
}
