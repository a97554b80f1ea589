use tockloader_lib::attributes::system_attributes::{
    parse_bootloader_version, AttributeError, SystemAttributes, SystemAttributesReader,
    SystemReadAction, SystemReadStage, ATTRIBUTES_ADDRESS, ATTRIBUTES_LEN,
    BOOTLOADER_VERSION_ADDRESS, BOOTLOADER_VERSION_LEN, KERNEL_ATTRIBUTES_LEN,
};

fn put_record(area: &mut [u8], slot: usize, key: &[u8], value: &[u8]) {
    let r = &mut area[slot * 64..slot * 64 + 64];
    r[..key.len()].copy_from_slice(key);
    r[8] = value.len() as u8;
    r[9..9 + value.len()].copy_from_slice(value);
}

fn attribute_area() -> Vec<u8> {
    let mut area = vec![0u8; 1024];
    put_record(&mut area, 0, b"board", b"microbit_v2");
    put_record(&mut area, 1, b"arch", b"cortex-m4");
    put_record(&mut area, 2, b"appaddr", b"0x40000");
    put_record(&mut area, 3, b"boothash", b"abc123");
    put_record(&mut area, 4, b"other", b"ignored");
    area
}

fn kernel_block() -> Vec<u8> {
    let mut b = vec![0u8; 100];
    b[68..72].copy_from_slice(&0x0000_0000u32.to_le_bytes());
    b[72..76].copy_from_slice(&0x0002_0000u32.to_le_bytes());
    b[80..84].copy_from_slice(&0x2000_0000u32.to_le_bytes());
    b[84..88].copy_from_slice(&0x0001_0000u32.to_le_bytes());
    b[88..92].copy_from_slice(&0xdead_beefu32.to_le_bytes());
    b[95] = 2;
    b[96..100].copy_from_slice(b"TOCK");
    b
}

#[test]
fn new_system_attributes_are_empty() {
    let a = SystemAttributes::new();
    assert!(a.board.is_none() && a.arch.is_none() && a.appaddr.is_none());
    assert!(a.boothash.is_none() && a.bootloader_version.is_none() && a.sentinel.is_none());
    assert!(a.kernel_version.is_none() && a.app_mem_start.is_none() && a.app_mem_len.is_none());
    assert!(a.kernel_bin_start.is_none() && a.kernel_bin_len.is_none());
}

#[test]
fn slots_are_read_by_position() {
    let a = SystemAttributes::from_attribute_slots(&attribute_area()).expect("valid area");
    assert_eq!(a.board.as_deref(), Some("microbit_v2"));
    assert_eq!(a.arch.as_deref(), Some("cortex-m4"));
    assert_eq!(a.appaddr, Some(0x40000));
    assert_eq!(a.boothash.as_deref(), Some("abc123"));
    assert!(a.bootloader_version.is_none());
    assert!(a.sentinel.is_none());
}

#[test]
fn slots_ignore_keys() {
    let mut area = vec![0u8; 1024];
    put_record(&mut area, 1, b"board", b"riscv");
    let a = SystemAttributes::from_attribute_slots(&area).expect("valid area");
    assert!(a.board.is_none());
    assert_eq!(a.arch.as_deref(), Some("riscv"));
    assert!(a.appaddr.is_none());
}

#[test]
fn slots_skip_undecodable_records() {
    let mut area = attribute_area();
    area[8] = 0;
    area[64 + 9] = 0xff;
    let a = SystemAttributes::from_attribute_slots(&area).expect("valid area");
    assert!(a.board.is_none());
    assert!(a.arch.is_none());
    assert_eq!(a.appaddr, Some(0x40000));
}

#[test]
fn slots_reject_bad_application_address() {
    let mut area = attribute_area();
    area[128..192].fill(0);
    put_record(&mut area, 2, b"appaddr", b"0xzz");
    assert_eq!(
        SystemAttributes::from_attribute_slots(&area).err(),
        Some(AttributeError::InvalidNumber)
    );
}

#[test]
fn bootloader_version_is_trimmed() {
    assert_eq!(parse_bootloader_version(b"1.1.3\0\0\0".to_vec()).ok().as_deref(), Some("1.1.3"));
    assert_eq!(parse_bootloader_version(b"\0\0v2\0\0\0\0".to_vec()).ok().as_deref(), Some("v2"));
    assert_eq!(parse_bootloader_version(vec![0u8; 8]).ok().as_deref(), Some(""));
}

#[test]
fn bootloader_version_rejects_invalid_utf8() {
    assert_eq!(
        parse_bootloader_version(vec![0x31, 0xff, 0, 0, 0, 0, 0, 0]).err(),
        Some(AttributeError::InvalidString)
    );
    // overlong encodings are not UTF-8
    assert_eq!(
        parse_bootloader_version(vec![0xc0, 0x80, 0, 0, 0, 0, 0, 0]).err(),
        Some(AttributeError::InvalidString)
    );
}

#[test]
fn kernel_attributes_are_little_endian() {
    let mut a = SystemAttributes::new();
    a.apply_kernel_attributes(&kernel_block());
    assert_eq!(a.sentinel.as_deref(), Some("TOCK"));
    assert_eq!(a.kernel_version, Some(2));
    assert_eq!(a.app_mem_start, Some(0x2000_0000));
    assert_eq!(a.app_mem_len, Some(0x0001_0000));
    assert_eq!(a.kernel_bin_start, Some(0));
    assert_eq!(a.kernel_bin_len, Some(0x0002_0000));
}

#[test]
fn kernel_attributes_with_bad_sentinel_leave_attributes() {
    let mut block = kernel_block();
    block[96] = 0xff;
    let mut a = SystemAttributes::new();
    assert!(!a.try_apply_kernel_attributes(&block));
    assert!(a.sentinel.is_none() && a.kernel_version.is_none());
    assert!(a.try_apply_kernel_attributes(&kernel_block()));
    assert_eq!(a.kernel_version, Some(2));
}

#[test]
fn kernel_attributes_address_precedes_apps() {
    let mut a = SystemAttributes::new();
    assert_eq!(a.kernel_attributes_address(), Err(AttributeError::MissingAttribute));
    a.appaddr = Some(0x40000);
    assert_eq!(a.kernel_attributes_address(), Ok(0x40000 - 100));
}

#[test]
fn reader_reads_three_regions() {
    let (mut reader, action) = SystemAttributesReader::new();
    assert_eq!(action, SystemReadAction::Read { address: ATTRIBUTES_ADDRESS, len: ATTRIBUTES_LEN });
    let action = reader.step(&attribute_area());
    assert_eq!(
        action,
        SystemReadAction::Read { address: BOOTLOADER_VERSION_ADDRESS, len: BOOTLOADER_VERSION_LEN }
    );
    let action = reader.step(b"1.1.3\0\0\0");
    assert_eq!(action, SystemReadAction::Read { address: 0x40000 - 100, len: KERNEL_ATTRIBUTES_LEN });
    let action = reader.step(&kernel_block());
    assert_eq!(action, SystemReadAction::Done);
    assert_eq!(reader.stage, SystemReadStage::Finished);
    let a = reader.attributes;
    assert_eq!(a.arch.as_deref(), Some("cortex-m4"));
    assert!(a.appaddr.is_some());
    assert_eq!(a.bootloader_version.as_deref(), Some("1.1.3"));
    assert_eq!(a.sentinel.as_deref(), Some("TOCK"));
    assert_eq!(a.app_mem_start, Some(0x2000_0000));
}

#[test]
fn reader_without_application_address_fails() {
    let mut area = attribute_area();
    area[128..192].fill(0);
    let (mut reader, _) = SystemAttributesReader::new();
    reader.step(&area);
    let action = reader.step(b"1.1.3\0\0\0");
    assert_eq!(action, SystemReadAction::Failed(AttributeError::MissingAttribute));
    assert_eq!(reader.stage, SystemReadStage::Finished);
    assert_eq!(reader.attributes.bootloader_version.as_deref(), Some("1.1.3"));
}

#[test]
fn reader_stops_on_bad_number() {
    let mut area = attribute_area();
    area[128..192].fill(0);
    put_record(&mut area, 2, b"appaddr", b"nope");
    let (mut reader, _) = SystemAttributesReader::new();
    assert_eq!(reader.step(&area), SystemReadAction::Failed(AttributeError::InvalidNumber));
    assert_eq!(reader.stage, SystemReadStage::Finished);
}

#[test]
fn reader_stops_on_bad_version() {
    let (mut reader, _) = SystemAttributesReader::new();
    reader.step(&attribute_area());
    assert_eq!(
        reader.step(&[0xff; 8]),
        SystemReadAction::Failed(AttributeError::InvalidString)
    );
}

#[test]
fn reader_stops_on_bad_sentinel() {
    let (mut reader, _) = SystemAttributesReader::new();
    reader.step(&attribute_area());
    reader.step(b"1.1.3\0\0\0");
    let mut block = kernel_block();
    block[99] = 0x80;
    assert_eq!(reader.step(&block), SystemReadAction::Failed(AttributeError::InvalidSentinel));
    assert!(reader.attributes.sentinel.is_none());
}

#[test]
fn kernel_attributes_address_rejects_low_address() {
    let mut a = SystemAttributes::new();
    a.appaddr = Some(0x10);
    assert_eq!(a.kernel_attributes_address(), Err(AttributeError::InvalidAppAddress));
    a.appaddr = Some(100);
    assert_eq!(a.kernel_attributes_address(), Ok(0));
}

fn area_with_appaddr(value: &[u8]) -> Vec<u8> {
    let mut area = attribute_area();
    area[128..192].fill(0);
    put_record(&mut area, 2, b"appaddr", value);
    area
}

#[test]
fn reader_rejects_application_address_below_kernel_block() {
    let (mut reader, _) = SystemAttributesReader::new();
    reader.step(&area_with_appaddr(b"0x10"));
    assert_eq!(reader.step(b"1.1.3\0\0\0"), SystemReadAction::Failed(AttributeError::InvalidAppAddress));
    assert_eq!(reader.stage, SystemReadStage::Finished);
}

#[test]
fn reader_reports_bad_version_before_bad_address() {
    let (mut reader, _) = SystemAttributesReader::new();
    reader.step(&area_with_appaddr(b"0x10"));
    assert_eq!(reader.step(&[0xff; 8]), SystemReadAction::Failed(AttributeError::InvalidString));
}
