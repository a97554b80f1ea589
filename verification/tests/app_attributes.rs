use tockloader_lib::attributes::app_attributes::{
    AppAttributes, AppScanner, ParsedHeader, ScanAction, ScanEvent, ScanStage, TbfFooter,
};

type Scanner = AppScanner<&'static str, u8>;
type Event = ScanEvent<&'static str, u8, &'static str>;

fn app_header(name: &'static str, binary_end: u32) -> Event {
    ScanEvent::Header(Ok(ParsedHeader { header: name, binary_end, is_app: true }))
}

#[test]
fn tbf_footer_new_keeps_fields() {
    let f = TbfFooter::new(7u8, 32);
    assert_eq!(f.credentials, 7);
    assert_eq!(f.size, 32);
}

#[test]
fn app_attributes_new_keeps_fields() {
    let a = AppAttributes::new(0x40000, "hello", vec![TbfFooter::new(1u8, 4)]);
    assert_eq!(a.address, 0x40000);
    assert_eq!(a.tbf_header, "hello");
    assert_eq!(a.tbf_footers.len(), 1);
    assert_eq!(a.tbf_footers[0].size, 4);
}

#[test]
fn scan_of_empty_flash_finds_nothing() {
    let (mut scanner, action) = Scanner::new::<&'static str>(0x40000);
    assert_eq!(action, ScanAction::ReadHeaderLengths { address: 0x40000 });
    assert_eq!(scanner.step(Event::HeaderLengths(None)), ScanAction::Done);
    assert_eq!(scanner.stage, ScanStage::Finished);
    assert!(scanner.into_apps().is_empty());
}

#[test]
fn scan_reads_footers_until_the_end_of_the_app() {
    let (mut scanner, _) = Scanner::new::<&'static str>(0x40000);
    // version 2, header of 0x48 bytes, app of 0x1000 bytes
    assert_eq!(
        scanner.step(Event::HeaderLengths(Some((2, 0x48, 0x1000)))),
        ScanAction::ReadHeader { address: 0x40000, header_size: 0x48, version: 2 }
    );
    // binary ends at 0xf00: footers fill 0x100 bytes
    assert_eq!(
        scanner.step(app_header("c_hello", 0xf00)),
        ScanAction::ReadFooter { address: 0x40f00, len: 0x100 }
    );
    // a footer of 0x3c bytes takes 0x40 with its type and length
    assert_eq!(
        scanner.step(Event::Footer(Ok((1, 0x3c)))),
        ScanAction::ReadFooter { address: 0x40f40, len: 0xc0 }
    );
    assert_eq!(
        scanner.step(Event::Footer(Ok((2, 0xbc)))),
        ScanAction::ReadHeaderLengths { address: 0x41000 }
    );
    assert_eq!(scanner.step(Event::HeaderLengths(None)), ScanAction::Done);
    let apps = scanner.into_apps();
    assert_eq!(apps.len(), 1);
    assert_eq!(apps[0].address, 0x40000);
    assert_eq!(apps[0].tbf_header, "c_hello");
    let footers: Vec<(u8, u32)> = apps[0].tbf_footers.iter().map(|f| (f.credentials, f.size)).collect();
    assert_eq!(footers, vec![(1, 0x3c), (2, 0xbc)]);
}

#[test]
fn scan_skips_padding() {
    let (mut scanner, _) = Scanner::new::<&'static str>(0x40000);
    scanner.step(Event::HeaderLengths(Some((2, 0x10, 0x800))));
    let padding: Event = ScanEvent::Header(Ok(ParsedHeader { header: "padding", binary_end: 0, is_app: false }));
    assert_eq!(scanner.step(padding), ScanAction::ReadHeaderLengths { address: 0x40800 });
    scanner.step(Event::HeaderLengths(Some((2, 0x10, 0x800))));
    // binary up to the end: no footers to read
    assert_eq!(scanner.step(app_header("blink", 0x800)), ScanAction::ReadHeaderLengths { address: 0x41000 });
    scanner.step(Event::HeaderLengths(None));
    let apps = scanner.into_apps();
    assert_eq!(apps.len(), 1);
    assert_eq!(apps[0].address, 0x40800);
    assert!(apps[0].tbf_footers.is_empty());
}

#[test]
fn scan_finds_apps_one_after_the_other() {
    let (mut scanner, _) = Scanner::new::<&'static str>(0x40000);
    for (name, size) in [("a", 0x400u32), ("b", 0x800), ("c", 0x200)] {
        scanner.step(Event::HeaderLengths(Some((2, 0x10, size))));
        scanner.step(app_header(name, size));
    }
    scanner.step(Event::HeaderLengths(None));
    let apps = scanner.into_apps();
    let found: Vec<(u64, &str)> = apps.iter().map(|a| (a.address, a.tbf_header)).collect();
    assert_eq!(found, vec![(0x40000, "a"), (0x40400, "b"), (0x40c00, "c")]);
}

#[test]
fn scan_stops_on_a_bad_header() {
    let (mut scanner, _) = Scanner::new::<&'static str>(0x40000);
    scanner.step(Event::HeaderLengths(Some((2, 0x10, 0x400))));
    scanner.step(app_header("a", 0x400));
    scanner.step(Event::HeaderLengths(Some((2, 0x10, 0x400))));
    assert_eq!(scanner.step(Event::Header(Err("bad checksum"))), ScanAction::Failed("bad checksum"));
    assert_eq!(scanner.stage, ScanStage::Finished);
    assert_eq!(scanner.into_apps().len(), 1);
}

#[test]
fn scan_stops_on_a_bad_footer() {
    let (mut scanner, _) = Scanner::new::<&'static str>(0x40000);
    scanner.step(Event::HeaderLengths(Some((2, 0x10, 0x400))));
    scanner.step(app_header("a", 0x300));
    assert_eq!(scanner.step(Event::Footer(Err("bad footer"))), ScanAction::Failed("bad footer"));
    assert!(scanner.header.is_none());
    assert!(scanner.into_apps().is_empty());
}
