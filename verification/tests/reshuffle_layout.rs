use tockloader_lib::board_settings::BoardSettings;
use tockloader_lib::command_impl::reshuffle_apps::{
    reshuffle_apps, FixedApp, FlexibleApp, Index, TockApp,
};

fn settings() -> BoardSettings {
    BoardSettings {
        arch: Some("cortex-m4".to_string()),
        start_address: 0x40000,
        page_size: 512,
        ram_start_address: 0x20000000,
    }
}

fn fixed(installed: bool, slots: Vec<Option<(u64, u64)>>, size: u64) -> TockApp {
    TockApp::Fixed(FixedApp { installed, idx: None, compatible_addresses: slots, size })
}

fn flexible(installed: bool, size: u64) -> TockApp {
    TockApp::Flexible(FlexibleApp { installed, idx: None, size })
}

fn check_layout(start: u64, n: usize, layout: &[Index]) {
    if let Some(first) = layout.first() {
        assert_eq!(first.address, start);
    }
    for w in layout.windows(2) {
        assert_eq!(w[1].address, w[0].address + w[0].size);
    }
    for (k, e) in layout.iter().enumerate() {
        assert!(e.size > 0);
        if e.idx.is_none() {
            assert!(!e.installed && e.ram_address.is_none());
            assert!(layout[k + 1].idx.is_some());
        }
    }
    for i in 0..n {
        assert_eq!(layout.iter().filter(|e| e.idx == Some(i)).count(), 1);
    }
}

#[test]
fn no_apps_no_layout() {
    assert_eq!(reshuffle_apps(&settings(), vec![]), Some(vec![]));
}

#[test]
fn fixed_app_without_free_address_fails() {
    let apps = vec![
        fixed(true, vec![Some((0x40000, 0x20008000))], 0x2000),
        fixed(false, vec![Some((0x41000, 0x20009000)), None], 0x2000),
    ];
    assert_eq!(reshuffle_apps(&settings(), apps), None);
}

#[test]
fn fixed_app_below_start_is_not_placed_there() {
    let apps = vec![fixed(false, vec![Some((0x30000, 0x20000000)), Some((0x44000, 0x20004000))], 0x1000)];
    let layout = reshuffle_apps(&settings(), apps).expect("a place exists");
    assert_eq!(
        layout,
        vec![
            Index { installed: false, idx: None, ram_address: None, address: 0x40000, size: 0x4000 },
            Index { installed: false, idx: Some(0), ram_address: Some(0x20004000), address: 0x44000, size: 0x1000 },
        ]
    );
    check_layout(0x40000, 1, &layout);
}

#[test]
fn flexible_apps_fill_gaps_lowest_first() {
    let apps = vec![
        flexible(true, 0x1000),
        fixed(true, vec![Some((0x42000, 0x20002000))], 0x1000),
        flexible(false, 0x1000),
        flexible(false, 0x2000),
    ];
    let layout = reshuffle_apps(&settings(), apps).expect("a place exists");
    assert_eq!(
        layout,
        vec![
            Index { installed: true, idx: Some(0), ram_address: None, address: 0x40000, size: 0x1000 },
            Index { installed: false, idx: Some(2), ram_address: None, address: 0x41000, size: 0x1000 },
            Index { installed: true, idx: Some(1), ram_address: Some(0x20002000), address: 0x42000, size: 0x1000 },
            Index { installed: false, idx: Some(3), ram_address: None, address: 0x43000, size: 0x2000 },
        ]
    );
    check_layout(0x40000, 4, &layout);
}

#[test]
fn layout_covers_flash_and_places_each_app_once() {
    let apps = vec![
        fixed(true, vec![Some((0x50000, 0x20010000)), Some((0x40000, 0x20000000))], 0x3000),
        flexible(true, 0x800),
        fixed(false, vec![Some((0x50000, 0x20010000)), Some((0x60000, 0x20020000))], 0x4000),
        flexible(false, 0x20000),
        flexible(true, 0x400),
    ];
    let layout = reshuffle_apps(&settings(), apps).expect("a place exists");
    check_layout(0x40000, 5, &layout);
}
