use vstd::prelude::*;

verus! {

/// A footer of a Tock application. Footers hold credentials, which are used to
/// check the integrity of the application, and `size` is the length of the
/// footer's value (its 4-byte type and length come on top).
#[derive(Debug)]
pub struct TbfFooter<Credentials> {
    pub credentials: Credentials,
    pub size: u32,
}

impl<Credentials> TbfFooter<Credentials> {
    /// A footer with these credentials and this size.
    pub fn new(credentials: Credentials, size: u32) -> (r: TbfFooter<Credentials>)
        ensures
            r.credentials == credentials,
            r.size == size,
    {
        TbfFooter { credentials, size }
    }
}

/// A Tock application found in flash: where it starts, its header and its
/// footers.
#[derive(Debug)]
pub struct AppAttributes<Header, Credentials> {
    pub address: u64,
    pub tbf_header: Header,
    pub tbf_footers: Vec<TbfFooter<Credentials>>,
}

/// The contents of an [`AppAttributes`].
#[verifier::ext_equal]
pub ghost struct AppAttributesView<Header, Credentials> {
    pub address: u64,
    pub tbf_header: Header,
    pub tbf_footers: Seq<TbfFooter<Credentials>>,
}

impl<Header, Credentials> View for AppAttributes<Header, Credentials> {
    type V = AppAttributesView<Header, Credentials>;

    open spec fn view(&self) -> AppAttributesView<Header, Credentials> {
        AppAttributesView {
            address: self.address,
            tbf_header: self.tbf_header,
            tbf_footers: self.tbf_footers@,
        }
    }
}

impl<Header, Credentials> AppAttributes<Header, Credentials> {
    /// An application at `address` with this header and these footers.
    pub fn new(address: u64, header_data: Header, footers_data: Vec<TbfFooter<Credentials>>) -> (r:
        AppAttributes<Header, Credentials>)
        ensures
            r@ == (AppAttributesView {
                address,
                tbf_header: header_data,
                tbf_footers: footers_data@,
            }),
    {
        AppAttributes { address, tbf_header: header_data, tbf_footers: footers_data }
    }
}

/// The bytes that `footers` take after the end of the binary: each footer's
/// value plus its 4-byte type and length.
pub open spec fn footers_span<Credentials>(footers: Seq<TbfFooter<Credentials>>) -> int
    decreases footers.len(),
{
    if footers.len() == 0 {
        0
    } else {
        footers_span(footers.drop_last()) + footers.last().size + 4
    }
}

/// `footers`, laid one after the other from `binary_end`, each start before
/// `total_size` and together reach it.
pub open spec fn footers_tile<Credentials>(
    binary_end: int,
    total_size: int,
    footers: Seq<TbfFooter<Credentials>>,
) -> bool {
    &&& forall|j: int|
        0 <= j < footers.len() ==> binary_end + #[trigger] footers_span(footers.take(j))
            < total_size
    &&& binary_end + footers_span(footers) >= total_size
}

/// What the logic reads of a parsed TBF header: the header itself, which it
/// keeps, where the application binary ends (the offset of the first footer),
/// and whether it is a version 2 header, that is an application rather than
/// padding.
pub struct ParsedHeader<Header> {
    pub header: Header,
    pub binary_end: u32,
    pub is_app: bool,
}

/// Which read an [`AppScanner`] waits for.
#[derive(Debug, Clone, Copy, PartialEq, Eq, Structural)]
pub enum ScanStage {
    /// The 8 bytes at the scan address that give the TBF version, the header
    /// size and the total size of the next application.
    HeaderLengths,
    /// The header of the application at the scan address.
    Header { version: u16, header_size: u16, total_size: u32 },
    /// The footer at `footer_offset` of the application at the scan address.
    Footers { total_size: u32, binary_end: u32, footer_offset: u32 },
    /// Nothing more: the scan is complete or failed.
    Finished,
}

/// What the driver of an [`AppScanner`] has read and parsed.
pub enum ScanEvent<Header, Credentials, Error> {
    /// The TBF version, header size and total size, or `None` where the bytes
    /// are not the start of an application.
    HeaderLengths(Option<(u16, u16, u32)>),
    /// The parsed header, or why it does not parse.
    Header(Result<ParsedHeader<Header>, Error>),
    /// The credentials and size of the parsed footer, or why it does not parse.
    Footer(Result<(Credentials, u32), Error>),
}

/// What the driver of an [`AppScanner`] does next.
#[derive(Debug, PartialEq, Eq)]
pub enum ScanAction<Error> {
    /// Read 8 bytes at `address` and parse the header lengths.
    ReadHeaderLengths { address: u64 },
    /// Read `header_size` bytes at `address` and parse them as a header of TBF
    /// version `version`.
    ReadHeader { address: u64, header_size: u16, version: u16 },
    /// Read `len` bytes at `address` and parse a footer from them.
    ReadFooter { address: u64, len: u32 },
    /// The scan is complete.
    Done,
    /// The scan stops with this error.
    Failed(Error),
}

/// Finds the applications stored one after the other in flash from a start
/// address, reading until the bytes at the scan address are not an
/// application: the decisions are made here, the reads and the parsing of TBF
/// structures by the caller.
pub struct AppScanner<Header, Credentials> {
    /// Where the application being read starts.
    pub address: u64,
    pub stage: ScanStage,
    /// The applications found so far.
    pub apps: Vec<AppAttributes<Header, Credentials>>,
    /// The header of the application whose footers are being read.
    pub header: Option<Header>,
    /// The footers of that application read so far.
    pub footers: Vec<TbfFooter<Credentials>>,
    /// The total size and binary end of each application found.
    pub extents: Ghost<Seq<(u32, u32)>>,
}

/// The state of an [`AppScanner`].
#[verifier::ext_equal]
pub ghost struct AppScannerView<Header, Credentials> {
    pub address: u64,
    pub stage: ScanStage,
    pub apps: Seq<AppAttributesView<Header, Credentials>>,
    pub header: Option<Header>,
    pub footers: Seq<TbfFooter<Credentials>>,
    pub extents: Seq<(u32, u32)>,
}

impl<Header, Credentials> View for AppScanner<Header, Credentials> {
    type V = AppScannerView<Header, Credentials>;

    open spec fn view(&self) -> AppScannerView<Header, Credentials> {
        AppScannerView {
            address: self.address,
            stage: self.stage,
            apps: self.apps@.map_values(|a: AppAttributes<Header, Credentials>| a@),
            header: self.header,
            footers: self.footers@,
            extents: self.extents@,
        }
    }
}

impl<Header, Credentials> AppScannerView<Header, Credentials> {
    /// What holds in every state a scan reaches: the applications found lie
    /// one after the other, in order, below the scan address; the footers of
    /// each tile the space from its binary end to its total size; and while
    /// footers are read, the offset of the next footer is the binary end plus
    /// the footers read so far, still below the total size.
    pub open spec fn wf(self) -> bool {
        &&& self.apps.len() == self.extents.len()
        &&& forall|i: int|
            0 <= i < self.apps.len() ==> footers_tile(
                self.extents[i].1 as int,
                self.extents[i].0 as int,
                #[trigger] self.apps[i].tbf_footers,
            )
        &&& forall|i: int|
            0 <= i < self.apps.len() ==> #[trigger] self.apps[i].address + self.extents[i].0
                <= self.address
        &&& forall|i: int, j: int|
            0 <= i < j < self.apps.len() ==> #[trigger] self.apps[i].address
                + self.extents[i].0 <= #[trigger] self.apps[j].address
        &&& match self.stage {
            ScanStage::Footers { total_size, binary_end, footer_offset } => {
                &&& self.header is Some
                &&& binary_end <= footer_offset < total_size
                &&& footer_offset == binary_end + footers_span(self.footers)
                &&& forall|j: int|
                    0 <= j < self.footers.len() ==> binary_end + #[trigger] footers_span(
                        self.footers.take(j),
                    ) < total_size
                &&& self.address + total_size <= u64::MAX
            },
            _ => self.header is None && self.footers.len() == 0,
        }
    }
}

/// The driver may hand `event` to a scanner in state `s`: it is the event of
/// the read the scanner waits for, and taking it does not overflow the
/// scanner's arithmetic (the application ends within the 64-bit address space,
/// its binary ends within it, and the footer offset stays within 32 bits).
pub open spec fn step_allowed<Header, Credentials, Error>(
    s: AppScannerView<Header, Credentials>,
    event: ScanEvent<Header, Credentials, Error>,
) -> bool {
    match (s.stage, event) {
        (ScanStage::HeaderLengths, ScanEvent::HeaderLengths(_)) => true,
        (ScanStage::Header { total_size, .. }, ScanEvent::Header(r)) => r matches Ok(ph) ==> {
            &&& s.address + total_size <= u64::MAX
            &&& ph.is_app ==> ph.binary_end <= total_size
        },
        (ScanStage::Footers { footer_offset, .. }, ScanEvent::Footer(r)) => r matches Ok(f) ==> {
            footer_offset + f.1 + 4 <= u32::MAX
        },
        _ => false,
    }
}

/// The application at the scan address is complete: it is recorded and the
/// scan moves past it.
pub open spec fn finish_app<Header, Credentials, Error>(
    s: AppScannerView<Header, Credentials>,
    header: Header,
    footers: Seq<TbfFooter<Credentials>>,
    total_size: u32,
    binary_end: u32,
) -> (AppScannerView<Header, Credentials>, ScanAction<Error>) {
    let next = (s.address + total_size) as u64;
    (
        AppScannerView {
            address: next,
            stage: ScanStage::HeaderLengths,
            apps: s.apps.push(
                AppAttributesView { address: s.address, tbf_header: header, tbf_footers: footers },
            ),
            header: None,
            footers: Seq::empty(),
            extents: s.extents.push((total_size, binary_end)),
        },
        ScanAction::ReadHeaderLengths { address: next },
    )
}

/// The scanner in state `s` takes `event`: its next state and what it asks
/// for next.
pub open spec fn scan_step<Header, Credentials, Error>(
    s: AppScannerView<Header, Credentials>,
    event: ScanEvent<Header, Credentials, Error>,
) -> (AppScannerView<Header, Credentials>, ScanAction<Error>) {
    let finished = AppScannerView {
        stage: ScanStage::Finished,
        header: None,
        footers: Seq::empty(),
        ..s
    };
    match (s.stage, event) {
        (ScanStage::HeaderLengths, ScanEvent::HeaderLengths(None)) => (finished, ScanAction::Done),
        (ScanStage::HeaderLengths, ScanEvent::HeaderLengths(Some((version, header_size, total_size)))) => (
            AppScannerView { stage: ScanStage::Header { version, header_size, total_size }, ..s },
            ScanAction::ReadHeader { address: s.address, header_size, version },
        ),
        (ScanStage::Header { total_size, .. }, ScanEvent::Header(Err(e))) => (
            finished,
            ScanAction::Failed(e),
        ),
        (ScanStage::Header { total_size, .. }, ScanEvent::Header(Ok(ph))) => {
            if !ph.is_app {
                let next = (s.address + total_size) as u64;
                (
                    AppScannerView { address: next, stage: ScanStage::HeaderLengths, ..s },
                    ScanAction::ReadHeaderLengths { address: next },
                )
            } else if ph.binary_end < total_size {
                (
                    AppScannerView {
                        stage: ScanStage::Footers {
                            total_size,
                            binary_end: ph.binary_end,
                            footer_offset: ph.binary_end,
                        },
                        header: Some(ph.header),
                        footers: Seq::empty(),
                        ..s
                    },
                    ScanAction::ReadFooter {
                        address: (s.address + ph.binary_end) as u64,
                        len: (total_size - ph.binary_end) as u32,
                    },
                )
            } else {
                finish_app(s, ph.header, Seq::empty(), total_size, ph.binary_end)
            }
        },
        (
            ScanStage::Footers { total_size, binary_end, footer_offset },
            ScanEvent::Footer(Err(e)),
        ) => (finished, ScanAction::Failed(e)),
        (
            ScanStage::Footers { total_size, binary_end, footer_offset },
            ScanEvent::Footer(Ok((credentials, size))),
        ) => {
            let footers = s.footers.push(TbfFooter { credentials, size });
            let offset = (footer_offset + size + 4) as u32;
            if offset < total_size {
                (
                    AppScannerView {
                        stage: ScanStage::Footers { total_size, binary_end, footer_offset: offset },
                        footers,
                        ..s
                    },
                    ScanAction::ReadFooter {
                        address: (s.address + offset) as u64,
                        len: (total_size - offset) as u32,
                    },
                )
            } else {
                finish_app(s, s.header->0, footers, total_size, binary_end)
            }
        },
        _ => (s, ScanAction::Done),
    }
}

/// Adding a footer extends the span by its size and 4, and leaves the spans of
/// the earlier prefixes as they were.
proof fn lemma_span_push<Credentials>(footers: Seq<TbfFooter<Credentials>>, f: TbfFooter<Credentials>)
    ensures
        footers_span(footers.push(f)) == footers_span(footers) + f.size + 4,
        forall|j: int|
            0 <= j <= footers.len() ==> #[trigger] footers.push(f).take(j) == footers.take(j),
        footers.take(footers.len() as int) == footers,
{
    assert(footers.push(f).drop_last() =~= footers);
    assert(footers.take(footers.len() as int) =~= footers);
    assert forall|j: int| 0 <= j <= footers.len() implies #[trigger] footers.push(f).take(j)
        == footers.take(j) by {
        assert(footers.push(f).take(j) =~= footers.take(j));
    }
}

/// Every step of a scan keeps what [`AppScannerView::wf`] states: applications
/// never overlap and lie in order below the scan address, and the footers of
/// each application tile the space after its binary.
pub proof fn lemma_scan_step_keeps_wf<Header, Credentials, Error>(
    s: AppScannerView<Header, Credentials>,
    event: ScanEvent<Header, Credentials, Error>,
)
    requires
        s.wf(),
        step_allowed(s, event),
    ensures
        scan_step(s, event).0.wf(),
{
    let next = scan_step(s, event).0;
    match (s.stage, event) {
        (ScanStage::Header { total_size, .. }, ScanEvent::Header(Ok(ph))) => {
            if ph.is_app && ph.binary_end >= total_size {
                let e = Seq::<TbfFooter<Credentials>>::empty();
                assert(footers_span(e) == 0);
                assert(next.apps.last().tbf_footers == e);
                assert forall|i: int| 0 <= i < next.apps.len() implies footers_tile(
                    next.extents[i].1 as int,
                    next.extents[i].0 as int,
                    #[trigger] next.apps[i].tbf_footers,
                ) by {
                    if i < s.apps.len() {
                        assert(next.apps[i] == s.apps[i]);
                        assert(next.extents[i] == s.extents[i]);
                    }
                }
                assert forall|i: int, j: int| 0 <= i < j < next.apps.len() implies #[trigger] next.apps[i].address
                    + next.extents[i].0 <= #[trigger] next.apps[j].address by {
                    assert(next.apps[i] == s.apps[i]);
                    assert(next.extents[i] == s.extents[i]);
                    if j < s.apps.len() {
                        assert(next.apps[j] == s.apps[j]);
                    }
                }
            } else if ph.is_app {
                assert(footers_span(Seq::<TbfFooter<Credentials>>::empty()) == 0);
            }
        },
        (
            ScanStage::Footers { total_size, binary_end, footer_offset },
            ScanEvent::Footer(Ok((credentials, size))),
        ) => {
            let f = TbfFooter { credentials, size };
            let footers = s.footers.push(f);
            lemma_span_push(s.footers, f);
            assert forall|j: int| 0 <= j < footers.len() implies binary_end + #[trigger] footers_span(
                footers.take(j),
            ) < total_size by {
                if j < s.footers.len() {
                    assert(footers.take(j) == s.footers.take(j));
                } else {
                    assert(footers.take(j) == s.footers);
                }
            }
            let offset = (footer_offset + size + 4) as u32;
            if offset >= total_size {
                assert(next.apps.last().tbf_footers == footers);
                assert forall|i: int| 0 <= i < next.apps.len() implies footers_tile(
                    next.extents[i].1 as int,
                    next.extents[i].0 as int,
                    #[trigger] next.apps[i].tbf_footers,
                ) by {
                    if i < s.apps.len() {
                        assert(next.apps[i] == s.apps[i]);
                        assert(next.extents[i] == s.extents[i]);
                    }
                }
                assert forall|i: int, j: int| 0 <= i < j < next.apps.len() implies #[trigger] next.apps[i].address
                    + next.extents[i].0 <= #[trigger] next.apps[j].address by {
                    assert(next.apps[i] == s.apps[i]);
                    assert(next.extents[i] == s.extents[i]);
                    if j < s.apps.len() {
                        assert(next.apps[j] == s.apps[j]);
                    }
                }
            }
        },
        _ => {},
    }
}

/// The scan address never moves back, and every read the scanner asks for
/// lies within the application at the scan address: header reads start at it,
/// and a footer read starts past the binary and ends exactly at the end of the
/// application.
pub proof fn lemma_scan_reads_within_app<Header, Credentials, Error>(
    s: AppScannerView<Header, Credentials>,
    event: ScanEvent<Header, Credentials, Error>,
)
    requires
        s.wf(),
        step_allowed(s, event),
    ensures
        scan_step(s, event).0.address >= s.address,
        ({
            let (next, action) = scan_step(s, event);
            &&& action matches ScanAction::ReadHeader { address, .. } ==> address == next.address
            &&& action matches ScanAction::ReadHeaderLengths { address } ==> address == next.address
            &&& action matches ScanAction::ReadFooter { address, len } ==> (next.stage matches ScanStage::Footers {
                total_size,
                binary_end,
                footer_offset,
            } && len > 0 && address == next.address + footer_offset && address + len
                == next.address + total_size && footer_offset >= binary_end)
        }),
{
}

impl<Header, Credentials> AppScanner<Header, Credentials> {
    /// A scan that starts at `address`, and the read it asks for first.
    pub fn new<Error>(address: u64) -> (r: (AppScanner<Header, Credentials>, ScanAction<Error>))
        ensures
            r.0@ == (AppScannerView::<Header, Credentials> {
                address,
                stage: ScanStage::HeaderLengths,
                apps: Seq::empty(),
                header: None,
                footers: Seq::empty(),
                extents: Seq::empty(),
            }),
            r.0@.wf(),
            r.1 == (ScanAction::<Error>::ReadHeaderLengths { address }),
    {
        let scanner = AppScanner {
            address,
            stage: ScanStage::HeaderLengths,
            apps: Vec::new(),
            header: None,
            footers: Vec::new(),
            extents: Ghost(Seq::empty()),
        };
        assert(scanner@.apps =~= Seq::empty());
        (scanner, ScanAction::ReadHeaderLengths { address })
    }

    /// Records the application at the scan address and moves past it.
    fn finish_app<Error>(&mut self, header: Header, total_size: u32, binary_end: u32) -> (action:
        ScanAction<Error>)
        requires
            old(self).address + total_size <= u64::MAX,
        ensures
            (final(self)@, action) == finish_app::<Header, Credentials, Error>(
                old(self)@,
                header,
                old(self)@.footers,
                total_size,
                binary_end,
            ),
    {
        let mut footers: Vec<TbfFooter<Credentials>> = Vec::new();
        std::mem::swap(&mut footers, &mut self.footers);
        let ghost old_apps = self.apps@;
        self.apps.push(AppAttributes::new(self.address, header, footers));
        self.header = None;
        proof {
            self.extents@ = self.extents@.push((total_size, binary_end));
            assert(self.apps@.map_values(|a: AppAttributes<Header, Credentials>| a@) =~= old_apps.map_values(
                |a: AppAttributes<Header, Credentials>| a@,
            ).push(self.apps@.last()@));
            assert(self.footers@ =~= Seq::<TbfFooter<Credentials>>::empty());
        }
        self.address = self.address + total_size as u64;
        self.stage = ScanStage::HeaderLengths;
        ScanAction::ReadHeaderLengths { address: self.address }
    }

    /// Stops the scan; what was found stays.
    fn finish<Error>(&mut self, action: ScanAction<Error>) -> (r: ScanAction<Error>)
        ensures
            final(self)@ == (AppScannerView {
                stage: ScanStage::Finished,
                header: None,
                footers: Seq::empty(),
                ..old(self)@
            }),
            r == action,
    {
        self.stage = ScanStage::Finished;
        self.header = None;
        self.footers = Vec::new();
        assert(self.footers@ =~= Seq::<TbfFooter<Credentials>>::empty());
        action
    }

    /// Takes what the driver read and parsed for the read the scanner asked
    /// for, and decides what comes next.
    pub fn step<Error>(&mut self, event: ScanEvent<Header, Credentials, Error>) -> (action:
        ScanAction<Error>)
        requires
            old(self)@.wf(),
            step_allowed(old(self)@, event),
        ensures
            (final(self)@, action) == scan_step(old(self)@, event),
            final(self)@.wf(),
            final(self).address >= old(self).address,
            action matches ScanAction::ReadFooter { address, len } ==> (final(self).stage matches ScanStage::Footers {
                total_size,
                footer_offset,
                ..
            } && len > 0 && address == final(self).address + footer_offset && address + len
                == final(self).address + total_size),
    {
        proof {
            lemma_scan_step_keeps_wf(self@, event);
            lemma_scan_reads_within_app(self@, event);
        }
        match (self.stage, event) {
            (ScanStage::HeaderLengths, ScanEvent::HeaderLengths(None)) => {
                self.finish(ScanAction::Done)
            },
            (
                ScanStage::HeaderLengths,
                ScanEvent::HeaderLengths(Some((version, header_size, total_size))),
            ) => {
                self.stage = ScanStage::Header { version, header_size, total_size };
                ScanAction::ReadHeader { address: self.address, header_size, version }
            },
            (ScanStage::Header { .. }, ScanEvent::Header(Err(e))) => {
                self.finish(ScanAction::Failed(e))
            },
            (ScanStage::Header { total_size, .. }, ScanEvent::Header(Ok(ph))) => {
                if !ph.is_app {
                    self.address = self.address + total_size as u64;
                    self.stage = ScanStage::HeaderLengths;
                    ScanAction::ReadHeaderLengths { address: self.address }
                } else if ph.binary_end < total_size {
                    self.stage = ScanStage::Footers {
                        total_size,
                        binary_end: ph.binary_end,
                        footer_offset: ph.binary_end,
                    };
                    self.header = Some(ph.header);
                    ScanAction::ReadFooter {
                        address: self.address + ph.binary_end as u64,
                        len: total_size - ph.binary_end,
                    }
                } else {
                    assert(self@.footers =~= Seq::<TbfFooter<Credentials>>::empty());
                    self.finish_app(ph.header, total_size, ph.binary_end)
                }
            },
            (ScanStage::Footers { .. }, ScanEvent::Footer(Err(e))) => {
                self.finish(ScanAction::Failed(e))
            },
            (
                ScanStage::Footers { total_size, binary_end, footer_offset },
                ScanEvent::Footer(Ok((credentials, size))),
            ) => {
                self.footers.push(TbfFooter::new(credentials, size));
                let offset: u32 = footer_offset + size + 4;
                if offset < total_size {
                    self.stage = ScanStage::Footers { total_size, binary_end, footer_offset: offset };
                    ScanAction::ReadFooter {
                        address: self.address + offset as u64,
                        len: total_size - offset,
                    }
                } else {
                    match self.header.take() {
                        Some(header) => self.finish_app(header, total_size, binary_end),
                        None => ScanAction::Done,
                    }
                }
            },
            _ => ScanAction::Done,
        }
    }

    /// The applications found.
    pub fn into_apps(self) -> (apps: Vec<AppAttributes<Header, Credentials>>)
        ensures
            apps@.map_values(|a: AppAttributes<Header, Credentials>| a@) == self@.apps,
    {
        self.apps
    }
}

} // verus!
