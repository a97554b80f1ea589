use vstd::prelude::*;
use vstd::slice::slice_subrange;
use vstd::utf8::{decode_utf8, valid_utf8};

use crate::attributes::decode::{
    attribute_of, bytes_to_string, decode_attribute, lemma_trim_end_nul, lemma_trim_start_nul,
    string_from_chars, string_from_utf8, trim_end_nul, trim_nul, trim_nul_chars, trim_start_nul, try_bytes_to_string,
    utf8_text,
};
use crate::number::{hex_address, le_u32, le_uint, parse_hex_address, read_u32_le, read_uint_le};

verus! {

/// Flash address of the first of the sixteen 64-byte attribute records.
pub const ATTRIBUTES_ADDRESS: u64 = 0x600;

/// Length of the attribute area: sixteen records of 64 bytes.
pub const ATTRIBUTES_LEN: usize = 1024;

/// Flash address of the bootloader version string.
pub const BOOTLOADER_VERSION_ADDRESS: u64 = 0x40E;

/// Length of the bootloader version string.
pub const BOOTLOADER_VERSION_LEN: usize = 8;

/// Length of the kernel attribute block that precedes the first application.
pub const KERNEL_ATTRIBUTES_LEN: usize = 100;

/// Why the system attributes of a board could not be read.
#[derive(Debug, Clone, Copy, PartialEq, Eq, Structural)]
pub enum AttributeError {
    /// The application address attribute is not a base-16 number.
    InvalidNumber,
    /// The bootloader version is not valid UTF-8.
    InvalidString,
    /// No application address attribute was found, so the kernel attributes
    /// that precede the applications cannot be located.
    MissingAttribute,
    /// The application address lies below the 100 bytes of the kernel
    /// attribute block that precede the applications, so it is not valid.
    InvalidAppAddress,
    /// The sentinel of the kernel attribute block is not valid UTF-8.
    InvalidSentinel,
}

/// What a board stores about itself in its bootloader area and in the kernel
/// attribute block. Not every board has every attribute, so each may be absent.
#[derive(Debug)]
pub struct SystemAttributes {
    pub board: Option<String>,
    pub arch: Option<String>,
    pub appaddr: Option<u64>,
    pub boothash: Option<String>,
    pub bootloader_version: Option<String>,
    pub sentinel: Option<String>,
    pub kernel_version: Option<u64>,
    pub app_mem_start: Option<u32>,
    pub app_mem_len: Option<u32>,
    pub kernel_bin_start: Option<u32>,
    pub kernel_bin_len: Option<u32>,
}

/// The contents of a [`SystemAttributes`], strings taken as characters.
pub ghost struct SystemAttributesView {
    pub board: Option<Seq<char>>,
    pub arch: Option<Seq<char>>,
    pub appaddr: Option<u64>,
    pub boothash: Option<Seq<char>>,
    pub bootloader_version: Option<Seq<char>>,
    pub sentinel: Option<Seq<char>>,
    pub kernel_version: Option<u64>,
    pub app_mem_start: Option<u32>,
    pub app_mem_len: Option<u32>,
    pub kernel_bin_start: Option<u32>,
    pub kernel_bin_len: Option<u32>,
}

impl View for SystemAttributes {
    type V = SystemAttributesView;

    open spec fn view(&self) -> SystemAttributesView {
        SystemAttributesView {
            board: self.board.deep_view(),
            arch: self.arch.deep_view(),
            appaddr: self.appaddr,
            boothash: self.boothash.deep_view(),
            bootloader_version: self.bootloader_version.deep_view(),
            sentinel: self.sentinel.deep_view(),
            kernel_version: self.kernel_version,
            app_mem_start: self.app_mem_start,
            app_mem_len: self.app_mem_len,
            kernel_bin_start: self.kernel_bin_start,
            kernel_bin_len: self.kernel_bin_len,
        }
    }
}

/// No attribute known.
pub open spec fn empty_attributes() -> SystemAttributesView {
    SystemAttributesView {
        board: None,
        arch: None,
        appaddr: None,
        boothash: None,
        bootloader_version: None,
        sentinel: None,
        kernel_version: None,
        app_mem_start: None,
        app_mem_len: None,
        kernel_bin_start: None,
        kernel_bin_len: None,
    }
}

/// The 64-byte record number `i` of the attribute area `buf`.
pub open spec fn slot(buf: Seq<u8>, i: int) -> Seq<u8> {
    buf.subrange(64 * i, 64 * i + 64)
}

/// The value of record number `i`, when the record decodes.
pub open spec fn slot_value(buf: Seq<u8>, i: int) -> Option<Seq<char>> {
    match attribute_of(slot(buf, i)) {
        Some((_key, value)) => Some(value),
        None => None,
    }
}

/// What the attribute area `buf` says: records 0 to 3 hold, by position, the
/// board name, the architecture, the application address (in base 16) and the
/// boot hash. A record that does not decode leaves its attribute absent; an
/// application address that is not a number is an error.
pub open spec fn attributes_from_slots(buf: Seq<u8>) -> Result<SystemAttributesView, AttributeError> {
    let appaddr = match slot_value(buf, 2) {
        Some(v) => match hex_address(v) {
            Some(a) => Ok(Some(a)),
            None => Err(AttributeError::InvalidNumber),
        },
        None => Ok(None),
    };
    match appaddr {
        Err(e) => Err(e),
        Ok(appaddr) => Ok(
            SystemAttributesView {
                board: slot_value(buf, 0),
                arch: slot_value(buf, 1),
                appaddr: appaddr,
                boothash: slot_value(buf, 3),
                ..empty_attributes()
            },
        ),
    }
}

/// The bootloader version that the 8 bytes `buf` spell: their UTF-8 decoding
/// without NULs at either end.
pub open spec fn bootloader_version_of(buf: Seq<u8>) -> Option<Seq<char>> {
    if valid_utf8(buf) {
        Some(trim_nul(decode_utf8(buf)))
    } else {
        None
    }
}

/// The kernel attribute block `buf` (the 100 bytes before the first
/// application) read into `m`: the sentinel in bytes 96 to 99, the kernel
/// version in byte 95, the application memory start and length at 80 and 84,
/// the kernel binary start and length at 68 and 72 (little-endian).
pub open spec fn with_kernel_attributes(m: SystemAttributesView, buf: Seq<u8>) -> SystemAttributesView {
    SystemAttributesView {
        sentinel: utf8_text(buf.subrange(96, 100)),
        kernel_version: Some(buf[95] as u64),
        app_mem_start: Some(le_u32(buf.subrange(80, 84)) as u32),
        app_mem_len: Some(le_u32(buf.subrange(84, 88)) as u32),
        kernel_bin_start: Some(le_u32(buf.subrange(68, 72)) as u32),
        kernel_bin_len: Some(le_u32(buf.subrange(72, 76)) as u32),
        ..m
    }
}

/// The little-endian 32-bit number in bytes `i` to `i + 3` of `buf`.
pub open spec fn le_u32_at(buf: Seq<u8>, i: int) -> int {
    buf[i] + 256 * buf[i + 1] + 65536 * buf[i + 2] + 16777216 * buf[i + 3]
}

/// Where each kernel attribute sits in the kernel attribute block: the kernel
/// binary start in bytes 68 to 71 and its length in 72 to 75, the application
/// memory start in 80 to 83 and its length in 84 to 87 (all little-endian),
/// the kernel version in byte 95 and the sentinel in bytes 96 to 99; the
/// attributes read elsewhere stay as they were.
pub proof fn lemma_kernel_attribute_offsets(m: SystemAttributesView, buf: Seq<u8>)
    requires
        buf.len() >= KERNEL_ATTRIBUTES_LEN,
    ensures
        ({
            let r = with_kernel_attributes(m, buf);
            &&& r.kernel_bin_start matches Some(v) && v == le_u32_at(buf, 68)
            &&& r.kernel_bin_len matches Some(v) && v == le_u32_at(buf, 72)
            &&& r.app_mem_start matches Some(v) && v == le_u32_at(buf, 80)
            &&& r.app_mem_len matches Some(v) && v == le_u32_at(buf, 84)
            &&& r.kernel_version matches Some(v) && v == buf[95]
            &&& r.sentinel == (if valid_utf8(buf.subrange(96, 100)) {
                Some(decode_utf8(buf.subrange(96, 100)))
            } else {
                None
            })
            &&& r.board == m.board
            &&& r.arch == m.arch
            &&& r.appaddr == m.appaddr
            &&& r.boothash == m.boothash
            &&& r.bootloader_version == m.bootloader_version
        }),
{
    let r = with_kernel_attributes(m, buf);
    assert(buf.subrange(68, 72)[0] == buf[68] && buf.subrange(68, 72)[1] == buf[69]
        && buf.subrange(68, 72)[2] == buf[70] && buf.subrange(68, 72)[3] == buf[71]);
    assert(buf.subrange(72, 76)[0] == buf[72] && buf.subrange(72, 76)[1] == buf[73]
        && buf.subrange(72, 76)[2] == buf[74] && buf.subrange(72, 76)[3] == buf[75]);
    assert(buf.subrange(80, 84)[0] == buf[80] && buf.subrange(80, 84)[1] == buf[81]
        && buf.subrange(80, 84)[2] == buf[82] && buf.subrange(80, 84)[3] == buf[83]);
    assert(buf.subrange(84, 88)[0] == buf[84] && buf.subrange(84, 88)[1] == buf[85]
        && buf.subrange(84, 88)[2] == buf[86] && buf.subrange(84, 88)[3] == buf[87]);
}

/// The sentinel of the kernel attribute block `buf` decodes.
pub open spec fn kernel_attributes_readable(buf: Seq<u8>) -> bool {
    &&& buf.len() >= KERNEL_ATTRIBUTES_LEN
    &&& valid_utf8(buf.subrange(96, 100))
}

/// Where the kernel attribute block starts for the application address
/// `appaddr`: 100 bytes before it, when there is one and it leaves room.
pub open spec fn kernel_attributes_address_of(appaddr: Option<u64>) -> Result<u64, AttributeError> {
    match appaddr {
        Some(a) => if a < KERNEL_ATTRIBUTES_LEN {
            Err(AttributeError::InvalidAppAddress)
        } else {
            Ok((a - KERNEL_ATTRIBUTES_LEN) as u64)
        },
        None => Err(AttributeError::MissingAttribute),
    }
}

impl SystemAttributes {
    /// No attribute known.
    pub fn new() -> (r: SystemAttributes)
        ensures
            r@ == empty_attributes(),
    {
        SystemAttributes {
            board: None,
            arch: None,
            appaddr: None,
            boothash: None,
            bootloader_version: None,
            sentinel: None,
            kernel_version: None,
            app_mem_start: None,
            app_mem_len: None,
            kernel_bin_start: None,
            kernel_bin_len: None,
        }
    }

    /// Reads the attribute area (sixteen 64-byte records read from
    /// [`ATTRIBUTES_ADDRESS`]).
    pub fn from_attribute_slots(buf: &[u8]) -> (r: Result<SystemAttributes, AttributeError>)
        requires
            buf.len() == ATTRIBUTES_LEN,
        ensures
            r matches Ok(a) ==> attributes_from_slots(buf@) == Ok::<_, AttributeError>(a@),
            r matches Err(e) ==> attributes_from_slots(buf@) == Err::<SystemAttributesView, _>(e),
    {
        let mut result = SystemAttributes::new();
        let mut current_slot: usize = 0;
        while current_slot < 16
            invariant
                buf.len() == ATTRIBUTES_LEN,
                current_slot <= 16,
                result.board.deep_view() == (if current_slot > 0 { slot_value(buf@, 0) } else { None }),
                result.arch.deep_view() == (if current_slot > 1 { slot_value(buf@, 1) } else { None }),
                result.boothash.deep_view() == (if current_slot > 3 { slot_value(buf@, 3) } else { None }),
                current_slot > 2 ==> (attributes_from_slots(buf@) matches Ok(m) && m.appaddr == result.appaddr),
                current_slot <= 2 ==> result.appaddr is None,
                result.bootloader_version is None,
                result.sentinel is None,
                result.kernel_version is None,
                result.app_mem_start is None,
                result.app_mem_len is None,
                result.kernel_bin_start is None,
                result.kernel_bin_len is None,
            decreases 16 - current_slot,
        {
            let start: usize = current_slot * 64;
            let slot_data = slice_subrange(buf, start, start + 64);
            assert(slot_data@ == slot(buf@, current_slot as int));
            if let Some(decoded) = decode_attribute(slot_data) {
                if current_slot == 0 {
                    result.board = Some(decoded.value);
                } else if current_slot == 1 {
                    result.arch = Some(decoded.value);
                } else if current_slot == 2 {
                    let chars = chars_of(&decoded.value);
                    match parse_hex_address(chars.as_slice()) {
                        Some(a) => {
                            result.appaddr = Some(a);
                        },
                        None => {
                            return Err(AttributeError::InvalidNumber);
                        },
                    }
                } else if current_slot == 3 {
                    result.boothash = Some(decoded.value);
                }
            }
            current_slot = current_slot + 1;
        }
        Ok(result)
    }

    /// Reads the kernel attribute block into `self`.
    pub fn apply_kernel_attributes(&mut self, buf: &[u8])
        requires
            kernel_attributes_readable(buf@),
        ensures
            final(self)@ == with_kernel_attributes(old(self)@, buf@),
            final(self).kernel_bin_start matches Some(v) && v == le_u32_at(buf@, 68),
            final(self).kernel_bin_len matches Some(v) && v == le_u32_at(buf@, 72),
            final(self).app_mem_start matches Some(v) && v == le_u32_at(buf@, 80),
            final(self).app_mem_len matches Some(v) && v == le_u32_at(buf@, 84),
            final(self).kernel_version matches Some(v) && v == buf@[95],
    {
        proof {
            lemma_kernel_attribute_offsets(old(self)@, buf@);
        }
        let sentinel = bytes_to_string(slice_subrange(buf, 96, 100));
        let kernel_version: u64 = read_uint_le(slice_subrange(buf, 95, 96), 1);
        proof {
            let one = buf@.subrange(95, 96);
            assert(one.take(1) =~= one);
            assert(one.drop_first() =~= Seq::<u8>::empty());
            assert(le_uint(one.drop_first()) == 0);
            assert(le_uint(one) == buf@[95]);
        }
        let app_memory_len: u32 = read_u32_le(slice_subrange(buf, 84, 92));
        assert(le_u32(buf@.subrange(84, 92)) == le_u32(buf@.subrange(84, 88)));
        let app_memory_start: u32 = read_u32_le(slice_subrange(buf, 80, 84));
        let kernel_binary_start: u32 = read_u32_le(slice_subrange(buf, 68, 72));
        let kernel_binary_len: u32 = read_u32_le(slice_subrange(buf, 72, 76));
        self.sentinel = Some(sentinel);
        self.kernel_version = Some(kernel_version);
        self.app_mem_start = Some(app_memory_start);
        self.app_mem_len = Some(app_memory_len);
        self.kernel_bin_start = Some(kernel_binary_start);
        self.kernel_bin_len = Some(kernel_binary_len);
    }

    /// Reads the kernel attribute block into `self` when its sentinel decodes;
    /// otherwise leaves `self` as it is and returns `false`.
    pub fn try_apply_kernel_attributes(&mut self, buf: &[u8]) -> (applied: bool)
        requires
            buf.len() >= KERNEL_ATTRIBUTES_LEN,
        ensures
            applied == kernel_attributes_readable(buf@),
            applied ==> final(self)@ == with_kernel_attributes(old(self)@, buf@),
            !applied ==> final(self)@ == old(self)@,
    {
        match try_bytes_to_string(slice_subrange(buf, 96, 100)) {
            Some(_) => {
                self.apply_kernel_attributes(buf);
                true
            },
            None => false,
        }
    }

    /// Where the kernel attribute block starts: the 100 bytes before the
    /// application address. An application address below 100 leaves no room
    /// for the block and is not valid.
    pub fn kernel_attributes_address(&self) -> (r: Result<u64, AttributeError>)
        ensures
            r == kernel_attributes_address_of(self.appaddr),
    {
        match self.appaddr {
            Some(a) => if a < KERNEL_ATTRIBUTES_LEN as u64 {
                Err(AttributeError::InvalidAppAddress)
            } else {
                Ok(a - KERNEL_ATTRIBUTES_LEN as u64)
            },
            None => Err(AttributeError::MissingAttribute),
        }
    }
}

/// The characters of `s`.
fn chars_of(s: &String) -> (r: Vec<char>)
    ensures
        r@ == s@,
{
    let mut r: Vec<char> = Vec::new();
    for c in it: s.as_str().chars()
        invariant
            r@ == it.seq().take(it.index() as int),
    {
        r.push(c);
    }
    r
}

/// Reads the bootloader version (8 bytes read from
/// [`BOOTLOADER_VERSION_ADDRESS`]): UTF-8 without NULs at either end.
pub fn parse_bootloader_version(buf: Vec<u8>) -> (r: Result<String, AttributeError>)
    ensures
        r matches Ok(s) ==> bootloader_version_of(buf@) == Some(s@),
        r is Err <==> bootloader_version_of(buf@) is None,
        r matches Err(e) ==> e == AttributeError::InvalidString,
        r matches Ok(s) ==> s@.len() == 0 || (s@[0] != '\0' && s@.last() != '\0'),
{
    proof {
        if bootloader_version_of(buf@) is Some {
            lemma_bootloader_version_has_no_nul_ends(buf@);
        }
    }
    match string_from_utf8(buf) {
        Some(s) => Ok(string_from_chars(trim_nul_chars(chars_of(&s).as_slice()).as_slice())),
        None => Err(AttributeError::InvalidString),
    }
}


/// Which read a [`SystemAttributesReader`] waits for.
#[derive(Debug, Clone, Copy, PartialEq, Eq, Structural)]
pub enum SystemReadStage {
    /// The attribute area, [`ATTRIBUTES_LEN`] bytes at [`ATTRIBUTES_ADDRESS`].
    AttributeSlots,
    /// The bootloader version, [`BOOTLOADER_VERSION_LEN`] bytes at
    /// [`BOOTLOADER_VERSION_ADDRESS`].
    BootloaderVersion,
    /// The kernel attribute block, [`KERNEL_ATTRIBUTES_LEN`] bytes before the
    /// application address.
    KernelAttributes,
    /// Nothing more: the attributes are complete, or reading failed.
    Finished,
}

/// What the driver of a [`SystemAttributesReader`] does next.
#[derive(Debug, Clone, Copy, PartialEq, Eq, Structural)]
pub enum SystemReadAction {
    /// Read `len` bytes of flash at `address` and hand them to `step`.
    Read { address: u64, len: usize },
    /// The attributes are complete.
    Done,
    /// Reading stops with this error.
    Failed(AttributeError),
}

/// Reads the system attributes of a board as a sequence of flash reads: the
/// decisions are made here, the reads by the caller.
pub struct SystemAttributesReader {
    pub stage: SystemReadStage,
    pub attributes: SystemAttributes,
}

/// The state of a [`SystemAttributesReader`].
pub ghost struct SystemReaderView {
    pub stage: SystemReadStage,
    pub attributes: SystemAttributesView,
}

impl View for SystemAttributesReader {
    type V = SystemReaderView;

    open spec fn view(&self) -> SystemReaderView {
        SystemReaderView { stage: self.stage, attributes: self.attributes@ }
    }
}

/// How many bytes the read that `stage` waits for returns.
pub open spec fn stage_read_len(stage: SystemReadStage) -> int {
    match stage {
        SystemReadStage::AttributeSlots => ATTRIBUTES_LEN as int,
        SystemReadStage::BootloaderVersion => BOOTLOADER_VERSION_LEN as int,
        SystemReadStage::KernelAttributes => KERNEL_ATTRIBUTES_LEN as int,
        SystemReadStage::Finished => 0,
    }
}

/// The reader in state `s` takes the bytes `data` of the read it waits for:
/// its next state and what it asks for next.
pub open spec fn reader_step(s: SystemReaderView, data: Seq<u8>) -> (SystemReaderView, SystemReadAction) {
    let finished = SystemReaderView { stage: SystemReadStage::Finished, ..s };
    match s.stage {
        SystemReadStage::AttributeSlots => match attributes_from_slots(data) {
            Ok(m) => (
                SystemReaderView { stage: SystemReadStage::BootloaderVersion, attributes: m },
                SystemReadAction::Read {
                    address: BOOTLOADER_VERSION_ADDRESS,
                    len: BOOTLOADER_VERSION_LEN,
                },
            ),
            Err(e) => (finished, SystemReadAction::Failed(e)),
        },
        SystemReadStage::BootloaderVersion => match bootloader_version_of(data) {
            None => (finished, SystemReadAction::Failed(AttributeError::InvalidString)),
            Some(v) => {
                let m = SystemAttributesView { bootloader_version: Some(v), ..s.attributes };
                match kernel_attributes_address_of(m.appaddr) {
                    Err(e) => (
                        SystemReaderView { stage: SystemReadStage::Finished, attributes: m },
                        SystemReadAction::Failed(e),
                    ),
                    Ok(address) => (
                        SystemReaderView { stage: SystemReadStage::KernelAttributes, attributes: m },
                        SystemReadAction::Read { address, len: KERNEL_ATTRIBUTES_LEN },
                    ),
                }
            },
        },
        SystemReadStage::KernelAttributes => if kernel_attributes_readable(data) {
            (
                SystemReaderView {
                    stage: SystemReadStage::Finished,
                    attributes: with_kernel_attributes(s.attributes, data),
                },
                SystemReadAction::Done,
            )
        } else {
            (finished, SystemReadAction::Failed(AttributeError::InvalidSentinel))
        },
        SystemReadStage::Finished => (s, SystemReadAction::Done),
    }
}

impl SystemAttributesReader {
    /// A reader that has read nothing yet, and the read it asks for first.
    pub fn new() -> (r: (SystemAttributesReader, SystemReadAction))
        ensures
            r.0@ == (SystemReaderView {
                stage: SystemReadStage::AttributeSlots,
                attributes: empty_attributes(),
            }),
            r.1 == (SystemReadAction::Read { address: ATTRIBUTES_ADDRESS, len: ATTRIBUTES_LEN }),
    {
        (
            SystemAttributesReader {
                stage: SystemReadStage::AttributeSlots,
                attributes: SystemAttributes::new(),
            },
            SystemReadAction::Read { address: ATTRIBUTES_ADDRESS, len: ATTRIBUTES_LEN },
        )
    }

    /// Takes the bytes of the read that the reader asked for and decides what
    /// comes next. An application address below 100 stops the reading with
    /// [`AttributeError::InvalidAppAddress`] once the bootloader version is
    /// read; a kernel attribute block whose sentinel is not UTF-8 stops it with
    /// [`AttributeError::InvalidSentinel`].
    pub fn step(&mut self, data: &[u8]) -> (action: SystemReadAction)
        requires
            old(self).stage != SystemReadStage::Finished,
            data.len() == stage_read_len(old(self).stage),
        ensures
            (final(self)@, action) == reader_step(old(self)@, data@),
    {
        match self.stage {
            SystemReadStage::AttributeSlots => match SystemAttributes::from_attribute_slots(data) {
                Ok(attributes) => {
                    self.attributes = attributes;
                    self.stage = SystemReadStage::BootloaderVersion;
                    SystemReadAction::Read {
                        address: BOOTLOADER_VERSION_ADDRESS,
                        len: BOOTLOADER_VERSION_LEN,
                    }
                },
                Err(e) => {
                    self.stage = SystemReadStage::Finished;
                    SystemReadAction::Failed(e)
                },
            },
            SystemReadStage::BootloaderVersion => {
                let mut bytes: Vec<u8> = Vec::new();
                let mut i: usize = 0;
                while i < data.len()
                    invariant
                        i <= data.len(),
                        bytes@ =~= data@.take(i as int),
                    decreases data.len() - i,
                {
                    bytes.push(data[i]);
                    i = i + 1;
                }
                assert(bytes@ =~= data@);
                match parse_bootloader_version(bytes) {
                    Err(e) => {
                        self.stage = SystemReadStage::Finished;
                        SystemReadAction::Failed(e)
                    },
                    Ok(version) => {
                        self.attributes.bootloader_version = Some(version);
                        match self.attributes.kernel_attributes_address() {
                            Ok(address) => {
                                self.stage = SystemReadStage::KernelAttributes;
                                SystemReadAction::Read { address, len: KERNEL_ATTRIBUTES_LEN }
                            },
                            Err(e) => {
                                self.stage = SystemReadStage::Finished;
                                SystemReadAction::Failed(e)
                            },
                        }
                    },
                }
            },
            SystemReadStage::KernelAttributes => {
                self.stage = SystemReadStage::Finished;
                if self.attributes.try_apply_kernel_attributes(data) {
                    SystemReadAction::Done
                } else {
                    SystemReadAction::Failed(AttributeError::InvalidSentinel)
                }
            },
            SystemReadStage::Finished => SystemReadAction::Done,
        }
    }
}


impl SystemReaderView {
    /// Once the kernel attributes are asked for, the application address and
    /// the bootloader version are known.
    pub open spec fn wf(self) -> bool {
        self.stage == SystemReadStage::KernelAttributes ==> {
            &&& self.attributes.appaddr matches Some(a) && a >= KERNEL_ATTRIBUTES_LEN
            &&& self.attributes.bootloader_version is Some
        }
    }
}

/// A reader that reports [`SystemReadAction::Done`] has every attribute that
/// the bootloader and the kernel attribute block always provide: the
/// application address, the bootloader version, the sentinel, the kernel
/// version and the application memory and kernel binary ranges. Each step
/// keeps [`SystemReaderView::wf`].
pub proof fn lemma_reader_done_is_complete(s: SystemReaderView, data: Seq<u8>)
    requires
        s.wf(),
        s.stage != SystemReadStage::Finished,
    ensures
        reader_step(s, data).0.wf(),
        reader_step(s, data).1 == SystemReadAction::Done ==> {
            let m = reader_step(s, data).0.attributes;
            &&& reader_step(s, data).0.stage == SystemReadStage::Finished
            &&& m.appaddr is Some
            &&& m.bootloader_version is Some
            &&& m.sentinel is Some
            &&& m.kernel_version is Some
            &&& m.app_mem_start is Some
            &&& m.app_mem_len is Some
            &&& m.kernel_bin_start is Some
            &&& m.kernel_bin_len is Some
        },
{
}

/// The read of the attribute area keeps all that the area decodes to: when it
/// decodes, the reader's attributes are then exactly those of the area (board
/// name, architecture, application address and boot hash), whatever it held
/// before, and it asks for the bootloader version next.
pub proof fn lemma_reader_takes_attribute_area(s: SystemReaderView, area: Seq<u8>)
    requires
        s.stage == SystemReadStage::AttributeSlots,
        attributes_from_slots(area) is Ok,
    ensures
        reader_step(s, area).0.attributes == attributes_from_slots(area)->Ok_0,
        reader_step(s, area).0.attributes.boothash == slot_value(area, 3),
        reader_step(s, area).0.stage == SystemReadStage::BootloaderVersion,
{
}

/// A complete read of a board: from a reader that has read nothing, the
/// attribute area `area`, then the bootloader version `version`, then the
/// kernel attribute block `kernel`. When the reader ends in
/// [`SystemReadAction::Done`], it reports the board name, architecture and
/// boot hash of records 0, 1 and 3 as they decode, the application address
/// that record 2 spells in base 16, the bootloader version, and the kernel
/// attributes at their fixed offsets in the block.
pub proof fn lemma_reader_reports_every_attribute(area: Seq<u8>, version: Seq<u8>, kernel: Seq<u8>)
    ensures
        ({
            let s0 = SystemReaderView {
                stage: SystemReadStage::AttributeSlots,
                attributes: empty_attributes(),
            };
            let (s1, a1) = reader_step(s0, area);
            let (s2, a2) = reader_step(s1, version);
            let (s3, a3) = reader_step(s2, kernel);
            (a1 is Read && a2 is Read && a3 == SystemReadAction::Done) ==> {
                let m = s3.attributes;
                &&& m.board == slot_value(area, 0)
                &&& m.arch == slot_value(area, 1)
                &&& m.boothash == slot_value(area, 3)
                &&& slot_value(area, 2) matches Some(v) && hex_address(v) == m.appaddr
                &&& m.bootloader_version == bootloader_version_of(version)
                &&& m.kernel_bin_start matches Some(v) && v == le_u32_at(kernel, 68)
                &&& m.kernel_bin_len matches Some(v) && v == le_u32_at(kernel, 72)
                &&& m.app_mem_start matches Some(v) && v == le_u32_at(kernel, 80)
                &&& m.app_mem_len matches Some(v) && v == le_u32_at(kernel, 84)
                &&& m.kernel_version matches Some(v) && v == kernel[95]
                &&& m.sentinel == Some(decode_utf8(kernel.subrange(96, 100)))
            }
        }),
{
    let s0 = SystemReaderView { stage: SystemReadStage::AttributeSlots, attributes: empty_attributes() };
    let (s1, a1) = reader_step(s0, area);
    let (s2, a2) = reader_step(s1, version);
    let (s3, a3) = reader_step(s2, kernel);
    if a1 is Read && a2 is Read && a3 == SystemReadAction::Done {
        assert(attributes_from_slots(area) is Ok);
        assert(s2.stage == SystemReadStage::KernelAttributes);
        assert(kernel_attributes_readable(kernel));
        lemma_kernel_attribute_offsets(s2.attributes, kernel);
    }
}


/// A bootloader version carries no NUL at either end.
pub proof fn lemma_bootloader_version_has_no_nul_ends(buf: Seq<u8>)
    requires
        bootloader_version_of(buf) is Some,
    ensures
        ({
            let v = bootloader_version_of(buf)->0;
            v.len() == 0 || (v[0] != '\0' && v.last() != '\0')
        }),
{
    let d = decode_utf8(buf);
    let e = trim_end_nul(d);
    lemma_trim_end_nul(d);
    lemma_trim_start_nul(e);
    let v = trim_start_nul(e);
    if v.len() > 0 {
        assert(v.last() == e.last());
    }
}

} // verus!
