//! Booting an Android boot image.
use std::io::Cursor;

use abootimg_oxide::{Header, HeaderV0Versioned};

use vstd::arithmetic::div_mod::*;
use vstd::prelude::*;
use vstd::string::*;
use vstd::utf8::*;

use crate::bytes::{c_bytes, has_prefix, lemma_next_byte, next_byte, push_bytes, until_zero, utf8};
use crate::errors::ErrorKind;
use crate::kexec::{gunzip_members, multi_gunzip};
use crate::text::{
    cat, chars, decimal, decode, from_chars, is_space, owned, push_decimal, trim_end,
    trim_end_chars, utf8_error_text, utf8_fault,
};

verus! {

/// What follows the common part of a header of version 0, 1 or 2: the size of the recovery image,
/// and the size of the device tree. Some vendors have a list of device trees in a section of its
/// own in place of it: its position and its size.
#[derive(Clone, Copy, Debug, PartialEq, Eq, Structural)]
pub enum HeaderTail {
    V0,
    V1(u32),
    V2(u32, u32),
    VendorDt(u64, u32),
}

/// What the header of a boot image tells of the versions up to 2: the size of the second loader,
/// the size of a page, and what follows. Versions 3 and 4 have none of it.
#[derive(Clone, Copy, Debug, PartialEq, Eq, Structural)]
pub enum HeaderKind {
    Old { second_size: u32, page_size: u32, tail: HeaderTail },
    New,
}

/// The header of a boot image.
#[derive(Debug)]
pub struct BootHeader {
    pub kernel_size: u32,
    pub ramdisk_size: u32,
    pub kind: HeaderKind,
    pub cmdline: Vec<u8>,
}

/// The header of a boot image, as plain values.
pub struct HeaderView {
    pub kernel_size: u32,
    pub ramdisk_size: u32,
    pub kind: HeaderKind,
    pub cmdline: Seq<u8>,
}

impl View for BootHeader {
    type V = HeaderView;

    open spec fn view(&self) -> HeaderView {
        HeaderView {
            kernel_size: self.kernel_size,
            ramdisk_size: self.ramdisk_size,
            kind: self.kind,
            cmdline: self.cmdline@,
        }
    }
}

/// Where the list of device trees stands, and its size, where the header has one.
pub open spec fn vendor_list(kind: HeaderKind) -> Option<(u64, u32)> {
    match kind {
        HeaderKind::Old { tail: HeaderTail::VendorDt(position, size), .. } => Some(
            (position, size),
        ),
        _ => None,
    }
}

/// The header that `abootimg_oxide::Header::parse` reads at the start of an image, if it is sound.
pub uninterp spec fn boot_header(image: Seq<u8>) -> Option<HeaderView>;

/// Reads the header of an image with `abootimg_oxide::Header::parse`, and hands its fields out, or
/// the parser's words on what is wrong. Nothing is claimed of the words: they name files of the
/// parser's sources by the paths that they were built from. The parser knows no headers with a
/// list of device trees in a section of its own.
#[verifier::external_body]
fn parse_header(image: &[u8]) -> (r: Result<BootHeader, String>)
    ensures
        boot_header(image@) == (match r {
            Ok(header) => Some(header@),
            Err(_) => None,
        }),
        r matches Ok(header) ==> vendor_list(header.kind) is None,
{
    let header = Header::parse(&mut Cursor::new(image)).map_err(|err| err.to_string())?;
    let (kernel_size, ramdisk_size) = (header.kernel_size(), header.ramdisk_size());
    let cmdline = header.cmdline().to_vec();
    let kind = match header {
        Header::V0(h) => HeaderKind::Old { second_size: h.second_bootloader_size, page_size: h.page_size,
            tail: match h.versioned {
                HeaderV0Versioned::V0 => HeaderTail::V0,
                HeaderV0Versioned::V1 { recovery_dtbo_size, .. } => HeaderTail::V1(recovery_dtbo_size),
                HeaderV0Versioned::V2 { recovery_dtbo_size, dtb_size, .. } => HeaderTail::V2(recovery_dtbo_size, dtb_size),
            },
        },
        Header::V3(_) => HeaderKind::New,
    };
    Ok(BootHeader { kernel_size, ramdisk_size, kind, cmdline })
}

/// What is wrong with a boot image.
#[derive(Clone, Copy, Debug, PartialEq, Eq, Structural)]
pub enum BootFault {
    /// The header is not sound.
    Parse,
    /// The header has pages of no size.
    PageSize,
    NoKernel,
    /// The command line is no text.
    Cmdline,
    KernelTruncated,
    /// The kernel is gzip that does not decompress, with the kind of the decompressor's error.
    Gzip(ErrorKind),
    RamdiskTruncated,
    DtbTruncated,
    VendorDtTruncated,
    /// The list of device trees gives none.
    VendorDt,
}

/// What is wrong with a boot image, with the words of the parser or the decompressor, or those on
/// the list of device trees.
#[derive(Debug)]
pub struct BootError {
    pub fault: BootFault,
    pub detail: String,
}

impl View for BootError {
    type V = (BootFault, Seq<char>);

    open spec fn view(&self) -> (BootFault, Seq<char>) {
        (self.fault, self.detail@)
    }
}

impl BootError {
    /// The error in words.
    pub open spec fn words(&self) -> Seq<char> {
        match self.fault {
            BootFault::Parse => "parse Android boot image: "@ + self.detail@,
            BootFault::PageSize => "boot image has pages of no size"@,
            BootFault::NoKernel => "boot image has no kernel"@,
            BootFault::Cmdline => "boot image cmdline is not UTF-8: "@ + self.detail@,
            BootFault::KernelTruncated => "boot image boot-kernel section is truncated"@,
            BootFault::Gzip(_) => "decompress gzip boot kernel section: "@ + self.detail@,
            BootFault::RamdiskTruncated => "boot image boot-ramdisk section is truncated"@,
            BootFault::DtbTruncated => "boot image boot-dtb section is truncated"@,
            BootFault::VendorDtTruncated => self.detail@,
            BootFault::VendorDt => self.detail@,
        }
    }

    /// The error in words.
    pub fn message(&self) -> (s: String)
        ensures
            s@ == self.words(),
    {
        match self.fault {
            BootFault::Parse => cat("parse Android boot image: ", self.detail.as_str()),
            BootFault::PageSize => owned("boot image has pages of no size"),
            BootFault::NoKernel => owned("boot image has no kernel"),
            BootFault::Cmdline => cat("boot image cmdline is not UTF-8: ", self.detail.as_str()),
            BootFault::KernelTruncated => owned("boot image boot-kernel section is truncated"),
            BootFault::Gzip(_) => cat(
                "decompress gzip boot kernel section: ",
                self.detail.as_str(),
            ),
            BootFault::RamdiskTruncated => owned("boot image boot-ramdisk section is truncated"),
            BootFault::DtbTruncated => owned("boot image boot-dtb section is truncated"),
            BootFault::VendorDtTruncated => owned(self.detail.as_str()),
            BootFault::VendorDt => owned(self.detail.as_str()),
        }
    }

    /// The kind of the error: a section that is cut short ends too early, gzip data that does not
    /// decompress is what the decompressor calls it, and all else is bad data.
    pub open spec fn spec_kind(&self) -> ErrorKind {
        match self.fault {
            BootFault::KernelTruncated => ErrorKind::UnexpectedEof,
            BootFault::RamdiskTruncated => ErrorKind::UnexpectedEof,
            BootFault::DtbTruncated => ErrorKind::UnexpectedEof,
            BootFault::VendorDtTruncated => ErrorKind::UnexpectedEof,
            BootFault::Gzip(kind) => kind,
            _ => ErrorKind::InvalidData,
        }
    }

    /// The kind of the error.
    pub fn kind(&self) -> (k: ErrorKind)
        ensures
            k == self.spec_kind(),
    {
        match self.fault {
            BootFault::KernelTruncated => ErrorKind::UnexpectedEof,
            BootFault::RamdiskTruncated => ErrorKind::UnexpectedEof,
            BootFault::DtbTruncated => ErrorKind::UnexpectedEof,
            BootFault::VendorDtTruncated => ErrorKind::UnexpectedEof,
            BootFault::Gzip(kind) => kind,
            _ => ErrorKind::InvalidData,
        }
    }
}

fn plain(fault: BootFault) -> (e: BootError)
    ensures
        e@ == (fault, Seq::<char>::empty()),
{
    BootError { fault, detail: String::new() }
}

/// The length of a page.
pub open spec fn page(kind: HeaderKind) -> int {
    match kind {
        HeaderKind::Old { page_size, .. } => page_size as int,
        HeaderKind::New => 4096,
    }
}

/// `size` filled up to whole pages.
pub open spec fn paged(size: int, page: int) -> int {
    size + (page - size % page) % page
}

/// Where the kernel stands: behind the header, whose length is 1660 up to version 2.
pub open spec fn kernel_position(h: HeaderView) -> int {
    match h.kind {
        HeaderKind::Old { .. } => paged(1660, page(h.kind)),
        HeaderKind::New => 4096,
    }
}

/// Where the ramdisk stands: behind the kernel.
pub open spec fn ramdisk_position(h: HeaderView) -> int {
    kernel_position(h) + paged(h.kernel_size as int, page(h.kind))
}

/// Where the device tree stands, and its size, where the header has one: in version 2, behind the
/// ramdisk and the recovery image.
pub open spec fn boot_dtb(h: HeaderView) -> Option<(int, u32)> {
    match h.kind {
        HeaderKind::Old { tail: HeaderTail::V2(recovery, dtb), .. } => Some(
            (
                ramdisk_position(h) + paged(h.ramdisk_size as int, page(h.kind)) + paged(
                    recovery as int,
                    page(h.kind),
                ),
                dtb,
            ),
        ),
        _ => None,
    }
}

fn in_pages(size: u64, page: u64) -> (r: u64)
    requires
        0 < page <= u32::MAX,
        size <= u32::MAX,
    ensures
        r == paged(size as int, page as int),
        r < 0x2_0000_0000,
{
    proof {
        lemma_mod_bound(size as int, page as int);
        lemma_mod_bound(page - size as int % page as int, page as int);
    }
    size + (page - size % page) % page
}

impl BootHeader {
    /// Whether the pages have a size.
    pub open spec fn sound(&self) -> bool {
        page(self.kind) > 0
    }

    fn page_size(&self) -> (r: u64)
        ensures
            r == page(self.kind),
            r <= u32::MAX,
    {
        match self.kind {
            HeaderKind::Old { page_size, .. } => page_size as u64,
            HeaderKind::New => 4096,
        }
    }

    /// Where the kernel stands.
    pub fn kernel_position(&self) -> (r: u64)
        requires
            self.sound(),
        ensures
            r == kernel_position(self@),
            r < 0x2_0000_0000,
    {
        match self.kind {
            HeaderKind::Old { .. } => in_pages(1660, self.page_size()),
            HeaderKind::New => 4096,
        }
    }

    /// Where the ramdisk stands.
    pub fn ramdisk_position(&self) -> (r: u64)
        requires
            self.sound(),
        ensures
            r == ramdisk_position(self@),
            r < 0x4_0000_0000,
    {
        self.kernel_position() + in_pages(self.kernel_size as u64, self.page_size())
    }

    /// Where the list of device trees stands, and its size, where the header has one.
    pub fn vendor_dt_section(&self) -> (r: Option<(u64, u32)>)
        ensures
            r == vendor_list(self.kind),
    {
        match self.kind {
            HeaderKind::Old { tail, .. } => match tail {
                HeaderTail::VendorDt(position, size) => Some((position, size)),
                _ => None,
            },
            HeaderKind::New => None,
        }
    }

    /// Where the device tree stands, and its size, where the header has one.
    pub fn boot_dtb_section(&self) -> (r: Option<(u64, u32)>)
        requires
            self.sound(),
        ensures
            boot_dtb(self@) == (match r {
                Some((position, size)) => Some((position as int, size)),
                None => None,
            }),
            r matches Some((position, _)) ==> position < 0x8_0000_0000,
    {
        match self.kind {
            HeaderKind::Old { tail, .. } => match tail {
                HeaderTail::V2(recovery, dtb) => Some(
                    (
                        self.ramdisk_position() + in_pages(
                            self.ramdisk_size as u64,
                            self.page_size(),
                        ) + in_pages(recovery as u64, self.page_size()),
                        dtb,
                    ),
                ),
                _ => None,
            },
            HeaderKind::New => None,
        }
    }
}

/// A section of an image, if the image has all of it.
pub open spec fn section(image: Seq<u8>, position: int, size: int) -> Option<Seq<u8>> {
    if position + size <= image.len() {
        Some(image.subrange(position, position + size))
    } else {
        None
    }
}

/// A section of an image, if the image has all of it.
pub fn extract_section(image: &[u8], position: u64, size: u32) -> (r: Option<Vec<u8>>)
    ensures
        section(image@, position as int, size as int) == (match r {
            Some(data) => Some(data@),
            None => None,
        }),
{
    if position > image.len() as u64 || size as u64 > image.len() as u64 - position {
        return None;
    }
    let start = position as usize;
    let end = start + size as usize;
    let mut data: Vec<u8> = Vec::new();
    push_bytes(&mut data, &image[start..end]);
    assert(data@ =~= image@.subrange(start as int, end as int));
    Some(data)
}

/// The command line of an image: what stands before the first zero, without white space at its
/// end.
pub open spec fn image_cmdline(bytes: Seq<u8>) -> Result<Seq<char>, (BootFault, Seq<char>)> {
    if valid_utf8(c_bytes(bytes)) {
        Ok(trim_end(decode_utf8(c_bytes(bytes))))
    } else {
        Err((BootFault::Cmdline, utf8_error_text(c_bytes(bytes))))
    }
}

/// The command line of an image.
pub fn android_cmdline(bytes: &[u8]) -> (r: Result<String, BootError>)
    ensures
        image_cmdline(bytes@) == (match r {
            Ok(text) => Ok(text@),
            Err(e) => Err(e@),
        }),
{
    let told = until_zero(bytes);
    match decode(told) {
        None => Err(BootError { fault: BootFault::Cmdline, detail: utf8_fault(told) }),
        Some(text) => {
            let v = chars(text.as_str());
            Ok(from_chars(trim_end_chars(&v)))
        },
    }
}

/// Whether bytes start as gzip does.
pub open spec fn gzip_start(data: Seq<u8>) -> bool {
    data.len() >= 2 && data[0] == 0x1f && data[1] == 0x8b
}

/// Whether bytes start as gzip does.
pub fn is_gzip_payload(data: &[u8]) -> (r: bool)
    ensures
        r == gzip_start(data@),
{
    data.len() >= 2 && data[0] == 0x1f && data[1] == 0x8b
}

/// The kernel of an image: decompressed, where it is gzip.
pub open spec fn kernel_payload(kernel: Seq<u8>) -> Result<Seq<u8>, (BootFault, Seq<char>)> {
    if gzip_start(kernel) {
        match gunzip_members(kernel) {
            Ok(data) => Ok(data),
            Err((kind, words)) => Err((BootFault::Gzip(kind), words)),
        }
    } else {
        Ok(kernel)
    }
}

/// What comes of a gzip kernel, by what the decompressor gave for it.
pub fn accept_kernel(data: Result<Vec<u8>, (ErrorKind, String)>) -> (r: Result<
    Vec<u8>,
    BootError,
>)
    ensures
        match data {
            Ok(kernel) => r matches Ok(payload) && payload@ == kernel@,
            Err((kind, text)) => r matches Err(e) && e@ == (BootFault::Gzip(kind), text@),
        },
{
    match data {
        Ok(kernel) => Ok(kernel),
        Err((kind, detail)) => Err(BootError { fault: BootFault::Gzip(kind), detail }),
    }
}

/// The kernel of an image: decompressed, where it is gzip.
pub fn prepare_kernel_payload(kernel: Vec<u8>) -> (r: Result<Vec<u8>, BootError>)
    ensures
        kernel_payload(kernel@) == (match r {
            Ok(payload) => Ok(payload@),
            Err(e) => Err(e@),
        }),
{
    if is_gzip_payload(&kernel) {
        accept_kernel(multi_gunzip(&kernel))
    } else {
        Ok(kernel)
    }
}

/// The parts of a boot image.
#[derive(Debug)]
pub struct BootImage {
    pub kernel: Vec<u8>,
    pub initrd: Option<Vec<u8>>,
    pub dtb: Option<Vec<u8>>,
    pub cmdline: String,
}

/// The parts of a boot image, as plain values.
pub struct BootParts {
    pub kernel: Seq<u8>,
    pub initrd: Option<Seq<u8>>,
    pub dtb: Option<Seq<u8>>,
    pub cmdline: Seq<char>,
}

/// Bytes as plain values.
pub open spec fn bytes_told(data: Option<Vec<u8>>) -> Option<Seq<u8>> {
    match data {
        Some(data) => Some(data@),
        None => None,
    }
}

impl View for BootImage {
    type V = BootParts;

    open spec fn view(&self) -> BootParts {
        BootParts {
            kernel: self.kernel@,
            initrd: bytes_told(self.initrd),
            dtb: bytes_told(self.dtb),
            cmdline: self.cmdline@,
        }
    }
}

/// The two forms of a list of device trees.
#[derive(Clone, Copy, Debug, PartialEq, Eq, Structural)]
pub enum VendorDtKind {
    Qcdt,
    Dtbh,
}

impl VendorDtKind {
    /// The four letters that the list starts with.
    pub open spec fn letters(self) -> Seq<char> {
        match self {
            VendorDtKind::Qcdt => "QCDT"@,
            VendorDtKind::Dtbh => "DTBH"@,
        }
    }

    /// The four letters that the list starts with.
    pub fn name(self) -> (s: &'static str)
        ensures
            s@ == self.letters(),
    {
        match self {
            VendorDtKind::Qcdt => "QCDT",
            VendorDtKind::Dtbh => "DTBH",
        }
    }
}

/// What the parser of a list of device trees gives: its words on what is wrong with the list, or
/// on why no tree can be chosen, or where the one tree stands in the list.
#[derive(Debug)]
pub enum VendorDtEntry {
    ParseFailed(String),
    SelectFailed(String),
    Range(usize, usize),
}

impl VendorDtEntry {
    /// Whether the tree stands inside a list of the given size.
    pub open spec fn fits(&self, size: u32) -> bool {
        self matches VendorDtEntry::Range(start, end) ==> *start <= *end <= size
    }
}

/// The form of a list of device trees.
pub open spec fn list_kind(list: Seq<u8>) -> Option<VendorDtKind> {
    if utf8("QCDT"@).is_prefix_of(list) {
        Some(VendorDtKind::Qcdt)
    } else if utf8("DTBH"@).is_prefix_of(list) {
        Some(VendorDtKind::Dtbh)
    } else {
        None
    }
}

/// The form of a list of device trees.
pub fn vendor_dt_kind(list: &[u8]) -> (r: Option<VendorDtKind>)
    ensures
        r == list_kind(list@),
{
    if has_prefix(list, "QCDT".as_bytes()) {
        Some(VendorDtKind::Qcdt)
    } else if has_prefix(list, "DTBH".as_bytes()) {
        Some(VendorDtKind::Dtbh)
    } else {
        None
    }
}

/// Numbers as the `Debug` formatting of a list writes them.
pub open spec fn number_list(data: Seq<u8>, n: int) -> Seq<char>
    decreases n,
{
    if n <= 0 {
        Seq::empty()
    } else if n == 1 {
        decimal(data[0] as int)
    } else {
        number_list(data, n - 1) + ", "@ + decimal(data[n - 1] as int)
    }
}

fn number_list_text(data: &[u8]) -> (s: String)
    ensures
        s@ == "["@ + number_list(data@, data@.len() as int) + "]"@,
{
    let mut s = String::new();
    let mut i: usize = 0;
    while i < data.len()
        invariant
            i <= data@.len(),
            s@ == number_list(data@, i as int),
        decreases data@.len() - i,
    {
        if i > 0 {
            s.append(", ");
        }
        push_decimal(&mut s, data[i] as u64);
        i += 1;
        assert(s@ =~= number_list(data@, i as int));
    }
    let mut whole = cat("[", s.as_str());
    whole.append("]");
    whole
}

/// The device tree of an image with a list of device trees in a section of its own, by what the
/// parser of such lists gave for it, or why there is none.
pub open spec fn vendor_dtb(image: Seq<u8>, position: int, size: int, entry: VendorDtEntry) ->
    Result<Seq<u8>, (BootFault, Seq<char>)> {
    match section(image, position, size) {
        None => Err(
            (
                BootFault::VendorDtTruncated,
                "boot image vendor-dt section is truncated: failed to fill whole buffer"@,
            ),
        ),
        Some(list) => match list_kind(list) {
            None => {
                let n = if list.len() < 4 {
                    list.len() as int
                } else {
                    4
                };
                Err(
                    (
                        BootFault::VendorDt,
                        "unsupported boot image vendor-dt magic: "@ + ("["@ + number_list(
                            list.take(n),
                            n,
                        ) + "]"@),
                    ),
                )
            },
            Some(kind) => match entry {
                VendorDtEntry::ParseFailed(text) => Err(
                    (
                        BootFault::VendorDt,
                        "parse boot image "@ + kind.letters() + " vendor-dt: "@ + text@,
                    ),
                ),
                VendorDtEntry::SelectFailed(text) => Err(
                    (
                        BootFault::VendorDt,
                        "select boot image "@ + kind.letters() + " vendor-dt entry: "@ + text@,
                    ),
                ),
                VendorDtEntry::Range(start, end) => Ok(list.subrange(start as int, end as int)),
            },
        },
    }
}

/// The device tree of an image with a list of device trees in a section of its own.
pub fn extract_vendor_dt_dtb(
    image: &[u8],
    position: u64,
    size: u32,
    entry: &VendorDtEntry,
) -> (r: Result<Vec<u8>, BootError>)
    requires
        entry.fits(size),
    ensures
        vendor_dtb(image@, position as int, size as int, *entry) == (match r {
            Ok(data) => Ok(data@),
            Err(e) => Err(e@),
        }),
{
    let list = match extract_section(image, position, size) {
        None => {
            let words = "boot image vendor-dt section is truncated: failed to fill whole buffer";
            return Err(
                BootError { fault: BootFault::VendorDtTruncated, detail: owned(words) },
            );
        },
        Some(list) => list,
    };
    let kind = match vendor_dt_kind(&list) {
        None => {
            let n = if list.len() < 4 {
                list.len()
            } else {
                4
            };
            let start = &list.as_slice()[0..n];
            assert(start@ =~= list@.take(n as int));
            let detail = cat(
                "unsupported boot image vendor-dt magic: ",
                number_list_text(start).as_str(),
            );
            return Err(BootError { fault: BootFault::VendorDt, detail });
        },
        Some(kind) => kind,
    };
    match entry {
        VendorDtEntry::ParseFailed(text) => {
            let mut s = cat("parse boot image ", kind.name());
            s.append(" vendor-dt: ");
            s.append(text.as_str());
            Err(BootError { fault: BootFault::VendorDt, detail: s })
        },
        VendorDtEntry::SelectFailed(text) => {
            let mut s = cat("select boot image ", kind.name());
            s.append(" vendor-dt entry: ");
            s.append(text.as_str());
            Err(BootError { fault: BootFault::VendorDt, detail: s })
        },
        VendorDtEntry::Range(start, end) => {
            let mut data: Vec<u8> = Vec::new();
            push_bytes(&mut data, &list.as_slice()[*start..*end]);
            assert(data@ =~= list@.subrange(*start as int, *end as int));
            Ok(data)
        },
    }
}

/// The device tree that the header of an image places in it: in a section of its own, or in a list
/// of device trees, by what the parser of such lists gave for it.
pub open spec fn header_dtb(
    h: HeaderView,
    image: Seq<u8>,
    entry: Option<VendorDtEntry>,
) -> Result<Option<Seq<u8>>, (BootFault, Seq<char>)> {
    match boot_dtb(h) {
        None => match (vendor_list(h.kind), entry) {
            (Some((position, size)), Some(entry)) => match vendor_dtb(
                image,
                position as int,
                size as int,
                entry,
            ) {
                Ok(tree) => Ok(Some(tree)),
                Err(e) => Err(e),
            },
            _ => Ok(None),
        },
        Some((position, size)) => if size == 0 {
            Ok(None)
        } else {
            match section(image, position, size as int) {
                None => Err((BootFault::DtbTruncated, Seq::empty())),
                Some(data) => Ok(Some(data)),
            }
        },
    }
}

/// The parts of an image with a given header, and with what the parser of lists of device trees
/// gave for such a list in it.
pub open spec fn boot_parts(
    h: HeaderView,
    image: Seq<u8>,
    entry: Option<VendorDtEntry>,
) -> Result<BootParts, (BootFault, Seq<char>)> {
    if h.kernel_size == 0 {
        Err((BootFault::NoKernel, Seq::empty()))
    } else {
        match image_cmdline(h.cmdline) {
            Err(e) => Err(e),
            Ok(cmdline) => if page(h.kind) == 0 {
                Err((BootFault::PageSize, Seq::empty()))
            } else {
                sections(h, image, entry, cmdline)
            },
        }
    }
}

/// The parts of an image with a given header and command line.
pub open spec fn sections(
    h: HeaderView,
    image: Seq<u8>,
    entry: Option<VendorDtEntry>,
    cmdline: Seq<char>,
) -> Result<BootParts, (BootFault, Seq<char>)> {
    match section(image, kernel_position(h), h.kernel_size as int) {
        None => Err((BootFault::KernelTruncated, Seq::empty())),
        Some(raw) => match kernel_payload(raw) {
            Err(e) => Err(e),
            Ok(kernel) => {
                let initrd = section(image, ramdisk_position(h), h.ramdisk_size as int);
                if h.ramdisk_size > 0 && initrd is None {
                    Err((BootFault::RamdiskTruncated, Seq::empty()))
                } else {
                    match header_dtb(h, image, entry) {
                        Err(e) => Err(e),
                        Ok(dtb) => Ok(
                            BootParts {
                                kernel,
                                initrd: if h.ramdisk_size > 0 {
                                    initrd
                                } else {
                                    None
                                },
                                dtb,
                                cmdline,
                            },
                        ),
                    }
                }
            },
        },
    }
}

/// What the parser of a list of device trees gave, as plain values.
pub open spec fn entry_told(entry: Option<&VendorDtEntry>) -> Option<VendorDtEntry> {
    match entry {
        Some(entry) => Some(*entry),
        None => None,
    }
}

/// Whether there is what the parser of a list of device trees gave, where the header has one.
pub open spec fn entry_suits(kind: HeaderKind, entry: Option<&VendorDtEntry>) -> bool {
    vendor_list(kind) matches Some((_, size)) ==> (entry matches Some(entry) && entry.fits(size))
}

fn extract_dtb(header: &BootHeader, image: &[u8], entry: Option<&VendorDtEntry>) -> (r: Result<
    Option<Vec<u8>>,
    BootError,
>)
    requires
        header.sound(),
        entry_suits(header.kind, entry),
    ensures
        header_dtb(header@, image@, entry_told(entry)) == (match r {
            Ok(dtb) => Ok(bytes_told(dtb)),
            Err(e) => Err(e@),
        }),
{
    if let Some((position, size)) = header.boot_dtb_section() {
        if size == 0 {
            return Ok(None);
        }
        return match extract_section(image, position, size) {
            None => Err(plain(BootFault::DtbTruncated)),
            Some(data) => Ok(Some(data)),
        };
    }
    match (header.vendor_dt_section(), entry) {
        (Some((position, size)), Some(entry)) => match extract_vendor_dt_dtb(
            image,
            position,
            size,
            entry,
        ) {
            Ok(tree) => Ok(Some(tree)),
            Err(e) => Err(e),
        },
        _ => Ok(None),
    }
}

/// The parts of an image with a given header, and with what the parser of lists of device trees
/// gave for such a list in it.
pub fn split_boot_image(
    header: &BootHeader,
    image: &[u8],
    entry: Option<&VendorDtEntry>,
) -> (r: Result<BootImage, BootError>)
    requires
        entry_suits(header.kind, entry),
    ensures
        boot_parts(header@, image@, entry_told(entry)) == (match r {
            Ok(parts) => Ok(parts@),
            Err(e) => Err(e@),
        }),
{
    if header.kernel_size == 0 {
        return Err(plain(BootFault::NoKernel));
    }
    let cmdline = android_cmdline(&header.cmdline)?;
    if header.page_size() == 0 {
        return Err(plain(BootFault::PageSize));
    }
    let raw = match extract_section(image, header.kernel_position(), header.kernel_size) {
        None => {
            return Err(plain(BootFault::KernelTruncated));
        },
        Some(raw) => raw,
    };
    let kernel = prepare_kernel_payload(raw)?;
    let initrd = if header.ramdisk_size == 0 {
        None
    } else {
        match extract_section(image, header.ramdisk_position(), header.ramdisk_size) {
            None => {
                return Err(plain(BootFault::RamdiskTruncated));
            },
            Some(data) => Some(data),
        }
    };
    let dtb = extract_dtb(header, image, entry)?;
    Ok(BootImage { kernel, initrd, dtb, cmdline })
}

/// The parts of a staged boot image.
pub fn prepare_boot_image(image: &[u8]) -> (r: Result<BootImage, BootError>)
    ensures
        match boot_header(image@) {
            None => r matches Err(e) && e.fault == BootFault::Parse,
            Some(h) => boot_parts(h, image@, None) == (match r {
                Ok(parts) => Ok(parts@),
                Err(e) => Err(e@),
            }),
        },
{
    match parse_header(image) {
        Err(detail) => Err(BootError { fault: BootFault::Parse, detail }),
        Ok(header) => split_boot_image(&header, image, None),
    }
}

/// Whether `position` is the first whole page at or behind `end`.
pub open spec fn next_page(position: int, end: int, page: int) -> bool {
    position % page == 0 && end <= position < end + page
}

proof fn lemma_next_page(start: int, size: int, position: int, page: int)
    requires
        0 < page,
        0 <= start,
        0 <= size,
        start % page == 0,
        next_page(position, start + size, page),
    ensures
        position == start + paged(size, page),
{
    lemma_fundamental_div_mod(start, page);
    lemma_fundamental_div_mod(size, page);
    lemma_fundamental_div_mod(position, page);
    lemma_mod_bound(size, page);
    let rest = size % page;
    let a = start / page;
    let b = size / page;
    let c = position / page;
    assert(start == page * a);
    assert(size == page * b + rest);
    assert(position == page * c);
    assert(page * (a + b) == page * a + page * b) by (nonlinear_arith);
    assert(page * (a + b + 1) == page * a + page * b + page) by (nonlinear_arith);
    if rest == 0 {
        assert(c == a + b) by (nonlinear_arith)
            requires
                0 < page,
                page * (a + b) <= page * c < page * (a + b) + page,
        ;
        lemma_small_mod(0, page as nat);
        assert((page - 0) % page == 0) by {
            vstd::arithmetic::div_mod::lemma_mod_self_0(page);
        }
    } else {
        assert(c == a + b + 1) by (nonlinear_arith)
            requires
                0 < page,
                page * (a + b) + rest <= page * c < page * (a + b) + rest + page,
                0 < rest < page,
        ;
        lemma_small_mod((page - rest) as nat, page as nat);
    }
}

/// The size of a page, by the kind of the header.
pub open spec fn bytes_of_page(kind: HeaderKind) -> int {
    match kind {
        HeaderKind::Old { page_size, .. } => page_size as int,
        HeaderKind::New => 4096,
    }
}

/// The sections of an image stand behind its header one behind the other, each from a whole page
/// on: the kernel, the ramdisk, and from version 2 on the recovery image and the device tree.
pub open spec fn sections_stand(
    h: HeaderView,
    kernel: int,
    ramdisk: int,
    recovery: int,
    dtb: int,
) -> bool {
    let page = bytes_of_page(h.kind);
    &&& page > 0
    &&& next_page(
        kernel,
        if h.kind is New {
            1580
        } else {
            1660
        },
        page,
    )
    &&& next_page(ramdisk, kernel + h.kernel_size, page)
    &&& next_page(recovery, ramdisk + h.ramdisk_size, page)
    &&& h.kind matches HeaderKind::Old { tail: HeaderTail::V2(size, _), .. } ==> next_page(
        dtb,
        recovery + size,
        page,
    )
}

proof fn lemma_sections_stand(
    h: HeaderView,
    kernel: int,
    ramdisk: int,
    recovery: int,
    dtb: int,
)
    requires
        sections_stand(h, kernel, ramdisk, recovery, dtb),
    ensures
        page(h.kind) > 0,
        kernel == kernel_position(h),
        ramdisk == ramdisk_position(h),
        boot_dtb(h) == (match h.kind {
            HeaderKind::Old { tail: HeaderTail::V2(_, size), .. } => Some((dtb, size)),
            _ => None,
        }),
{
    let page = bytes_of_page(h.kind);
    match h.kind {
        HeaderKind::Old { tail, .. } => {
            lemma_small_mod(0, page as nat);
            lemma_next_page(0, 1660, kernel, page);
            lemma_next_page(kernel, h.kernel_size as int, ramdisk, page);
            lemma_next_page(ramdisk, h.ramdisk_size as int, recovery, page);
            if let HeaderTail::V2(size, _) = tail {
                lemma_next_page(recovery, size as int, dtb, page);
            }
        },
        HeaderKind::New => {
            lemma_next_page(kernel, h.kernel_size as int, ramdisk, page);
        },
    }
}

/// An image is split into what stands in its sections. The kernel is that of its section, or what
/// it decompresses to where it is gzip data; the ramdisk and the device tree are those of theirs,
/// and there are none where their sizes are zero.
pub proof fn law_images_are_split_at_their_pages(
    h: HeaderView,
    image: Seq<u8>,
    entry: Option<VendorDtEntry>,
    kernel: int,
    ramdisk: int,
    recovery: int,
    dtb: int,
)
    requires
        sections_stand(h, kernel, ramdisk, recovery, dtb),
        h.kernel_size > 0,
        kernel + h.kernel_size <= image.len(),
        h.ramdisk_size > 0 ==> ramdisk + h.ramdisk_size <= image.len(),
        h.kind matches HeaderKind::Old { tail: HeaderTail::V2(_, size), .. } ==> (size > 0 ==> dtb
            + size <= image.len()),
        vendor_list(h.kind) is None,
        image_cmdline(h.cmdline) is Ok,
    ensures
        ({
            let raw = image.subrange(kernel, kernel + h.kernel_size);
            let gzip = raw.len() >= 2 && raw[0] == 0x1f && raw[1] == 0x8b;
            match boot_parts(h, image, entry) {
                Ok(parts) => {
                    &&& parts.kernel == (if gzip {
                        gunzip_members(raw)->Ok_0
                    } else {
                        raw
                    })
                    &&& gzip ==> gunzip_members(raw) is Ok
                    &&& parts.initrd == (if h.ramdisk_size > 0 {
                        Some(image.subrange(ramdisk, ramdisk + h.ramdisk_size))
                    } else {
                        None
                    })
                    &&& parts.dtb == (match h.kind {
                        HeaderKind::Old { tail: HeaderTail::V2(_, size), .. } => if size > 0 {
                            Some(image.subrange(dtb, dtb + size))
                        } else {
                            None
                        },
                        _ => None,
                    })
                    &&& parts.cmdline == image_cmdline(h.cmdline)->Ok_0
                },
                Err((fault, _)) => gzip && gunzip_members(raw) is Err && fault == BootFault::Gzip(
                    gunzip_members(raw)->Err_0.0,
                ),
            }
        }),
{
    lemma_sections_stand(h, kernel, ramdisk, recovery, dtb);
}

/// An image that ends before one of its sections does is refused, for the first such section,
/// unless its kernel is refused before.
pub proof fn law_cut_images_are_refused(
    h: HeaderView,
    image: Seq<u8>,
    entry: Option<VendorDtEntry>,
    kernel: int,
    ramdisk: int,
    recovery: int,
    dtb: int,
)
    requires
        sections_stand(h, kernel, ramdisk, recovery, dtb),
        h.kernel_size > 0,
        image_cmdline(h.cmdline) is Ok,
    ensures
        ({
            let r = boot_parts(h, image, entry);
            let raw = image.subrange(kernel, kernel + h.kernel_size);
            let none = Seq::<char>::empty();
            if image.len() < kernel + h.kernel_size {
                r == Err::<BootParts, (BootFault, Seq<char>)>((BootFault::KernelTruncated, none))
            } else if raw.len() >= 2 && raw[0] == 0x1f && raw[1] == 0x8b && gunzip_members(
                raw,
            ) is Err {
                r is Err && r->Err_0.0 is Gzip
            } else if h.ramdisk_size > 0 && image.len() < ramdisk + h.ramdisk_size {
                r == Err::<BootParts, (BootFault, Seq<char>)>((BootFault::RamdiskTruncated, none))
            } else {
                h.kind matches HeaderKind::Old { tail: HeaderTail::V2(_, size), .. } ==> (size > 0
                    && image.len() < dtb + size ==> r == Err::<BootParts, (BootFault, Seq<char>)>(
                    (BootFault::DtbTruncated, none),
                ))
            }
        }),
{
    lemma_sections_stand(h, kernel, ramdisk, recovery, dtb);
}

/// The command line of an image is its text up to the first zero byte, without the white space
/// behind it.
pub proof fn law_cmdlines_end_at_a_zero(text: Seq<char>, behind: Seq<char>, more: Seq<u8>)
    requires
        text.len() > 0 ==> !is_space(text.last()),
        forall|i: int| 0 <= i < behind.len() ==> is_space(#[trigger] behind[i]),
        !utf8(text + behind).contains(0u8),
    ensures
        image_cmdline(utf8(text + behind)) == Ok::<Seq<char>, (BootFault, Seq<char>)>(text),
        image_cmdline(utf8(text + behind).push(0u8) + more) == Ok::<
            Seq<char>,
            (BootFault, Seq<char>),
        >(text),
{
    let whole = utf8(text + behind);
    let longer = whole.push(0u8) + more;
    lemma_c_bytes(whole, Seq::empty());
    assert(whole + Seq::<u8>::empty() =~= whole);
    lemma_c_bytes(whole, seq![0u8] + more);
    assert(whole + (seq![0u8] + more) =~= longer);
    vstd::utf8::encode_utf8_valid_utf8(text + behind);
    vstd::utf8::encode_utf8_decode_utf8(text + behind);
    lemma_trim_end_behind(text, behind);
}

proof fn lemma_trim_end_behind(text: Seq<char>, behind: Seq<char>)
    requires
        text.len() > 0 ==> !is_space(text.last()),
        forall|i: int| 0 <= i < behind.len() ==> is_space(#[trigger] behind[i]),
    ensures
        trim_end(text + behind) == text,
    decreases behind.len(),
{
    if behind.len() == 0 {
        assert(text + behind =~= text);
    } else {
        let fewer = behind.drop_last();
        assert((text + behind).drop_last() =~= text + fewer);
        assert((text + behind).last() == behind[behind.len() - 1]);
        assert forall|i: int| 0 <= i < fewer.len() implies is_space(#[trigger] fewer[i]) by {
            assert(fewer[i] == behind[i]);
        }
        lemma_trim_end_behind(text, fewer);
    }
}

proof fn lemma_c_bytes(text: Seq<u8>, rest: Seq<u8>)
    requires
        !text.contains(0u8),
        rest.len() > 0 ==> rest[0] == 0,
    ensures
        c_bytes(text + rest) == text,
{
    let whole = text + rest;
    lemma_next_byte(whole, 0, 0u8);
    let at = next_byte(whole, 0, 0u8);
    if at < text.len() {
        assert(whole[at] == text[at]);
        assert(text.contains(text[at]));
    }
    if at > text.len() {
        assert(whole[text.len() as int] == rest[0]);
    }
    assert(c_bytes(whole) =~= text);
}

/// The device tree of an image with a list of them is the piece of the list that the parser of such
/// lists names, where the list is one of the two known forms and all there.
pub proof fn law_listed_trees_are_taken(
    image: Seq<u8>,
    position: int,
    size: int,
    start: usize,
    end: usize,
)
    requires
        0 <= position,
        4 <= size,
        position + size <= image.len(),
        start <= end <= size,
        image.subrange(position, position + 4) == seq![0x51u8, 0x43u8, 0x44u8, 0x54u8]
            || image.subrange(position, position + 4) == seq![0x44u8, 0x54u8, 0x42u8, 0x48u8],
    ensures
        vendor_dtb(image, position, size, VendorDtEntry::Range(start, end)) == Ok::<
            Seq<u8>,
            (BootFault, Seq<char>),
        >(image.subrange(position + start, position + end)),
{
    let list = image.subrange(position, position + size);
    let front = image.subrange(position, position + 4);
    reveal_strlit("QCDT");
    reveal_strlit("DTBH");
    vstd::utf8::is_ascii_chars_encode_utf8("QCDT"@);
    vstd::utf8::is_ascii_chars_encode_utf8("DTBH"@);
    assert(utf8("QCDT"@) =~= seq![0x51u8, 0x43u8, 0x44u8, 0x54u8]);
    assert(utf8("DTBH"@) =~= seq![0x44u8, 0x54u8, 0x42u8, 0x48u8]);
    assert(list.take(4) =~= front);
    assert(forall|i: int| 0 <= i < 4 ==> list[i] == front[i]);
    assert(front[0] == list[0] && front[1] == list[1] && front[2] == list[2] && front[3] == list[3]);
    assert(list.subrange(start as int, end as int) =~= image.subrange(
        position + start,
        position + end,
    ));
}

} // verus!
