//! Loading the next kernel.
use std::io::Read;

use vstd::prelude::*;
use vstd::string::*;

use crate::bytes::{bytes_at, le64, le_u64, matches_at, push_bytes, utf8};
use crate::errors::ErrorKind;
use crate::kexec::zstd::{blocks_are_counted, blocks_fit};
use crate::pe;
use crate::text::{cat, hex, hex_padded, owned, padded, utf8_lossy};
use crate::zboot;

pub mod arm64;
pub mod fdt;
pub mod graft;
pub mod image;
pub mod tree;
pub mod zstd;

verus! {

/// Where the magic of a raw arm64 image stands.
pub const ARM64_IMAGE_MAGIC_OFFSET: usize = 56;

/// Length of the header of a raw arm64 image.
pub const ARM64_IMAGE_MIN_SIZE: usize = 64;

/// Length of a page.
pub const ARM64_PAGE_SIZE: u64 = 4096;

/// What went wrong with a kernel payload.
#[derive(Clone, Copy, Debug, PartialEq, Eq, Structural)]
pub enum KernelFault {
    /// The whole payload is gzip that does not decompress.
    Gzip,
    /// The payload is no sound PE/COFF image.
    Pe(pe::PeError),
    /// The PE/COFF image is for another machine.
    NotArm64(u16),
    /// The payload is no sound zboot image.
    Zboot(zboot::ZbootError),
    /// The kernel inside a zboot image does not decompress.
    ZbootGzip,
    /// The kernel inside a zboot image does not start as a zstd frame does.
    ZbootZstdDecoder,
    /// The zstd frame inside a zboot image does not decompress.
    ZbootZstd,
    /// The kernel inside a zboot image is compressed in an unknown way.
    ZbootCompression,
    /// The kernel inside a zboot image is no raw arm64 image.
    ZbootNotRaw,
    /// No section of the PE/COFF image holds a kernel.
    NoKernel,
}

/// What went wrong with a kernel payload, with the words of the decompressor or the name of the
/// compression.
#[derive(Debug)]
pub struct KernelError {
    pub fault: KernelFault,
    pub detail: String,
}

impl View for KernelError {
    type V = (KernelFault, Seq<char>);

    open spec fn view(&self) -> (KernelFault, Seq<char>) {
        (self.fault, self.detail@)
    }
}

impl KernelError {
    /// The error in words.
    pub open spec fn words(&self) -> Seq<char> {
        match self.fault {
            KernelFault::Gzip => "decompress gzip kernel image: "@ + self.detail@,
            KernelFault::Pe(e) => e.words(),
            KernelFault::NotArm64(machine) => "PE/COFF image is not ARM64: machine=0x"@ + padded(
                hex(machine as int),
                4,
                '0',
            ),
            KernelFault::Zboot(_) => "zboot payload exceeds image"@,
            KernelFault::ZbootGzip =>
                "decompress gzip zboot payload: decompress embedded gzip kernel image: "@
                    + self.detail@,
            KernelFault::ZbootZstdDecoder => "create zstd decoder: "@ + self.detail@,
            KernelFault::ZbootZstd => "decompress zstd payload: "@ + self.detail@,
            KernelFault::ZbootCompression => "unsupported zboot compression type "@ + self.detail@,
            KernelFault::ZbootNotRaw => "zboot payload did not decompress to a raw arm64 Image"@,
            KernelFault::NoKernel =>
                "PE/COFF ARM64 kernel does not contain a supported zboot, raw, or gzipped arm64 Image payload"@,
        }
    }

    /// The error in words.
    pub fn message(&self) -> (s: String)
        ensures
            s@ == self.words(),
    {
        match self.fault {
            KernelFault::Gzip => cat("decompress gzip kernel image: ", self.detail.as_str()),
            KernelFault::Pe(e) => e.message(),
            KernelFault::NotArm64(machine) => {
                let digits = hex_padded(machine as u64, 4);
                cat("PE/COFF image is not ARM64: machine=0x", digits.as_str())
            },
            KernelFault::Zboot(_) => owned("zboot payload exceeds image"),
            KernelFault::ZbootGzip => cat(
                "decompress gzip zboot payload: decompress embedded gzip kernel image: ",
                self.detail.as_str(),
            ),
            KernelFault::ZbootZstdDecoder => cat("create zstd decoder: ", self.detail.as_str()),
            KernelFault::ZbootZstd => cat("decompress zstd payload: ", self.detail.as_str()),
            KernelFault::ZbootCompression => cat(
                "unsupported zboot compression type ",
                self.detail.as_str(),
            ),
            KernelFault::ZbootNotRaw => owned(
                "zboot payload did not decompress to a raw arm64 Image",
            ),
            KernelFault::NoKernel => owned(
                "PE/COFF ARM64 kernel does not contain a supported zboot, raw, or gzipped arm64 Image payload",
            ),
        }
    }
}

fn plain(fault: KernelFault) -> (e: KernelError)
    ensures
        e@ == (fault, Seq::<char>::empty()),
{
    KernelError { fault, detail: String::new() }
}

/// A decompressor's result as plain values.
pub open spec fn decoded(r: Result<Vec<u8>, String>) -> Result<Seq<u8>, Seq<char>> {
    match r {
        Ok(data) => Ok(data@),
        Err(words) => Err(words@),
    }
}

/// A gzip decompressor's result as plain values, with the kind of its error.
pub open spec fn members_decoded(r: Result<Vec<u8>, (ErrorKind, String)>) -> Result<
    Seq<u8>,
    (ErrorKind, Seq<char>),
> {
    match r {
        Ok(data) => Ok(data@),
        Err((kind, words)) => Err((kind, words@)),
    }
}

/// A zstd decompressor's result as plain values.
pub open spec fn zstd_decoded(r: Result<Vec<u8>, (bool, String)>) -> Result<
    Seq<u8>,
    (bool, Seq<char>),
> {
    match r {
        Ok(data) => Ok(data@),
        Err((made, words)) => Err((made, words@)),
    }
}

/// A kernel, or what is wrong with it, as plain values.
pub open spec fn kernel_told(r: Result<Vec<u8>, KernelError>) -> Result<
    Seq<u8>,
    (KernelFault, Seq<char>),
> {
    match r {
        Ok(kernel) => Ok(kernel@),
        Err(e) => Err(e@),
    }
}

/// What all members of the gzip data `data` decompress to, or the kind of what is wrong and the
/// words on it.
pub uninterp spec fn gunzip_members(data: Seq<u8>) -> Result<Seq<u8>, (ErrorKind, Seq<char>)>;

/// What the first gzip member of `data` decompresses to, or the words on what is wrong.
pub uninterp spec fn gunzip_first(data: Seq<u8>) -> Result<Seq<u8>, Seq<char>>;

/// What the first zstd frame of `data` decompresses to, or whether a decoder could be made for
/// it, and the words on what is wrong.
pub uninterp spec fn unzstd(data: Seq<u8>) -> Result<Seq<u8>, (bool, Seq<char>)>;

/// Reads `flate2::read::MultiGzDecoder` over `payload` to its end: the decompressed bytes of all
/// gzip members, or the kind of the decoder's error and its words on what is wrong, either of
/// which follows from the bytes of the payload alone. Over bytes in memory the decoder's errors
/// are of the kinds that are told apart here.
#[verifier::external_body]
pub(crate) fn multi_gunzip(payload: &[u8]) -> (r: Result<Vec<u8>, (ErrorKind, String)>)
    ensures
        members_decoded(r) == gunzip_members(payload@),
{
    let mut data = Vec::new();
    let read = flate2::read::MultiGzDecoder::new(payload).read_to_end(&mut data);
    let kind = |err: &std::io::Error| match err.kind() {
        std::io::ErrorKind::InvalidInput => ErrorKind::InvalidInput,
        std::io::ErrorKind::InvalidData => ErrorKind::InvalidData,
        std::io::ErrorKind::UnexpectedEof => ErrorKind::UnexpectedEof,
        _ => ErrorKind::Other,
    };
    read.map(|_| data).map_err(|err| (kind(&err), err.to_string()))
}

/// Reads `flate2::read::GzDecoder` over `payload` to its end: the decompressed bytes of the first
/// gzip member, whatever follows it, or the decoder's words on what is wrong, either of which
/// follows from the bytes of the payload alone.
#[verifier::external_body]
fn single_gunzip(payload: &[u8]) -> (r: Result<Vec<u8>, String>)
    ensures
        decoded(r) == gunzip_first(payload@),
{
    let mut data = Vec::new();
    let read = flate2::read::GzDecoder::new(payload).read_to_end(&mut data);
    read.map(|_| data).map_err(|err| err.to_string())
}

/// Makes `ruzstd::decoding::StreamingDecoder` for `payload` and reads it to its end: the
/// decompressed bytes of the first zstd frame, or whether the decoder could be made, and its words
/// on what is wrong, either of which follows from the bytes of the payload alone. The decoder
/// panics where it counts over what a block regenerates, so the blocks have to fit.
#[verifier::external_body]
fn decompress_zstd(payload: &[u8]) -> (r: Result<Vec<u8>, (bool, String)>)
    requires
        blocks_fit(payload@),
    ensures
        zstd_decoded(r) == unzstd(payload@),
{
    let mut data = Vec::new();
    let mut decoder = ruzstd::decoding::StreamingDecoder::new(payload).map_err(
        |err| (false, err.to_string()),
    )?;
    decoder.read_to_end(&mut data).map(|_| data).map_err(|err| (true, err.to_string()))
}

/// What a zstd payload decompresses to, or whether a decoder could be made for it, and the words
/// on what is wrong. A payload with a block that regenerates too much is not tried.
pub open spec fn zstd_payload(data: Seq<u8>) -> Result<Seq<u8>, (bool, Seq<char>)> {
    if blocks_fit(data) {
        unzstd(data)
    } else {
        Err((true, "block regenerates too many bytes"@))
    }
}

/// What a zstd payload decompresses to. A payload with a block that regenerates too much is not
/// tried.
pub fn decompress_zstd_payload(payload: &[u8]) -> (r: Result<Vec<u8>, (bool, String)>)
    ensures
        zstd_decoded(r) == zstd_payload(payload@),
{
    if blocks_are_counted(payload) {
        decompress_zstd(payload)
    } else {
        Err((true, owned("block regenerates too many bytes")))
    }
}

/// Whether `payload` is a raw arm64 image: long enough for its header, with the magic in place
/// and a text offset of whole pages.
pub open spec fn is_raw_image(payload: Seq<u8>) -> bool {
    &&& payload.len() >= ARM64_IMAGE_MIN_SIZE
    &&& bytes_at(payload, ARM64_IMAGE_MAGIC_OFFSET as int, utf8("ARMd"@))
    &&& le64(payload, 8) % ARM64_PAGE_SIZE == 0
}

/// Whether `payload` is a raw arm64 image.
pub fn is_raw_arm64_image(payload: &[u8]) -> (r: bool)
    ensures
        r == is_raw_image(payload@),
{
    if payload.len() < ARM64_IMAGE_MIN_SIZE || !matches_at(
        payload,
        ARM64_IMAGE_MAGIC_OFFSET,
        "ARMd".as_bytes(),
    ) {
        return false;
    }
    le_u64(payload, 8) % ARM64_PAGE_SIZE == 0
}

/// The place of the first `pattern` in `s` at or after `from`.
pub open spec fn next_match(s: Seq<u8>, from: int, pattern: Seq<u8>) -> Option<int>
    decreases s.len() - from,
{
    if from < 0 || from >= s.len() || from + pattern.len() > s.len() {
        None
    } else if bytes_at(s, from, pattern) {
        Some(from)
    } else {
        next_match(s, from + 1, pattern)
    }
}

/// The place of the first `pattern` in `data` at or after `from`.
fn find_pattern(data: &[u8], from: usize, pattern: &[u8]) -> (r: Option<usize>)
    requires
        from <= data@.len(),
        pattern@.len() > 0,
    ensures
        next_match(data@, from as int, pattern@) == (match r {
            Some(at) => Some(at as int),
            None => None,
        }),
        r matches Some(at) ==> from <= at < data@.len(),
{
    let mut at: usize = from;
    while at < data.len() && data.len() - at >= pattern.len()
        invariant
            from <= at <= data@.len(),
            pattern@.len() > 0,
            next_match(data@, from as int, pattern@) == next_match(data@, at as int, pattern@),
        decreases data@.len() - at,
    {
        if matches_at(data, at, pattern) {
            return Some(at);
        }
        at += 1;
    }
    None
}

/// The raw arm64 image whose magic is the first in `payload`, and where it starts.
pub open spec fn raw_image_in(payload: Seq<u8>) -> Option<int> {
    match next_match(payload, 0, utf8("ARMd"@)) {
        Some(magic) => if magic >= 56 && is_raw_image(payload.skip(magic - 56)) {
            Some(magic - 56)
        } else {
            None
        },
        None => None,
    }
}

proof fn lemma_magic_length()
    ensures
        utf8("ARMd"@).len() == 4,
{
    reveal_strlit("ARMd");
    vstd::utf8::is_ascii_chars_encode_utf8("ARMd"@);
}

/// The raw arm64 image whose magic is the first in `payload`, and where it starts.
pub fn find_raw_arm64_image<'a>(payload: &'a [u8]) -> (r: Option<(usize, &'a [u8])>)
    ensures
        match raw_image_in(payload@) {
            Some(start) => r matches Some((at, image)) && at == start && image@ == payload@.skip(
                start,
            ),
            None => r is None,
        },
{
    proof {
        lemma_magic_length();
    }
    let magic = match find_pattern(payload, 0, "ARMd".as_bytes()) {
        Some(magic) => magic,
        None => return None,
    };
    if magic < ARM64_IMAGE_MAGIC_OFFSET {
        return None;
    }
    let start = magic - ARM64_IMAGE_MAGIC_OFFSET;
    let image = &payload[start..payload.len()];
    assert(image@ =~= payload@.skip(start as int));
    if is_raw_arm64_image(image) {
        Some((start, image))
    } else {
        None
    }
}

/// The bytes that gzip data starts with.
pub open spec fn gzip_magic() -> Seq<u8> {
    seq![0x1fu8, 0x8bu8]
}

/// The kernel that a decompressed gzip member holds, if it is one.
pub open spec fn raw_member(member: Result<Seq<u8>, Seq<char>>) -> Option<Seq<u8>> {
    match member {
        Ok(data) => if is_raw_image(data) {
            Some(data)
        } else {
            None
        },
        Err(_) => None,
    }
}

/// The kernel that a decompressed gzip member holds, if it is one.
pub fn accept_member(member: Result<Vec<u8>, String>) -> (r: Option<Vec<u8>>)
    ensures
        raw_member(decoded(member)) == (match r {
            Some(data) => Some(data@),
            None => None,
        }),
{
    match member {
        Ok(data) => if is_raw_arm64_image(data.as_slice()) {
            Some(data)
        } else {
            None
        },
        Err(_) => None,
    }
}

/// The first gzip member at or after `from` that holds a kernel: where it is, and the kernel.
pub open spec fn gzipped_image_from(payload: Seq<u8>, from: int) -> Option<(int, Seq<u8>)>
    decreases payload.len() - from,
    when 0 <= from
{
    match next_match(payload, from, gzip_magic()) {
        None => None,
        Some(at) => if !(from <= at < payload.len()) {
            None
        } else {
            match raw_member(gunzip_first(payload.skip(at))) {
                Some(image) => Some((at, image)),
                None => gzipped_image_from(payload, at + 1),
            }
        },
    }
}

/// The first gzip member that holds a kernel: where it is, and the kernel.
pub fn find_gzipped_arm64_image(payload: &[u8]) -> (r: Option<(usize, Vec<u8>)>)
    ensures
        gzipped_image_from(payload@, 0) == (match r {
            Some((at, image)) => Some((at as int, image@)),
            None => None,
        }),
{
    let mut magic: Vec<u8> = Vec::new();
    magic.push(0x1f);
    magic.push(0x8b);
    assert(magic@ =~= gzip_magic());
    let mut from: usize = 0;
    loop
        invariant
            from <= payload@.len(),
            magic@ == gzip_magic(),
            gzipped_image_from(payload@, 0) == gzipped_image_from(payload@, from as int),
        decreases payload@.len() - from,
    {
        match find_pattern(payload, from, magic.as_slice()) {
            None => {
                return None;
            },
            Some(at) => {
                let rest = &payload[at..payload.len()];
                assert(rest@ =~= payload@.skip(at as int));
                if let Some(image) = accept_member(single_gunzip(rest)) {
                    return Some((at, image));
                }
                from = at + 1;
            },
        }
    }
}

/// The kernel of a zboot image, given what its payload decompresses to.
pub open spec fn zboot_kernel(
    payload: Result<Seq<u8>, Seq<char>>,
    failure: KernelFault,
) -> Result<Seq<u8>, (KernelFault, Seq<char>)> {
    match payload {
        Err(words) => Err((failure, words)),
        Ok(image) => if is_raw_image(image) {
            Ok(image)
        } else {
            Err((KernelFault::ZbootNotRaw, Seq::empty()))
        },
    }
}

/// The kernel of a zboot image, given what its payload decompresses to.
pub fn accept_zboot(payload: Result<Vec<u8>, String>, failure: KernelFault) -> (r: Result<
    Vec<u8>,
    KernelError,
>)
    ensures
        kernel_told(r) == zboot_kernel(decoded(payload), failure),
{
    match payload {
        Err(detail) => Err(KernelError { fault: failure, detail }),
        Ok(image) => if is_raw_arm64_image(image.as_slice()) {
            Ok(image)
        } else {
            Err(plain(KernelFault::ZbootNotRaw))
        },
    }
}

/// The kernel of a zboot image, given what its zstd payload decompresses to.
pub open spec fn zstd_kernel(payload: Result<Seq<u8>, (bool, Seq<char>)>) -> Result<
    Seq<u8>,
    (KernelFault, Seq<char>),
> {
    match payload {
        Ok(image) => zboot_kernel(Ok(image), KernelFault::ZbootZstd),
        Err((true, words)) => Err((KernelFault::ZbootZstd, words)),
        Err((false, words)) => Err((KernelFault::ZbootZstdDecoder, words)),
    }
}

/// The kernel of a zboot image, given what its zstd payload decompresses to.
pub fn accept_zstd(payload: Result<Vec<u8>, (bool, String)>) -> (r: Result<Vec<u8>, KernelError>)
    ensures
        kernel_told(r) == zstd_kernel(zstd_decoded(payload)),
{
    match payload {
        Ok(image) => accept_zboot(Ok(image), KernelFault::ZbootZstd),
        Err((made, words)) => {
            let failure = if made {
                KernelFault::ZbootZstd
            } else {
                KernelFault::ZbootZstdDecoder
            };
            accept_zboot(Err(words), failure)
        },
    }
}

/// The kernel inside a zboot image.
pub open spec fn zboot_extracted(image: zboot::ZbootView) -> Result<
    Seq<u8>,
    (KernelFault, Seq<char>),
> {
    match zboot::compression_named(image.compression_name) {
        zboot::Compression::Gzip => zboot_kernel(
            gunzip_first(image.payload),
            KernelFault::ZbootGzip,
        ),
        zboot::Compression::Zstd => zstd_kernel(zstd_payload(image.payload)),
        zboot::Compression::Unsupported => Err(
            (KernelFault::ZbootCompression, utf8_lossy(image.compression_name)),
        ),
    }
}

/// The kernel inside a zboot image.
pub fn decompress_zboot_payload(image: &zboot::Image<'_>) -> (r: Result<Vec<u8>, KernelError>)
    ensures
        kernel_told(r) == zboot_extracted(image@),
{
    match image.compression() {
        zboot::Compression::Gzip => accept_zboot(
            single_gunzip(image.payload()),
            KernelFault::ZbootGzip,
        ),
        zboot::Compression::Zstd => accept_zstd(decompress_zstd_payload(image.payload())),
        zboot::Compression::Unsupported => Err(
            KernelError {
                fault: KernelFault::ZbootCompression,
                detail: image.compression_name(),
            },
        ),
    }
}

/// The kernel in the first section at or after `from` that holds a raw image.
pub open spec fn raw_section_from(sections: Seq<pe::SectionView>, from: int) -> Option<Seq<u8>>
    decreases sections.len() - from,
{
    if from < 0 || from >= sections.len() {
        None
    } else {
        match raw_image_in(sections[from].data) {
            Some(start) => Some(sections[from].data.skip(start)),
            None => raw_section_from(sections, from + 1),
        }
    }
}

/// The kernel in the first section at or after `from` that holds a gzipped image.
pub open spec fn gzipped_section_from(sections: Seq<pe::SectionView>, from: int) -> Option<Seq<u8>>
    decreases sections.len() - from,
{
    if from < 0 || from >= sections.len() {
        None
    } else {
        match gzipped_image_from(sections[from].data, 0) {
            Some((_, image)) => Some(image),
            None => gzipped_section_from(sections, from + 1),
        }
    }
}

/// The kernel inside a PE/COFF image for arm64: that of a zboot image, else the first raw image
/// in a section, else the first gzipped one.
pub open spec fn pe_extracted(data: Seq<u8>, image: pe::ImageView) -> Result<
    Seq<u8>,
    (KernelFault, Seq<char>),
> {
    match zboot::zboot_of(data) {
        Err(e) => Err((KernelFault::Zboot(e), Seq::empty())),
        Ok(Some(inner)) => zboot_extracted(inner),
        Ok(None) => match raw_section_from(image.sections, 0) {
            Some(kernel) => Ok(kernel),
            None => match gzipped_section_from(image.sections, 0) {
                Some(kernel) => Ok(kernel),
                None => Err((KernelFault::NoKernel, Seq::empty())),
            },
        },
    }
}

/// The kernel inside a PE/COFF image for arm64.
pub fn extract_pe_arm64_kernel(image: &pe::Image<'_>) -> (r: Result<Vec<u8>, KernelError>)
    ensures
        kernel_told(r) == pe_extracted(image.contents(), image@),
{
    match zboot::Image::parse(image.data()) {
        Err(e) => {
            return Err(plain(KernelFault::Zboot(e)));
        },
        Ok(Some(inner)) => {
            return decompress_zboot_payload(&inner);
        },
        Ok(None) => {},
    }
    let sections = image.sections();
    let ghost views = image@.sections;
    let mut i: usize = 0;
    while i < sections.len()
        invariant
            i <= sections@.len(),
            views == pe::section_views(sections@),
            raw_section_from(views, 0) == raw_section_from(views, i as int),
            pe_extracted(image.contents(), image@) == (match raw_section_from(views, 0) {
                Some(kernel) => Ok(kernel),
                None => match gzipped_section_from(views, 0) {
                    Some(kernel) => Ok(kernel),
                    None => Err((KernelFault::NoKernel, Seq::<char>::empty())),
                },
            }),
        decreases sections@.len() - i,
    {
        assert(views[i as int] == sections@[i as int]@);
        if let Some((_, kernel)) = find_raw_arm64_image(sections[i].data()) {
            let mut copy: Vec<u8> = Vec::new();
            push_bytes(&mut copy, kernel);
            assert(copy@ =~= kernel@);
            return Ok(copy);
        }
        i += 1;
    }
    let mut i: usize = 0;
    while i < sections.len()
        invariant
            i <= sections@.len(),
            views == pe::section_views(sections@),
            gzipped_section_from(views, 0) == gzipped_section_from(views, i as int),
            pe_extracted(image.contents(), image@) == (match gzipped_section_from(views, 0) {
                Some(kernel) => Ok(kernel),
                None => Err((KernelFault::NoKernel, Seq::<char>::empty())),
            }),
        decreases sections@.len() - i,
    {
        assert(views[i as int] == sections@[i as int]@);
        if let Some((_, kernel)) = find_gzipped_arm64_image(sections[i].data()) {
            return Ok(kernel);
        }
        i += 1;
    }
    Err(plain(KernelFault::NoKernel))
}

/// What a payload of gzip data is prepared to, given what it decompresses to.
pub fn accept_gzip_kernel(payload: Result<Vec<u8>, (ErrorKind, String)>) -> (r: Result<
    Option<Vec<u8>>,
    KernelError,
>)
    ensures
        match payload {
            Ok(data) => r == Ok::<Option<Vec<u8>>, KernelError>(Some(data)),
            Err((_, words)) => r matches Err(e) && e.fault == KernelFault::Gzip && e.detail
                == words,
        },
{
    match payload {
        Ok(data) => Ok(Some(data)),
        Err((_, detail)) => Err(KernelError { fault: KernelFault::Gzip, detail }),
    }
}

/// The kernel to load for a payload, or nothing where the payload is to be loaded as it is: gzip
/// data is decompressed, and the kernel is taken out of a PE/COFF image.
pub open spec fn prepared(payload: Seq<u8>) -> Result<
    Option<Seq<u8>>,
    (KernelFault, Seq<char>),
> {
    if gzip_magic().is_prefix_of(payload) {
        match gunzip_members(payload) {
            Ok(data) => Ok(Some(data)),
            Err((_, words)) => Err((KernelFault::Gzip, words)),
        }
    } else {
        match pe::image_of(payload) {
            Err(e) => Err((KernelFault::Pe(e), Seq::empty())),
            Ok(None) => Ok(None),
            Ok(Some(image)) => if image.machine != pe::IMAGE_FILE_MACHINE_ARM64 {
                Err((KernelFault::NotArm64(image.machine), Seq::empty()))
            } else {
                match pe_extracted(payload, image) {
                    Ok(kernel) => Ok(Some(kernel)),
                    Err(e) => Err(e),
                }
            },
        }
    }
}

/// The kernel to load for a payload, or nothing where the payload is to be loaded as it is.
pub fn prepare_kernel_payload_bytes(payload: &[u8]) -> (r: Result<Option<Vec<u8>>, KernelError>)
    ensures
        prepared(payload@) == (match r {
            Ok(Some(kernel)) => Ok(Some(kernel@)),
            Ok(None) => Ok(None),
            Err(e) => Err(e@),
        }),
{
    if payload.len() >= 2 && payload[0] == 0x1f && payload[1] == 0x8b {
        assert(gzip_magic() =~= payload@.subrange(0, 2));
        return accept_gzip_kernel(multi_gunzip(payload));
    }
    proof {
        if gzip_magic().is_prefix_of(payload@) {
            assert(payload@[0] == gzip_magic()[0]);
            assert(payload@[1] == gzip_magic()[1]);
        }
    }
    let image = match pe::Image::parse(payload) {
        Err(e) => return Err(plain(KernelFault::Pe(e))),
        Ok(None) => return Ok(None),
        Ok(Some(image)) => image,
    };
    if image.machine() != pe::IMAGE_FILE_MACHINE_ARM64 {
        return Err(plain(KernelFault::NotArm64(image.machine())));
    }
    match extract_pe_arm64_kernel(&image) {
        Ok(kernel) => Ok(Some(kernel)),
        Err(e) => Err(e),
    }
}

/// A raw arm64 image is told by the letters `ARMd` behind 56 bytes, and by a text offset of whole
/// pages.
pub proof fn law_raw_images_are_told_by_their_magic(payload: Seq<u8>)
    ensures
        is_raw_image(payload) == (payload.len() >= 64 && payload[56] == 0x41 && payload[57] == 0x52
            && payload[58] == 0x4d && payload[59] == 0x64 && le64(payload, 8) % 4096 == 0),
{
    lemma_magic_bytes();
    if payload.len() >= 64 {
        let found = payload.subrange(56, 60);
        assert(found[0] == payload[56] && found[1] == payload[57] && found[2] == payload[58]
            && found[3] == payload[59]);
        if payload[56] == 0x41 && payload[57] == 0x52 && payload[58] == 0x4d && payload[59] == 0x64 {
            assert(found =~= seq![0x41u8, 0x52u8, 0x4du8, 0x64u8]);
        }
    }
}

proof fn lemma_magic_bytes()
    ensures
        utf8("ARMd"@) == seq![0x41u8, 0x52u8, 0x4du8, 0x64u8],
{
    reveal_strlit("ARMd");
    vstd::utf8::is_ascii_chars_encode_utf8("ARMd"@);
    assert(utf8("ARMd"@) =~= seq![0x41u8, 0x52u8, 0x4du8, 0x64u8]);
}

proof fn lemma_next_match(s: Seq<u8>, from: int, pattern: Seq<u8>, at: int)
    requires
        0 <= from <= at,
        at + pattern.len() <= s.len(),
        pattern.len() > 0,
        s.subrange(at, at + pattern.len()) == pattern,
        forall|i: int| from <= i < at ==> #[trigger] s.subrange(i, i + pattern.len()) != pattern,
    ensures
        next_match(s, from, pattern) == Some(at),
    decreases at - from,
{
    if from < at {
        assert(s.subrange(from, from + pattern.len()) != pattern);
        lemma_next_match(s, from + 1, pattern, at);
    }
}

/// A kernel inside other bytes is found by its magic: where the first `ARMd` is that of a raw image,
/// the image is all that stands from its beginning on.
pub proof fn law_embedded_kernels_are_found(payload: Seq<u8>, start: int)
    requires
        0 <= start,
        start + 64 <= payload.len(),
        is_raw_image(payload.skip(start)),
        forall|i: int|
            0 <= i < start + 56 ==> #[trigger] payload.subrange(i, i + 4) != seq![
                0x41u8,
                0x52u8,
                0x4du8,
                0x64u8,
            ],
    ensures
        raw_image_in(payload) == Some(start),
{
    lemma_magic_bytes();
    let magic = utf8("ARMd"@);
    let image = payload.skip(start);
    assert(image.subrange(56, 60) == magic);
    assert(payload.subrange(start + 56, start + 60) =~= image.subrange(56, 60));
    assert forall|i: int| 0 <= i < start + 56 implies #[trigger] payload.subrange(
        i,
        i + magic.len(),
    ) != magic by {
        assert(payload.subrange(i, i + 4) != seq![0x41u8, 0x52u8, 0x4du8, 0x64u8]);
    }
    lemma_next_match(payload, 0, magic, start + 56);
}

proof fn lemma_gzipped_from(payload: Seq<u8>, from: int, at: int)
    requires
        0 <= from <= at,
        at + 2 <= payload.len(),
        payload[at] == 0x1f,
        payload[at + 1] == 0x8b,
        raw_member(gunzip_first(payload.skip(at))) is Some,
        forall|i: int|
            #![trigger payload.skip(i)]
            from <= i < at && payload[i] == 0x1f && payload[i + 1] == 0x8b ==> raw_member(
                gunzip_first(payload.skip(i)),
            ) is None,
    ensures
        gzipped_image_from(payload, from) == Some(
            (at, raw_member(gunzip_first(payload.skip(at)))->0),
        ),
    decreases at - from,
{
    lemma_first_magic(payload, from, at);
    let found = next_match(payload, from, gzip_magic())->0;
    assert(payload.subrange(found, found + 2) == gzip_magic());
    assert(payload[found] == payload.subrange(found, found + 2)[0]);
    assert(payload[found + 1] == payload.subrange(found, found + 2)[1]);
    if found < at {
        assert(raw_member(gunzip_first(payload.skip(found))) is None);
        lemma_gzipped_from(payload, found + 1, at);
    }
}

proof fn lemma_first_magic(payload: Seq<u8>, from: int, at: int)
    requires
        0 <= from <= at,
        at + 2 <= payload.len(),
        payload[at] == 0x1f,
        payload[at + 1] == 0x8b,
    ensures
        next_match(payload, from, gzip_magic()) matches Some(found) && from <= found <= at
            && payload.subrange(found, found + 2) == gzip_magic(),
    decreases at - from,
{
    assert(payload.subrange(at, at + 2) =~= gzip_magic());
    if from < at && payload.subrange(from, from + 2) != gzip_magic() {
        lemma_first_magic(payload, from + 1, at);
    }
}

/// A compressed kernel inside other bytes is found: the first gzip data that holds a raw image is
/// taken, whatever gzip data without one stands before it.
pub proof fn law_compressed_kernels_are_found(payload: Seq<u8>, at: int, image: Seq<u8>)
    requires
        0 <= at,
        at + 2 <= payload.len(),
        payload[at] == 0x1f,
        payload[at + 1] == 0x8b,
        gunzip_first(payload.skip(at)) == Ok::<Seq<u8>, Seq<char>>(image),
        is_raw_image(image),
        forall|i: int|
            #![trigger payload.skip(i)]
            0 <= i < at && payload[i] == 0x1f && payload[i + 1] == 0x8b ==> (match gunzip_first(
                payload.skip(i),
            ) {
                Ok(data) => !is_raw_image(data),
                Err(_) => true,
            }),
    ensures
        gzipped_image_from(payload, 0) == Some((at, image)),
{
    lemma_gzipped_from(payload, 0, at);
}

/// A payload is prepared by what it is: gzip data is decompressed, an image that does not start with
/// `MZ` is loaded as it is, and a kernel for another machine is refused. The kernel of a zboot image
/// is what its payload decompresses to, where that is a raw image.
pub proof fn law_payloads_are_prepared(payload: Seq<u8>)
    requires
        payload.len() >= 2,
    ensures
        ({
            let gzip = payload[0] == 0x1f && payload[1] == 0x8b;
            &&& gzip ==> (match gunzip_members(payload) {
                Ok(data) => prepared(payload) == Ok::<Option<Seq<u8>>, (KernelFault, Seq<char>)>(
                    Some(data),
                ),
                Err((_, words)) => prepared(payload) is Err,
            })
            &&& !gzip && !(payload[0] == 0x4d && payload[1] == 0x5a) ==> prepared(payload) == Ok::<
                Option<Seq<u8>>,
                (KernelFault, Seq<char>),
            >(None)
            &&& !gzip ==> (pe::image_of(payload) matches Ok(Some(image)) ==> {
                &&& image.machine != 0xaa64 ==> prepared(payload) is Err
                &&& image.machine == 0xaa64 ==> (zboot::zboot_of(payload) matches Ok(Some(inner))
                    ==> {
                    let kind = zboot::compression_named(inner.compression_name);
                    &&& kind == zboot::Compression::Gzip ==> is_kernel_of(
                        prepared(payload),
                        match gunzip_first(inner.payload) {
                            Ok(data) => Some(data),
                            Err(_) => None,
                        },
                    )
                    &&& kind == zboot::Compression::Zstd ==> is_kernel_of(
                        prepared(payload),
                        match zstd_payload(inner.payload) {
                            Ok(data) => Some(data),
                            Err(_) => None,
                        },
                    )
                    &&& kind == zboot::Compression::Unsupported ==> prepared(payload) is Err
                })
            })
        }),
{
    if gzip_magic().is_prefix_of(payload) {
        assert(payload[0] == gzip_magic()[0] && payload[1] == gzip_magic()[1]);
    }
    if payload[0] == 0x1f && payload[1] == 0x8b {
        assert(gzip_magic() =~= payload.subrange(0, 2));
    }
}

/// Whether the kernel is what a payload decompressed to: there is one where the payload could be
/// decompressed to a raw image, and none otherwise.
pub open spec fn is_kernel_of(
    kernel: Result<Option<Seq<u8>>, (KernelFault, Seq<char>)>,
    data: Option<Seq<u8>>,
) -> bool {
    match data {
        Some(image) => if is_raw_image(image) {
            kernel == Ok::<Option<Seq<u8>>, (KernelFault, Seq<char>)>(Some(image))
        } else {
            kernel is Err
        },
        None => kernel is Err,
    }
}

/// Without a zboot image the kernel is looked for in the sections: the first raw image in one is
/// taken, and only where none has one the first compressed one.
pub proof fn law_sections_are_searched_in_order(
    data: Seq<u8>,
    image: pe::ImageView,
    k: int,
    start: int,
)
    requires
        zboot::zboot_of(data) == Ok::<Option<zboot::ZbootView>, zboot::ZbootError>(None),
        0 <= k < image.sections.len(),
    ensures
        raw_image_in(image.sections[k].data) == Some(start) && (forall|i: int|
            0 <= i < k ==> raw_image_in((#[trigger] image.sections[i]).data) is None)
            ==> pe_extracted(data, image) == Ok::<Seq<u8>, (KernelFault, Seq<char>)>(
            image.sections[k].data.skip(start),
        ),
        (forall|i: int|
            0 <= i < image.sections.len() ==> raw_image_in((#[trigger] image.sections[i]).data)
                is None) && gzipped_image_from(image.sections[k].data, 0) is Some && (forall|i: int|
            0 <= i < k ==> gzipped_image_from((#[trigger] image.sections[i]).data, 0) is None)
            ==> pe_extracted(data, image) == Ok::<Seq<u8>, (KernelFault, Seq<char>)>(
            (gzipped_image_from(image.sections[k].data, 0)->Some_0).1,
        ),
        (forall|i: int|
            0 <= i < image.sections.len() ==> raw_image_in((#[trigger] image.sections[i]).data)
                is None && gzipped_image_from(image.sections[i].data, 0) is None) ==> pe_extracted(
            data,
            image,
        ) is Err,
{
    let n = image.sections.len() as int;
    if forall|i: int| 0 <= i < k ==> raw_image_in((#[trigger] image.sections[i]).data) is None {
        lemma_raw_section(image.sections, 0, k);
    }
    if forall|i: int| 0 <= i < n ==> raw_image_in((#[trigger] image.sections[i]).data) is None {
        lemma_raw_section(image.sections, 0, n);
    }
    if forall|i: int|
        0 <= i < k ==> gzipped_image_from((#[trigger] image.sections[i]).data, 0) is None {
        lemma_gzipped_section(image.sections, 0, k);
    }
    if forall|i: int|
        0 <= i < n ==> gzipped_image_from((#[trigger] image.sections[i]).data, 0) is None {
        lemma_gzipped_section(image.sections, 0, n);
    }
}

proof fn lemma_raw_section(sections: Seq<pe::SectionView>, from: int, k: int)
    requires
        0 <= from <= k <= sections.len(),
        forall|i: int| from <= i < k ==> raw_image_in((#[trigger] sections[i]).data) is None,
    ensures
        raw_section_from(sections, from) == raw_section_from(sections, k),
    decreases k - from,
{
    if from < k {
        lemma_raw_section(sections, from + 1, k);
    }
}

proof fn lemma_gzipped_section(sections: Seq<pe::SectionView>, from: int, k: int)
    requires
        0 <= from <= k <= sections.len(),
        forall|i: int|
            from <= i < k ==> gzipped_image_from((#[trigger] sections[i]).data, 0) is None,
    ensures
        gzipped_section_from(sections, from) == gzipped_section_from(sections, k),
    decreases k - from,
{
    if from < k {
        lemma_gzipped_section(sections, from + 1, k);
    }
}

} // verus!
