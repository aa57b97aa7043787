use std::io::Write;

use flate2::write::GzEncoder;
use flate2::Compression;
use pocketboot::errors::ErrorKind;
use pocketboot::fastboot::boot::{
    self, BootFault, BootHeader, HeaderKind, HeaderTail, VendorDtEntry,
};
use pocketboot::kexec::{
    accept_gzip_kernel, accept_member, accept_zboot, accept_zstd, decompress_zstd_payload,
    find_gzipped_arm64_image, find_raw_arm64_image, is_raw_arm64_image,
    prepare_kernel_payload_bytes, zstd::blocks_are_counted, KernelFault,
};
use pocketboot::pe::{Image, Part, PeError, IMAGE_FILE_MACHINE_ARM64};
use ruzstd::encoding::{compress_to_vec, CompressionLevel};

const ARM64_IMAGE_MAGIC_BYTES: &[u8; 4] = b"ARM\x64";

/// The kernel that is loaded: the prepared one, or the payload itself.
fn prepare_kernel_payload(payload: &[u8]) -> Result<Vec<u8>, String> {
    match prepare_kernel_payload_bytes(payload) {
        Ok(Some(prepared)) => Ok(prepared),
        Ok(None) => Ok(payload.to_vec()),
        Err(err) => Err(err.message()),
    }
}

#[test]
fn kexec_raw_kernel_payload_passes_through() {
    let raw = b"raw arm64 Image payload";

    let prepared = prepare_kernel_payload(raw).unwrap();

    assert_eq!(prepared, raw);
    assert!(matches!(prepare_kernel_payload_bytes(raw), Ok(None)));
}

#[test]
fn kexec_gzip_kernel_payload_decompresses() {
    let raw = b"decompressed arm64 Image payload";

    let prepared = prepare_kernel_payload(&gzip(raw)).unwrap();

    assert_eq!(prepared, raw);
}

#[test]
fn pe_gzip_kernel_payload_decompresses() {
    let raw = raw_arm64_image();
    let section = [
        b"prefix".as_slice(),
        gzip(&raw).as_slice(),
        b"padding".as_slice(),
    ]
    .concat();

    let prepared = prepare_kernel_payload(&pe_arm64(&section)).unwrap();

    assert_eq!(prepared, raw);
}

#[test]
fn zboot_gzip_kernel_payload_decompresses() {
    let raw = raw_arm64_image();

    let prepared = prepare_kernel_payload(&zboot_pe_arm64("gzip", &gzip(&raw))).unwrap();

    assert_eq!(prepared, raw);
}

#[test]
fn zboot_zstd_kernel_payload_decompresses() {
    let raw = raw_arm64_image();

    let prepared = prepare_kernel_payload(&zboot_pe_arm64("zstd", &zstd(&raw))).unwrap();

    assert_eq!(prepared, raw);
}

#[test]
fn pe_without_arm64_payload_fails() {
    let err = prepare_kernel_payload(&pe_arm64(b"not a kernel")).unwrap_err();

    assert!(
        err.contains("does not contain a supported"),
        "unexpected error: {err}"
    );
}

#[test]
fn kexec_corrupt_gzip_kernel_payload_fails() {
    let err = prepare_kernel_payload(b"\x1f\x8bnot really gzip").unwrap_err();

    assert!(
        err.contains("decompress gzip kernel image"),
        "unexpected error: {err}"
    );
}

#[test]
fn several_gzip_members_are_one_kernel() {
    let mut payload = gzip(b"first ");
    payload.extend_from_slice(&gzip(b"second"));

    assert_eq!(prepare_kernel_payload(&payload).unwrap(), b"first second");
}

#[test]
fn raw_image_in_a_section_is_found() {
    let raw = raw_arm64_image();
    let section = [b"front".as_slice(), raw.as_slice()].concat();

    assert!(is_raw_arm64_image(&raw));
    assert!(!is_raw_arm64_image(&raw[..63]));
    let (at, image) = find_raw_arm64_image(&section).unwrap();
    assert_eq!(at, 5);
    assert_eq!(image, raw);
    assert_eq!(prepare_kernel_payload(&pe_arm64(&section)).unwrap(), raw);
    assert_eq!(find_gzipped_arm64_image(&section), None);
}

#[test]
fn zboot_images_are_refused_where_they_are_unsound() {
    let raw = raw_arm64_image();
    let unknown = prepare_kernel_payload_bytes(&zboot_pe_arm64("lz4", &gzip(&raw))).unwrap_err();
    assert_eq!(
        unknown.message(),
        "unsupported zboot compression type lz4"
    );
    let corrupt = prepare_kernel_payload_bytes(&zboot_pe_arm64("gzip", b"no gzip data at all")).unwrap_err();
    assert_eq!(corrupt.fault, KernelFault::ZbootGzip);
    assert_eq!(
        corrupt.message(),
        "decompress gzip zboot payload: decompress embedded gzip kernel image: invalid gzip header"
    );
    let broken = prepare_kernel_payload_bytes(&zboot_pe_arm64("zstd", b"nothing")).unwrap_err();
    assert_eq!(broken.fault, KernelFault::ZbootZstdDecoder);
    assert!(broken.message().starts_with("create zstd decoder: "));
    let mut frame = zstd(&raw);
    frame.truncate(frame.len() - 8);
    let short = prepare_kernel_payload_bytes(&zboot_pe_arm64("zstd", &frame)).unwrap_err();
    assert_eq!(short.fault, KernelFault::ZbootZstd);
    assert!(short.message().starts_with("decompress zstd payload: "));
    let other = prepare_kernel_payload_bytes(&zboot_pe_arm64("gzip", &gzip(b"text"))).unwrap_err();
    assert_eq!(
        other.message(),
        "zboot payload did not decompress to a raw arm64 Image"
    );
}

#[test]
fn pe_for_another_machine_fails() {
    let mut image = pe_arm64(b"not a kernel");
    image[0x84..0x86].copy_from_slice(&0x8664u16.to_le_bytes());
    let err = prepare_kernel_payload_bytes(&image).unwrap_err();
    assert_eq!(err.fault, KernelFault::NotArm64(0x8664));
    assert_eq!(
        err.message(),
        "PE/COFF image is not ARM64: machine=0x8664"
    );
}

#[test]
fn boot_raw_kernel_payload_passes_through() {
    let raw = b"raw arm64 Image payload";

    let prepared = boot::prepare_kernel_payload(raw.to_vec()).unwrap();

    assert_eq!(prepared, raw);
}

#[test]
fn boot_gzip_kernel_payload_decompresses() {
    let raw = b"decompressed arm64 Image payload";

    let prepared = boot::prepare_kernel_payload(gzip(raw)).unwrap();

    assert_eq!(prepared, raw);
}

#[test]
fn boot_corrupt_gzip_kernel_payload_fails() {
    let err = boot::prepare_kernel_payload(b"\x1f\x8bnot really gzip".to_vec()).unwrap_err();

    assert!(
        err.message()
            .contains("decompress gzip boot kernel section"),
        "unexpected error: {}",
        err.message()
    );
    assert_eq!(err.fault, BootFault::Gzip(ErrorKind::InvalidInput));
    assert_eq!(err.kind(), ErrorKind::InvalidInput);
    let mut cut = gzip(b"kernel image");
    cut.truncate(cut.len() - 4);
    let err = boot::prepare_kernel_payload(cut).unwrap_err();
    assert_eq!(err.kind(), ErrorKind::UnexpectedEof);
}

/// A boot image of the first version, in pages of 2048 bytes.
fn boot_image(kernel: &[u8], ramdisk: &[u8], cmdline: &[u8]) -> Vec<u8> {
    let mut header = vec![0u8; 2048];
    header[..8].copy_from_slice(b"ANDROID!");
    header[8..12].copy_from_slice(&(kernel.len() as u32).to_le_bytes());
    header[16..20].copy_from_slice(&(ramdisk.len() as u32).to_le_bytes());
    header[36..40].copy_from_slice(&2048u32.to_le_bytes());
    header[64..64 + cmdline.len()].copy_from_slice(cmdline);
    let mut image = header;
    for part in [kernel, ramdisk] {
        image.extend_from_slice(part);
        while image.len() % 2048 != 0 {
            image.push(0);
        }
    }
    image
}

#[test]
fn android_boot_images_are_taken_apart() {
    let kernel = vec![7u8; 3000];
    let image = boot_image(&kernel, b"ramdisk", b"console=ttyS0\0");
    let parts = boot::prepare_boot_image(&image).unwrap();
    assert_eq!(parts.kernel, kernel);
    assert_eq!(parts.initrd.as_deref(), Some(b"ramdisk".as_slice()));
    assert_eq!(parts.dtb, None);
    assert_eq!(parts.cmdline, "console=ttyS0");

    let gzipped = boot_image(&gzip(b"kernel"), b"", b"");
    let parts = boot::prepare_boot_image(&gzipped).unwrap();
    assert_eq!(parts.kernel, b"kernel");
    assert_eq!(parts.initrd, None);
    assert_eq!(parts.cmdline, "");
}

#[test]
fn unsound_android_boot_images_are_refused() {
    let err = boot::prepare_boot_image(b"no image").unwrap_err();
    assert_eq!(err.fault, BootFault::Parse);
    assert!(err.message().starts_with("parse Android boot image: "));
    let empty = boot_image(b"", b"ramdisk", b"");
    let err = boot::prepare_boot_image(&empty).unwrap_err();
    assert_eq!(err.fault, BootFault::NoKernel);
    let bad = boot_image(b"kernel", b"", b"\xff\xfe\0");
    let err = boot::prepare_boot_image(&bad).unwrap_err();
    assert_eq!(err.fault, BootFault::Cmdline);
    for (image, fault) in [
        (&empty, BootFault::NoKernel),
        (&bad, BootFault::Cmdline),
        (&boot_image(b"kernel", b"", b""), BootFault::PageSize),
    ] {
        let mut unpaged = image.clone();
        unpaged[36..40].fill(0);
        let err = boot::prepare_boot_image(&unpaged).unwrap_err();
        assert_eq!(err.fault, fault);
    }
}

#[test]
fn ignores_non_pe_images() {
    assert!(Image::parse(b"not PE").unwrap().is_none());
}

#[test]
fn parses_arm64_pe_sections() {
    let image = test_pe(b"payload");
    let pe = Image::parse(&image).unwrap().unwrap();

    assert_eq!(pe.machine(), IMAGE_FILE_MACHINE_ARM64);
    assert_eq!(pe.sections().len(), 1);
    assert_eq!(pe.sections()[0].name(), ".text");
    assert_eq!(pe.sections()[0].data(), b"payload");
}

#[test]
fn rejects_out_of_bounds_sections() {
    let mut image = test_pe(b"payload");
    let section_header = section_header_offset();
    image[section_header + 16..section_header + 20].copy_from_slice(&4096u32.to_le_bytes());

    let err = Image::parse(&image).unwrap_err();

    assert!(err.message().contains("section data exceeds"));
    assert_eq!(err, PeError::Exceeds(Part::SectionData));
}

#[test]
fn unsound_pe_images_are_refused() {
    let mut unsigned = test_pe(b"payload");
    unsigned[0x80] = 0;
    assert_eq!(Image::parse(&unsigned).unwrap_err(), PeError::NoSignature);
    let mut other = test_pe(b"payload");
    other[0x98..0x9a].copy_from_slice(&0x10bu16.to_le_bytes());
    assert_eq!(
        Image::parse(&other).unwrap_err(),
        PeError::NotPe32Plus(0x10b)
    );
    let whole = test_pe(b"payload");
    assert_eq!(
        Image::parse(&whole[..0x82]).unwrap_err(),
        PeError::Exceeds(Part::Signature)
    );
}

fn test_pe(section_data: &[u8]) -> Vec<u8> {
    pe_with(section_data, b".text\0\0\0")
}

fn section_header_offset() -> usize {
    0x80 + 4 + 20 + 0xf0
}

fn gzip(data: &[u8]) -> Vec<u8> {
    let mut encoder = GzEncoder::new(Vec::new(), Compression::default());
    encoder.write_all(data).unwrap();
    encoder.finish().unwrap()
}

fn zstd(data: &[u8]) -> Vec<u8> {
    compress_to_vec(data, CompressionLevel::Fastest)
}

fn raw_arm64_image() -> Vec<u8> {
    let mut image = vec![0; 128];
    let image_size = image.len() as u64;
    image[8..16].copy_from_slice(&0x80000u64.to_le_bytes());
    image[16..24].copy_from_slice(&image_size.to_le_bytes());
    image[56..60].copy_from_slice(ARM64_IMAGE_MAGIC_BYTES);
    image
}

fn pe_arm64(section_data: &[u8]) -> Vec<u8> {
    pe_with(section_data, b".gzdata\0")
}

fn pe_with(section_data: &[u8], name: &[u8; 8]) -> Vec<u8> {
    const PE_OFFSET: usize = 0x80;
    const COFF_HEADER_SIZE: usize = 20;
    const OPTIONAL_HEADER_SIZE: usize = 0xf0;
    const SECTION_HEADER_SIZE: usize = 40;
    const PE32_PLUS_MAGIC: u16 = 0x20b;
    const PE_SIGNATURE: &[u8; 4] = b"PE\0\0";

    let section_header_offset =
        PE_OFFSET + PE_SIGNATURE.len() + COFF_HEADER_SIZE + OPTIONAL_HEADER_SIZE;
    let raw_offset = section_header_offset + SECTION_HEADER_SIZE;
    let mut image = vec![0; raw_offset + section_data.len()];

    image[..2].copy_from_slice(b"MZ");
    image[0x3c..0x40].copy_from_slice(&(PE_OFFSET as u32).to_le_bytes());
    image[PE_OFFSET..PE_OFFSET + PE_SIGNATURE.len()].copy_from_slice(PE_SIGNATURE);

    let coff_offset = PE_OFFSET + PE_SIGNATURE.len();
    image[coff_offset..coff_offset + 2].copy_from_slice(&IMAGE_FILE_MACHINE_ARM64.to_le_bytes());
    image[coff_offset + 2..coff_offset + 4].copy_from_slice(&1u16.to_le_bytes());
    image[coff_offset + 16..coff_offset + 18]
        .copy_from_slice(&(OPTIONAL_HEADER_SIZE as u16).to_le_bytes());

    let optional_header_offset = coff_offset + COFF_HEADER_SIZE;
    image[optional_header_offset..optional_header_offset + 2]
        .copy_from_slice(&PE32_PLUS_MAGIC.to_le_bytes());

    image[section_header_offset..section_header_offset + 8].copy_from_slice(name);
    image[section_header_offset + 16..section_header_offset + 20]
        .copy_from_slice(&(section_data.len() as u32).to_le_bytes());
    image[section_header_offset + 20..section_header_offset + 24]
        .copy_from_slice(&(raw_offset as u32).to_le_bytes());
    image[raw_offset..raw_offset + section_data.len()].copy_from_slice(section_data);

    image
}

fn zboot_pe_arm64(compression: &str, payload: &[u8]) -> Vec<u8> {
    const LINUX_PE_MAGIC: &[u8; 4] = &0x8182_23cdu32.to_le_bytes();
    const LINUX_PE_MAGIC_OFFSET: usize = 0x38;
    const PAYLOAD_OFFSET_OFFSET: usize = 8;
    const PAYLOAD_SIZE_OFFSET: usize = 12;
    const COMPRESSION_OFFSET: usize = 24;
    const COMPRESSION_LEN: usize = 8;

    let mut image = pe_arm64(payload);
    let payload_offset = image.len() - payload.len();

    image[..4].copy_from_slice(b"MZ\0\0");
    image[4..8].copy_from_slice(b"zimg");
    image[PAYLOAD_OFFSET_OFFSET..PAYLOAD_OFFSET_OFFSET + 4]
        .copy_from_slice(&(payload_offset as u32).to_le_bytes());
    image[PAYLOAD_SIZE_OFFSET..PAYLOAD_SIZE_OFFSET + 4]
        .copy_from_slice(&(payload.len() as u32).to_le_bytes());
    let compression = compression.as_bytes();
    assert!(compression.len() < COMPRESSION_LEN);
    image[COMPRESSION_OFFSET..COMPRESSION_OFFSET + compression.len()]
        .copy_from_slice(compression);
    image[LINUX_PE_MAGIC_OFFSET..LINUX_PE_MAGIC_OFFSET + LINUX_PE_MAGIC.len()]
        .copy_from_slice(LINUX_PE_MAGIC);

    image
}

#[test]
fn decompressed_payloads_are_judged() {
    let raw = raw_arm64_image();
    assert_eq!(accept_member(Ok(raw.clone())), Some(raw.clone()));
    assert_eq!(accept_member(Ok(b"text".to_vec())), None);
    assert_eq!(accept_member(Err(String::from("broken"))), None);

    assert_eq!(
        accept_zboot(Ok(raw.clone()), KernelFault::ZbootGzip).unwrap(),
        raw
    );
    let err = accept_zboot(Err(String::from("broken")), KernelFault::ZbootGzip).unwrap_err();
    assert_eq!(err.fault, KernelFault::ZbootGzip);
    assert_eq!(err.detail, "broken");
    let err = accept_zstd(Err((false, String::from("broken")))).unwrap_err();
    assert_eq!(err.message(), "create zstd decoder: broken");
    let err = accept_zstd(Err((true, String::from("broken")))).unwrap_err();
    assert_eq!(err.message(), "decompress zstd payload: broken");
    let err = accept_zstd(Ok(b"text".to_vec())).unwrap_err();
    assert_eq!(err.fault, KernelFault::ZbootNotRaw);
    assert_eq!(err.detail, "");

    assert_eq!(accept_gzip_kernel(Ok(vec![1, 2])).unwrap(), Some(vec![1, 2]));
    let err = accept_gzip_kernel(Err((ErrorKind::InvalidInput, String::from("broken")))).unwrap_err();
    assert_eq!(err.message(), "decompress gzip kernel image: broken");
    let err = boot::accept_kernel(Err((ErrorKind::UnexpectedEof, String::from("broken"))))
        .unwrap_err();
    assert_eq!(err.kind(), ErrorKind::UnexpectedEof);
    assert_eq!(
        err.message(),
        "decompress gzip boot kernel section: broken"
    );
}

#[test]
fn boot_images_are_split_by_their_header() {
    let header = BootHeader {
        kernel_size: 3,
        ramdisk_size: 2,
        kind: HeaderKind::Old {
            second_size: 0,
            page_size: 2048,
            tail: HeaderTail::V2(1, 4),
        },
        cmdline: b"quiet \0rest".to_vec(),
    };
    assert_eq!(header.kernel_position(), 2048);
    assert_eq!(header.ramdisk_position(), 4096);
    assert_eq!(header.boot_dtb_section(), Some((8192, 4)));
    let mut image = vec![0u8; 8196];
    image[2048..2051].copy_from_slice(b"ker");
    image[4096..4098].copy_from_slice(b"rd");
    image[8192..].copy_from_slice(b"tree");
    let parts = boot::split_boot_image(&header, &image, None).unwrap();
    assert_eq!(parts.kernel, b"ker");
    assert_eq!(parts.initrd.as_deref(), Some(b"rd".as_slice()));
    assert_eq!(parts.dtb.as_deref(), Some(b"tree".as_slice()));
    assert_eq!(parts.cmdline, "quiet");

    let err = boot::split_boot_image(&header, &image[..8195], None).unwrap_err();
    assert_eq!(err.message(), "boot image boot-dtb section is truncated");
    let err = boot::split_boot_image(&header, &image[..4097], None).unwrap_err();
    assert_eq!(
        err.message(),
        "boot image boot-ramdisk section is truncated"
    );
    let err = boot::split_boot_image(&header, &image[..2050], None).unwrap_err();
    assert_eq!(err.message(), "boot image boot-kernel section is truncated");
}

/// A frame of four raw bytes and one compressed block: no literals, `count` matches, and `length`
/// bytes that tell them.
fn frame_with_matches(count: u32, length: usize) -> Vec<u8> {
    let mut frame = vec![0x28, 0xb5, 0x2f, 0xfd, 0x20, 4];
    frame.extend_from_slice(&[4 << 3, 0, 0]);
    frame.extend_from_slice(b"abcd");
    let size = 5 + length as u32;
    let header = size << 3 | 2 << 1 | 1;
    frame.extend_from_slice(&header.to_le_bytes()[..3]);
    let more = (count - 0x7f00) as u16;
    frame.extend_from_slice(&[0, 255, more as u8, (more >> 8) as u8, 0x54]);
    frame.extend(std::iter::repeat(0xff).take(length));
    frame
}

#[test]
fn frames_that_regenerate_too_much_are_not_tried() {
    assert!(!blocks_are_counted(&frame_with_matches(32768, 65540)));
    assert!(!blocks_are_counted(&frame_with_matches(32760, 65520)));
    assert!(blocks_are_counted(&frame_with_matches(32760, 65519)));
    assert!(blocks_are_counted(&frame_with_matches(32759, 65540)));
    assert!(blocks_are_counted(&frame_with_matches(98047, 65485)));
    assert!(!blocks_are_counted(&frame_with_matches(98047, 65486)));
    assert!(blocks_are_counted(b""));
    assert!(blocks_are_counted(b"nothing"));
    let cut = frame_with_matches(32768, 65540);
    assert!(blocks_are_counted(&cut[..cut.len() - 1]));

    let frame = frame_with_matches(32768, 65540);
    assert_eq!(
        decompress_zstd_payload(&frame),
        Err((true, "block regenerates too many bytes".to_string()))
    );
    let err = prepare_kernel_payload_bytes(&zboot_pe_arm64("zstd", &frame)).unwrap_err();
    assert_eq!(
        err.message(),
        "decompress zstd payload: block regenerates too many bytes"
    );
}

#[test]
fn frames_of_many_blocks_are_decompressed() {
    let mut data = Vec::new();
    let mut word: u32 = 1;
    while data.len() < 400_000 {
        word = word.wrapping_mul(1_664_525).wrapping_add(1_013_904_223);
        data.push((word >> 28) as u8);
        if word % 11 == 0 {
            data.extend_from_slice(b"the same words again");
        }
    }
    let frame = zstd(&data);
    assert!(blocks_are_counted(&frame));
    assert_eq!(decompress_zstd_payload(&frame), Ok(data));
    assert_eq!(decompress_zstd_payload(&zstd(b"")), Ok(Vec::new()));
}

#[test]
fn trees_are_taken_from_the_list_of_a_vendor() {
    let header = BootHeader {
        kernel_size: 3,
        ramdisk_size: 0,
        kind: HeaderKind::Old {
            second_size: 0,
            page_size: 2048,
            tail: HeaderTail::VendorDt(4096, 12),
        },
        cmdline: Vec::new(),
    };
    assert_eq!(header.boot_dtb_section(), None);
    assert_eq!(header.vendor_dt_section(), Some((4096, 12)));
    let mut image = vec![0u8; 4108];
    image[2048..2051].copy_from_slice(b"ker");
    image[4096..].copy_from_slice(b"QCDTxxxxtree");
    let entry = VendorDtEntry::Range(8, 12);
    let parts = boot::split_boot_image(&header, &image, Some(&entry)).unwrap();
    assert_eq!(parts.kernel, b"ker");
    assert_eq!(parts.dtb.as_deref(), Some(b"tree".as_slice()));

    let refused = VendorDtEntry::SelectFailed("two entries".to_string());
    let err = boot::split_boot_image(&header, &image, Some(&refused)).unwrap_err();
    assert_eq!(err.fault, BootFault::VendorDt);
    assert_eq!(err.kind(), ErrorKind::InvalidData);
    assert_eq!(
        err.message(),
        "select boot image QCDT vendor-dt entry: two entries"
    );
    let err = boot::split_boot_image(&header, &image[..4100], Some(&entry)).unwrap_err();
    assert_eq!(err.kind(), ErrorKind::UnexpectedEof);
    assert_eq!(
        err.message(),
        "boot image vendor-dt section is truncated: failed to fill whole buffer"
    );
    image[4096] = b'X';
    let err = boot::split_boot_image(&header, &image, Some(&entry)).unwrap_err();
    assert_eq!(
        err.message(),
        "unsupported boot image vendor-dt magic: [88, 67, 68, 84]"
    );
}
