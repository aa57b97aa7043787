//! Linux EFI zboot images: a compressed kernel behind a small PE/COFF stub.
use vstd::prelude::*;
use vstd::string::*;

use crate::bytes::{
    bytes_at, find_byte, le32, le_u32, lemma_next_byte, matches_at, next_byte, same_bytes, utf8,
};
use crate::text::{decode_lossy, utf8_lossy};

verus! {

/// The number in the DOS header of a Linux PE image.
pub const LINUX_PE_MAGIC: u32 = 0x8182_23cd;

/// Length of the field that names the compression.
pub const COMPRESSION_LEN: usize = 8;

/// How the kernel is compressed.
#[derive(Clone, Copy, Debug, PartialEq, Eq, Structural)]
pub enum Compression {
    Gzip,
    Zstd,
    Unsupported,
}

/// Why an image was refused: its payload goes on behind its end.
#[derive(Clone, Copy, Debug, PartialEq, Eq, Structural)]
pub enum ZbootError {
    PayloadExceedsImage,
}

/// What an image is to its reader.
pub struct ZbootView {
    pub payload_offset: int,
    pub payload: Seq<u8>,
    pub compression_name: Seq<u8>,
}

/// A zboot image.
#[derive(Debug)]
pub struct Image<'a> {
    payload_offset: usize,
    payload: &'a [u8],
    compression_name: &'a [u8],
}

impl<'a> View for Image<'a> {
    type V = ZbootView;

    closed spec fn view(&self) -> ZbootView {
        ZbootView {
            payload_offset: self.payload_offset as int,
            payload: self.payload@,
            compression_name: self.compression_name@,
        }
    }
}

/// Whether the header marks a zboot image.
pub open spec fn is_zboot(data: Seq<u8>) -> bool {
    &&& data.len() >= 0x3c
    &&& data[0] == 0x4d && data[1] == 0x5a
    &&& bytes_at(data, 4, utf8("zimg"@))
    &&& le32(data, 0x38) == LINUX_PE_MAGIC
}

/// The zboot image in `data`, if it is one.
pub open spec fn zboot_of(data: Seq<u8>) -> Result<Option<ZbootView>, ZbootError> {
    if !is_zboot(data) {
        Ok(None)
    } else {
        let offset = le32(data, 8);
        let size = le32(data, 12);
        let name = data.subrange(24, 32);
        if offset + size > data.len() {
            Err(ZbootError::PayloadExceedsImage)
        } else {
            Ok(
                Some(
                    ZbootView {
                        payload_offset: offset as int,
                        payload: data.subrange(offset as int, offset + size),
                        compression_name: name.take(next_byte(name, 0, 0)),
                    },
                ),
            )
        }
    }
}

/// The compression that a name stands for.
pub open spec fn compression_named(name: Seq<u8>) -> Compression {
    if name == utf8("gzip"@) {
        Compression::Gzip
    } else if name == utf8("zstd"@) || name == utf8("zstd22"@) {
        Compression::Zstd
    } else {
        Compression::Unsupported
    }
}

impl<'a> Image<'a> {
    /// The zboot image in `data`, if it is one.
    pub fn parse(data: &'a [u8]) -> (r: Result<Option<Image<'a>>, ZbootError>)
        ensures
            zboot_of(data@) == (match r {
                Ok(Some(image)) => Ok(Some(image@)),
                Ok(None) => Ok(None),
                Err(e) => Err(e),
            }),
    {
        if data.len() < 0x3c || data[0] != 0x4d || data[1] != 0x5a || !matches_at(
            data,
            4,
            "zimg".as_bytes(),
        ) || le_u32(data, 0x38) != LINUX_PE_MAGIC {
            return Ok(None);
        }
        let offset = le_u32(data, 8);
        let size = le_u32(data, 12);
        if offset as u64 + size as u64 > data.len() as u64 {
            return Err(ZbootError::PayloadExceedsImage);
        }
        let name = &data[24..24 + COMPRESSION_LEN];
        let end = find_byte(name, 0, 0);
        assert(name@.subrange(0, end as int) =~= name@.take(end as int));
        Ok(
            Some(
                Image {
                    payload_offset: offset as usize,
                    payload: &data[offset as usize..offset as usize + size as usize],
                    compression_name: &name[0..end],
                },
            ),
        )
    }

    /// How the kernel is compressed.
    pub fn compression(&self) -> (c: Compression)
        ensures
            c == compression_named(self@.compression_name),
    {
        if same_bytes(self.compression_name, "gzip".as_bytes()) {
            Compression::Gzip
        } else if same_bytes(self.compression_name, "zstd".as_bytes()) || same_bytes(
            self.compression_name,
            "zstd22".as_bytes(),
        ) {
            Compression::Zstd
        } else {
            Compression::Unsupported
        }
    }

    /// The name of the compression.
    pub fn compression_name(&self) -> (s: String)
        ensures
            s@ == utf8_lossy(self@.compression_name),
    {
        decode_lossy(self.compression_name)
    }

    /// The compressed kernel.
    pub fn payload(&self) -> (p: &'a [u8])
        ensures
            p@ == self@.payload,
    {
        self.payload
    }

    /// Where the compressed kernel stands in the image.
    pub fn payload_offset(&self) -> (offset: usize)
        ensures
            offset == self@.payload_offset,
    {
        self.payload_offset
    }
}

/// A zboot image is told by its letters and its number, and its kernel stands where its header says:
/// behind `MZ` and `zimg` come the place and the size of the compressed kernel, and the name of the
/// compression stands in eight bytes from 24 on.
pub proof fn law_zboot_images_are_read(data: Seq<u8>)
    requires
        data.len() >= 0x3c,
    ensures
        ({
            let marked = data[0] == 0x4d && data[1] == 0x5a && data.subrange(4, 8) == seq![
                0x7au8,
                0x69u8,
                0x6du8,
                0x67u8,
            ] && le32(data, 56) == 0x8182_23cd;
            let place = le32(data, 8) as int;
            let end = place + le32(data, 12);
            &&& !marked ==> zboot_of(data) == Ok::<Option<ZbootView>, ZbootError>(None)
            &&& marked && end > data.len() ==> zboot_of(data) is Err
            &&& marked && end <= data.len() ==> (zboot_of(data) matches Ok(Some(image))
                && image.payload == data.subrange(place, end) && image.payload_offset == place)
        }),
{
    reveal_strlit("zimg");
    vstd::utf8::is_ascii_chars_encode_utf8("zimg"@);
    assert(utf8("zimg"@) =~= seq![0x7au8, 0x69u8, 0x6du8, 0x67u8]);
}

/// The name of the compression is what stands in its field before the first zero byte: `gzip`, and
/// `zstd` or `zstd22`, are known.
pub proof fn law_compressions_are_told_by_name(data: Seq<u8>)
    requires
        zboot_of(data) matches Ok(Some(_)),
    ensures
        ({
            let found = compression_named(zboot_of(data)->Ok_0->0.compression_name);
            &&& data.subrange(24, 29) == seq![0x67u8, 0x7au8, 0x69u8, 0x70u8, 0u8] ==> found
                == Compression::Gzip
            &&& data.subrange(24, 29) == seq![0x7au8, 0x73u8, 0x74u8, 0x64u8, 0u8] ==> found
                == Compression::Zstd
            &&& data.subrange(24, 31) == seq![
                0x7au8,
                0x73u8,
                0x74u8,
                0x64u8,
                0x32u8,
                0x32u8,
                0u8,
            ] ==> found == Compression::Zstd
            &&& data[24] != 0x67 && data[24] != 0x7a ==> found == Compression::Unsupported
        }),
{
    reveal_strlit("gzip");
    reveal_strlit("zstd");
    reveal_strlit("zstd22");
    vstd::utf8::is_ascii_chars_encode_utf8("gzip"@);
    vstd::utf8::is_ascii_chars_encode_utf8("zstd"@);
    vstd::utf8::is_ascii_chars_encode_utf8("zstd22"@);
    assert(utf8("gzip"@) =~= seq![0x67u8, 0x7au8, 0x69u8, 0x70u8]);
    assert(utf8("zstd"@) =~= seq![0x7au8, 0x73u8, 0x74u8, 0x64u8]);
    assert(utf8("zstd22"@) =~= seq![0x7au8, 0x73u8, 0x74u8, 0x64u8, 0x32u8, 0x32u8]);
    let name = data.subrange(24, 32);
    lemma_next_byte(name, 0, 0u8);
    let end = next_byte(name, 0, 0u8);
    let five = data.subrange(24, 29);
    let seven = data.subrange(24, 31);
    assert forall|i: int| 0 <= i < 5 implies #[trigger] five[i] == name[i] by {}
    assert forall|i: int| 0 <= i < 7 implies #[trigger] seven[i] == name[i] by {}
    let found = name.take(end);
    if five == seq![0x67u8, 0x7au8, 0x69u8, 0x70u8, 0u8] {
        assert(name[0] == five[0] && name[1] == five[1] && name[2] == five[2] && name[3] == five[3]
            && name[4] == five[4]);
        assert(end == 4);
        assert(found =~= utf8("gzip"@));
    }
    if five == seq![0x7au8, 0x73u8, 0x74u8, 0x64u8, 0u8] {
        assert(name[0] == five[0] && name[1] == five[1] && name[2] == five[2] && name[3] == five[3]
            && name[4] == five[4]);
        assert(end == 4);
        assert(found =~= utf8("zstd"@));
        assert(found[0] == 0x7a && utf8("gzip"@)[0] == 0x67);
    }
    if seven == seq![0x7au8, 0x73u8, 0x74u8, 0x64u8, 0x32u8, 0x32u8, 0u8] {
        assert(name[0] == seven[0] && name[1] == seven[1] && name[2] == seven[2] && name[3]
            == seven[3] && name[4] == seven[4] && name[5] == seven[5] && name[6] == seven[6]);
        assert(end == 6);
        assert(found =~= utf8("zstd22"@));
        assert(found[0] == 0x7a && utf8("gzip"@)[0] == 0x67);
    }
    assert(name[0] == data[24]);
    if found.len() > 0 {
        assert(found[0] == name[0]);
    }
    assert(utf8("gzip"@)[0] == 0x67 && utf8("zstd"@)[0] == 0x7a && utf8("zstd22"@)[0] == 0x7a);
}

} // verus!
