//! PE/COFF images.
use vstd::prelude::*;
use vstd::string::*;

use crate::bytes::{find_byte, le16, le32, le_u16, le_u32, next_byte};
use crate::collect::{collected, lemma_collected_failure, lemma_collected_success};
use crate::text::{cat, decode_lossy, hex, hex_padded, owned, padded, utf8_lossy};

verus! {

/// The machine number of 64-bit Arm.
pub const IMAGE_FILE_MACHINE_ARM64: u16 = 0xaa64;

/// The optional header's number for a 64-bit image.
pub const PE32_PLUS_MAGIC: u16 = 0x20b;

/// Where the offset of the PE signature stands.
pub const DOS_E_LFANEW_OFFSET: usize = 0x3c;

/// Length of the COFF header.
pub const COFF_HEADER_SIZE: usize = 20;

/// Length of one entry of the section table.
pub const SECTION_HEADER_SIZE: usize = 40;

/// A part of an image that has to lie inside it.
#[derive(Clone, Copy, Debug, PartialEq, Eq, Structural)]
pub enum Part {
    SignatureOffset,
    Signature,
    CoffHeader,
    OptionalHeader,
    OptionalMagic,
    SectionTable,
    SectionData,
}

impl Part {
    /// The name of the part.
    pub open spec fn words(self) -> Seq<char> {
        match self {
            Part::SignatureOffset => "DOS e_lfanew"@,
            Part::Signature => "PE signature"@,
            Part::CoffHeader => "COFF header"@,
            Part::OptionalHeader => "optional header"@,
            Part::OptionalMagic => "optional header magic"@,
            Part::SectionTable => "section table"@,
            Part::SectionData => "section data"@,
        }
    }

    /// The name of the part.
    pub fn describe(self) -> (s: &'static str)
        ensures
            s@ == self.words(),
    {
        match self {
            Part::SignatureOffset => "DOS e_lfanew",
            Part::Signature => "PE signature",
            Part::CoffHeader => "COFF header",
            Part::OptionalHeader => "optional header",
            Part::OptionalMagic => "optional header magic",
            Part::SectionTable => "section table",
            Part::SectionData => "section data",
        }
    }
}

/// Why an image was refused.
#[derive(Clone, Copy, Debug, PartialEq, Eq, Structural)]
pub enum PeError {
    /// The end of the part cannot be told in an address.
    Overflow(Part),
    /// The part goes on behind the end of the image.
    Exceeds(Part),
    NoSignature,
    NotPe32Plus(u16),
}

impl PeError {
    /// The error in words.
    pub open spec fn words(self) -> Seq<char> {
        match self {
            PeError::Overflow(part) => part.words() + " offset overflows"@,
            PeError::Exceeds(part) => part.words() + " exceeds PE image"@,
            PeError::NoSignature => "MZ image does not contain a PE/COFF signature"@,
            PeError::NotPe32Plus(magic) => "PE/COFF optional header is not PE32+: 0x"@ + padded(
                hex(magic as int),
                4,
                '0',
            ),
        }
    }

    /// The error in words.
    pub fn message(self) -> (s: String)
        ensures
            s@ == self.words(),
    {
        match self {
            PeError::Overflow(part) => cat(part.describe(), " offset overflows"),
            PeError::Exceeds(part) => cat(part.describe(), " exceeds PE image"),
            PeError::NoSignature => owned("MZ image does not contain a PE/COFF signature"),
            PeError::NotPe32Plus(magic) => {
                let digits = hex_padded(magic as u64, 4);
                cat("PE/COFF optional header is not PE32+: 0x", digits.as_str())
            },
        }
    }
}

/// What a section is to the reader of an image.
pub struct SectionView {
    pub name: Seq<u8>,
    pub data: Seq<u8>,
    pub raw_offset: int,
}

/// What an image is to its reader.
pub struct ImageView {
    pub machine: u16,
    pub sections: Seq<SectionView>,
}

/// A section of an image.
#[derive(Debug)]
pub struct Section<'a> {
    name: &'a [u8],
    data: &'a [u8],
    raw_offset: usize,
}

/// A PE/COFF image.
#[derive(Debug)]
pub struct Image<'a> {
    data: &'a [u8],
    machine: u16,
    sections: Vec<Section<'a>>,
}

impl<'a> View for Section<'a> {
    type V = SectionView;

    closed spec fn view(&self) -> SectionView {
        SectionView { name: self.name@, data: self.data@, raw_offset: self.raw_offset as int }
    }
}

/// The views of a list of sections.
pub open spec fn section_views(v: Seq<Section<'_>>) -> Seq<SectionView> {
    Seq::new(v.len(), |i: int| v[i]@)
}

impl<'a> View for Image<'a> {
    type V = ImageView;

    closed spec fn view(&self) -> ImageView {
        ImageView { machine: self.machine, sections: section_views(self.sections@) }
    }
}

/// The `size` bytes at `offset`.
pub open spec fn part_at(data: Seq<u8>, offset: int, size: int, part: Part) -> Result<
    Seq<u8>,
    PeError,
> {
    if offset + size > usize::MAX {
        Err(PeError::Overflow(part))
    } else if offset + size > data.len() {
        Err(PeError::Exceeds(part))
    } else {
        Ok(data.subrange(offset, offset + size))
    }
}

/// The `size` bytes at `offset`.
pub fn checked_slice<'a>(data: &'a [u8], offset: usize, size: usize, part: Part) -> (r: Result<
    &'a [u8],
    PeError,
>)
    ensures
        part_at(data@, offset as int, size as int, part) == (match r {
            Ok(s) => Ok(s@),
            Err(e) => Err(e),
        }),
{
    if size > usize::MAX - offset {
        return Err(PeError::Overflow(part));
    }
    if offset + size > data.len() {
        return Err(PeError::Exceeds(part));
    }
    Ok(&data[offset..offset + size])
}

/// The section that entry `index` of the table at `table` describes.
pub open spec fn section_at(data: Seq<u8>, table: int, index: int) -> Result<
    SectionView,
    PeError,
> {
    let entry = table + index * 40;
    let size = le32(data, entry + 16);
    let offset = le32(data, entry + 20);
    match part_at(data, offset as int, size as int, Part::SectionData) {
        Err(e) => Err(e),
        Ok(contents) => Ok(
            SectionView {
                name: data.subrange(entry, entry + 8),
                data: contents,
                raw_offset: offset as int,
            },
        ),
    }
}

/// The sections of the table at `table`.
pub open spec fn section_reader(data: Seq<u8>, table: int) -> spec_fn(int) -> Result<
    SectionView,
    PeError,
> {
    |index: int| section_at(data, table, index)
}

/// The image whose PE signature stands at `pe_offset`.
pub open spec fn image_at(data: Seq<u8>, pe_offset: int) -> Result<ImageView, PeError> {
    let coff = pe_offset + 4;
    let count = le16(data, coff + 2);
    let optional_size = le16(data, coff + 16);
    let optional = coff + 20;
    let table = optional + optional_size;
    match part_at(data, pe_offset, 4, Part::Signature) {
        Err(e) => Err(e),
        Ok(signature) => if signature != seq![0x50u8, 0x45u8, 0u8, 0u8] {
            Err(PeError::NoSignature)
        } else {
            match part_at(data, coff, 20, Part::CoffHeader) {
                Err(e) => Err(e),
                Ok(_) => match part_at(data, optional, optional_size as int, Part::OptionalHeader) {
                    Err(e) => Err(e),
                    Ok(_) => match part_at(data, optional, 2, Part::OptionalMagic) {
                        Err(e) => Err(e),
                        Ok(_) => if le16(data, optional) != PE32_PLUS_MAGIC {
                            Err(PeError::NotPe32Plus(le16(data, optional)))
                        } else {
                            match part_at(data, table, count * 40, Part::SectionTable) {
                                Err(e) => Err(e),
                                Ok(_) => match collected(section_reader(data, table), count as int) {
                                    Err(e) => Err(e),
                                    Ok(sections) => Ok(
                                        ImageView { machine: le16(data, coff), sections },
                                    ),
                                },
                            }
                        },
                    },
                },
            }
        },
    }
}

/// The image in `data`: nothing unless it starts with `MZ`.
pub open spec fn image_of(data: Seq<u8>) -> Result<Option<ImageView>, PeError> {
    if !(data.len() >= 2 && data[0] == 0x4d && data[1] == 0x5a) {
        Ok(None)
    } else if data.len() < 0x40 {
        Err(PeError::Exceeds(Part::SignatureOffset))
    } else {
        match image_at(data, le32(data, 0x3c) as int) {
            Err(e) => Err(e),
            Ok(image) => Ok(Some(image)),
        }
    }
}

/// A name up to its first zero byte.
pub open spec fn name_bytes(name: Seq<u8>) -> Seq<u8> {
    name.take(next_byte(name, 0, 0))
}

impl<'a> Section<'a> {
    /// The name of the section.
    pub fn name(&self) -> (s: String)
        ensures
            s@ == utf8_lossy(name_bytes(self@.name)),
    {
        let end = find_byte(self.name, 0, 0);
        assert(self.name@.subrange(0, end as int) =~= name_bytes(self.name@));
        decode_lossy(&self.name[0..end])
    }

    /// The contents of the section.
    pub fn data(&self) -> (d: &'a [u8])
        ensures
            d@ == self@.data,
    {
        self.data
    }

    /// Where the contents stand in the image.
    pub fn raw_offset(&self) -> (offset: usize)
        ensures
            offset == self@.raw_offset,
    {
        self.raw_offset
    }
}

impl<'a> Image<'a> {
    /// All bytes of the image.
    pub closed spec fn contents(&self) -> Seq<u8> {
        self.data@
    }

    /// The image in `data`: nothing unless it starts with `MZ`.
    pub fn parse(data: &'a [u8]) -> (r: Result<Option<Image<'a>>, PeError>)
        ensures
            image_of(data@) == (match r {
                Ok(Some(image)) => Ok(Some(image@)),
                Ok(None) => Ok(None),
                Err(e) => Err(e),
            }),
            r matches Ok(Some(image)) ==> image.contents() == data@,
    {
        if data.len() < 2 || data[0] != 0x4d || data[1] != 0x5a {
            return Ok(None);
        }
        if data.len() < DOS_E_LFANEW_OFFSET + 4 {
            return Err(PeError::Exceeds(Part::SignatureOffset));
        }
        let pe_offset = le_u32(data, DOS_E_LFANEW_OFFSET) as usize;
        let signature = checked_slice(data, pe_offset, 4, Part::Signature)?;
        assert(signature@ =~= seq![
            signature@[0],
            signature@[1],
            signature@[2],
            signature@[3],
        ]);
        if signature[0] != 0x50 || signature[1] != 0x45 || signature[2] != 0 || signature[3] != 0 {
            return Err(PeError::NoSignature);
        }
        let coff = pe_offset + 4;
        checked_slice(data, coff, COFF_HEADER_SIZE, Part::CoffHeader)?;
        let machine = le_u16(data, coff);
        let count = le_u16(data, coff + 2) as usize;
        let optional_size = le_u16(data, coff + 16) as usize;
        let optional = coff + COFF_HEADER_SIZE;
        checked_slice(data, optional, optional_size, Part::OptionalHeader)?;
        checked_slice(data, optional, 2, Part::OptionalMagic)?;
        let magic = le_u16(data, optional);
        if magic != PE32_PLUS_MAGIC {
            return Err(PeError::NotPe32Plus(magic));
        }
        let table = optional + optional_size;
        checked_slice(data, table, count * SECTION_HEADER_SIZE, Part::SectionTable)?;
        let ghost reader = section_reader(data@, table as int);
        let mut sections: Vec<Section<'a>> = Vec::new();
        let mut index: usize = 0;
        assert(section_views(sections@) =~= Seq::<SectionView>::empty());
        while index < count
            invariant
                index <= count <= 0xffff,
                table + count * 40 <= data@.len(),
                data@.len() <= usize::MAX,
                reader == section_reader(data@, table as int),
                collected(reader, index as int) == Ok::<Seq<SectionView>, PeError>(
                    section_views(sections@),
                ),
                image_at(data@, pe_offset as int) == (match collected(reader, count as int) {
                    Ok(sections) => Ok(ImageView { machine, sections }),
                    Err(e) => Err(e),
                }),
                image_of(data@) == (match image_at(data@, pe_offset as int) {
                    Ok(image) => Ok(Some(image)),
                    Err(e) => Err::<Option<ImageView>, PeError>(e),
                }),
            decreases count - index,
        {
            let entry = table + index * SECTION_HEADER_SIZE;
            let size = le_u32(data, entry + 16) as usize;
            let offset = le_u32(data, entry + 20) as usize;
            let contents = match checked_slice(data, offset, size, Part::SectionData) {
                Ok(contents) => contents,
                Err(e) => {
                    proof {
                        lemma_collected_failure(reader, index + 1, count as int);
                    }
                    return Err(e);
                },
            };
            let ghost before = sections@;
            let section = Section {
                name: &data[entry..entry + 8],
                data: contents,
                raw_offset: offset,
            };
            sections.push(section);
            assert(section_views(sections@) =~= section_views(before).push(section@));
            index += 1;
        }
        Ok(Some(Image { data, machine, sections }))
    }

    /// All bytes of the image.
    pub fn data(&self) -> (d: &'a [u8])
        ensures
            d@ == self.contents(),
    {
        self.data
    }

    /// The machine that the image is for.
    pub fn machine(&self) -> (m: u16)
        ensures
            m == self@.machine,
    {
        self.machine
    }

    /// The sections of the image.
    pub fn sections(&self) -> (s: &Vec<Section<'a>>)
        ensures
            section_views(s@) == self@.sections,
    {
        &self.sections
    }
}

/// A sound PE/COFF image is read as the format has it: where the image starts with `MZ`, has the
/// letters `PE` where its header says, is of the 64-bit form, and holds its section table and the
/// contents of its sections, its machine and all of its sections are found, each with its name and
/// its contents.
pub proof fn law_sound_images_are_read(data: Seq<u8>)
    requires
        0x40 <= data.len() <= usize::MAX,
        data[0] == 0x4d,
        data[1] == 0x5a,
        ({
            let at = le32(data, 0x3c) as int;
            let table = at + 24 + le16(data, at + 20);
            &&& at + 26 <= data.len()
            &&& data[at] == 0x50 && data[at + 1] == 0x45 && data[at + 2] == 0 && data[at + 3] == 0
            &&& at + 24 + le16(data, at + 20) <= data.len()
            &&& le16(data, at + 24) == 0x20b
            &&& table + le16(data, at + 6) * 40 <= data.len()
            &&& forall|i: int|
                0 <= i < le16(data, at + 6) ==> #[trigger] le32(data, table + i * 40 + 20) + le32(
                    data,
                    table + i * 40 + 16,
                ) <= data.len()
        }),
    ensures
        ({
            let at = le32(data, 0x3c) as int;
            let table = at + 24 + le16(data, at + 20);
            image_of(data) matches Ok(Some(image)) && image.machine == le16(data, at + 4)
                && image.sections.len() == le16(data, at + 6) && forall|i: int|
                0 <= i < image.sections.len() ==> {
                    let entry = table + i * 40;
                    let place = le32(data, entry + 20) as int;
                    let section = #[trigger] image.sections[i];
                    &&& section.name == data.subrange(entry, entry + 8)
                    &&& section.data == data.subrange(place, place + le32(data, entry + 16))
                    &&& section.raw_offset == place
                }
        }),
{
    let at = le32(data, 0x3c) as int;
    let table = at + 24 + le16(data, at + 20);
    let count = le16(data, at + 6) as int;
    assert(data.subrange(at, at + 4) =~= seq![0x50u8, 0x45u8, 0u8, 0u8]);
    let reader = section_reader(data, table);
    lemma_sections_there(data, table, count);
    lemma_collected_success(reader, count);
    let sections = collected(reader, count)->Ok_0;
    assert(image_of(data) == Ok::<Option<ImageView>, PeError>(
        Some(ImageView { machine: le16(data, at + 4), sections }),
    ));
    assert forall|i: int| 0 <= i < sections.len() implies reader(i) == Ok::<SectionView, PeError>(
        #[trigger] sections[i],
    ) by {}
}

proof fn lemma_sections_there(data: Seq<u8>, table: int, n: int)
    requires
        data.len() <= usize::MAX,
        0 <= n,
        forall|i: int|
            0 <= i < n ==> #[trigger] le32(data, table + i * 40 + 20) + le32(
                data,
                table + i * 40 + 16,
            ) <= data.len(),
    ensures
        collected(section_reader(data, table), n) is Ok,
    decreases n,
{
    if n > 0 {
        lemma_sections_there(data, table, n - 1);
        let i = n - 1;
        assert(le32(data, table + i * 40 + 20) + le32(data, table + i * 40 + 16) <= data.len());
        assert(section_reader(data, table)(n - 1) == section_at(data, table, n - 1));
    }
}

/// What is no image is not read as one: what does not begin with `MZ` is none, and one is read only
/// with the mark of the format where its beginning tells, and in the 64-bit form.
pub proof fn law_only_images_are_read(data: Seq<u8>)
    ensures
        data.len() < 2 || data[0] != 0x4d || data[1] != 0x5a ==> image_of(data) == Ok::<
            Option<ImageView>,
            PeError,
        >(None),
        image_of(data) matches Ok(Some(_)) ==> {
            let at = le32(data, 0x3c) as int;
            &&& at + 26 <= data.len()
            &&& data.subrange(at, at + 4) == seq![0x50u8, 0x45u8, 0u8, 0u8]
            &&& le16(data, at + 24) == 0x20b
        },
{
}

} // verus!
