//! A log that survives a reset: three copies of a page with a header and text.
use vstd::prelude::*;

verus! {

/// The length of a copy.
pub const PAGE: u64 = 4096;

/// Where the text starts.
pub const TEXT: u64 = 128;

/// A write to the memory of the log.
#[derive(Clone, Copy, Debug, PartialEq, Eq, Structural)]
pub enum Store {
    Byte { offset: u64, byte: u8 },
    Word { offset: u64, value: u64 },
}

/// The writes that note a stage: one in the header of each copy.
pub fn stage(value: u64) -> (r: Vec<Store>)
    ensures
        r@ == seq![
            Store::Word { offset: 8, value },
            Store::Word { offset: 4104, value },
            Store::Word { offset: 8200, value },
        ],
{
    let r = vec![
        Store::Word { offset: 8, value },
        Store::Word { offset: 4104, value },
        Store::Word { offset: 8200, value },
    ];
    assert(r@ =~= seq![
        Store::Word { offset: 8, value },
        Store::Word { offset: 4104, value },
        Store::Word { offset: 8200, value },
    ]);
    r
}

/// The checksum of the text with one more byte: FNV-1a in 64 bits.
pub open spec fn next_check(checksum: u64, byte: u8) -> u64 {
    (((checksum ^ (byte as u64)) * 0x100_0000_01b3) % 0x1_0000_0000_0000_0000) as u64
}

/// The writes that append a byte to a copy.
pub open spec fn copy_stores(page: int, used: int, byte: u8, checksum: u64) -> Seq<Store> {
    seq![
        Store::Byte { offset: (page + TEXT + used) as u64, byte },
        Store::Word { offset: (page + 72) as u64, value: checksum },
        Store::Word { offset: (page + 16) as u64, value: (used + 1) as u64 },
    ]
}

/// The writes that append a byte to the log, by the length of its text and its checksum; none where
/// the log is full.
pub open spec fn byte_stores(used: u64, checksum: u64, byte: u8) -> Seq<Store> {
    if used < PAGE - TEXT {
        let check = next_check(checksum, byte);
        copy_stores(0, used as int, byte, check) + copy_stores(4096, used as int, byte, check)
            + copy_stores(8192, used as int, byte, check)
    } else {
        Seq::empty()
    }
}

/// The writes that append a byte to the log.
pub fn write_byte(used: u64, checksum: u64, byte: u8) -> (r: Vec<Store>)
    ensures
        r@ == byte_stores(used, checksum, byte),
{
    let mut out: Vec<Store> = Vec::new();
    if used >= PAGE - TEXT {
        return out;
    }
    let check = (checksum ^ (byte as u64)).wrapping_mul(0x100_0000_01b3);
    let mut copy: u64 = 0;
    let ghost start = out@;
    while copy < 3
        invariant
            copy <= 3,
            used < PAGE - TEXT,
            check == next_check(checksum, byte),
            out@ == (if copy == 0 {
                Seq::<Store>::empty()
            } else if copy == 1 {
                copy_stores(0, used as int, byte, check)
            } else if copy == 2 {
                copy_stores(0, used as int, byte, check) + copy_stores(
                    4096,
                    used as int,
                    byte,
                    check,
                )
            } else {
                byte_stores(used, checksum, byte)
            }),
        decreases 3 - copy,
    {
        let page = copy * PAGE;
        let ghost before = out@;
        out.push(Store::Byte { offset: page + TEXT + used, byte });
        out.push(Store::Word { offset: page + 72, value: check });
        out.push(Store::Word { offset: page + 16, value: used + 1 });
        assert(out@ =~= before + copy_stores(page as int, used as int, byte, check));
        assert(Seq::<Store>::empty() + copy_stores(0, used as int, byte, check) =~= copy_stores(
            0,
            used as int,
            byte,
            check,
        ));
        copy += 1;
    }
    out
}

/// No write leaves the three pages of the log, or touches the header of a copy but for its length
/// and its checksum.
pub proof fn law_log_stays_in_its_pages(used: u64, checksum: u64, byte: u8, i: int)
    requires
        0 <= i < byte_stores(used, checksum, byte).len(),
    ensures
        match byte_stores(used, checksum, byte)[i] {
            Store::Byte { offset, .. } => offset < 3 * PAGE && TEXT <= offset % PAGE,
            Store::Word { offset, .. } => offset + 8 <= 3 * PAGE && (offset % PAGE == 16 || offset
                % PAGE == 72),
        },
{
}

/// Each byte is logged in each of the three pages, behind those that were logged before, with the
/// new length and the new check behind it; a full page takes no more.
pub proof fn law_bytes_are_logged_in_each_page(used: u64, checksum: u64, byte: u8, page: u64)
    requires
        page == 0 || page == 4096 || page == 8192,
    ensures
        ({
            let stores = byte_stores(used, checksum, byte);
            let check = next_check(checksum, byte);
            &&& used < 3968 ==> {
                &&& stores.contains(Store::Byte { offset: (page + 128 + used) as u64, byte })
                &&& stores.contains(Store::Word { offset: (page + 16) as u64, value: (used + 1) as u64 })
                &&& stores.contains(Store::Word { offset: (page + 72) as u64, value: check })
                &&& stores.len() == 9
            }
            &&& used >= 3968 ==> stores.len() == 0
        }),
{
    if used < 3968 {
        let stores = byte_stores(used, checksum, byte);
        let k = if page == 0 {
            0int
        } else if page == 4096 {
            3
        } else {
            6
        };
        assert(stores[k] == Store::Byte { offset: (page + 128 + used) as u64, byte });
        assert(stores[k + 1] == Store::Word {
            offset: (page + 72) as u64,
            value: next_check(checksum, byte),
        });
        assert(stores[k + 2] == Store::Word {
            offset: (page + 16) as u64,
            value: (used + 1) as u64,
        });
    }
}

} // verus!
