//! The kernel that is to run next, with what it is handed.
use vstd::prelude::*;

use crate::errors::{ErrorKind, Fault};
use crate::kexec::arm64::{
    canonical, covers, law_plans_hold_each_part_once, load, parse_iomem, plan, segment_views,
    usable_after, LoadError, LoadPlan, PhysRange, Trampoline,
};
use crate::kexec::fdt::{graft_memory, memory_grafted, FdtError};
use crate::text::{cat, chars, lines, owned};

verus! {

/// A kernel, its ramdisk, its device tree and its command line.
#[derive(Debug)]
pub struct KexecImage {
    pub kernel: Vec<u8>,
    pub initrd: Option<Vec<u8>>,
    pub dtb: Option<Vec<u8>>,
    pub cmdline: String,
}

/// Why an image cannot be loaded.
#[derive(Debug)]
pub enum ImageError {
    /// The command line holds a NUL.
    Cmdline,
    /// No tree was given, and that of the running kernel cannot be read.
    NoTree(Fault),
    /// A tree was given, but that of the running kernel, which tells the memory, cannot be read.
    NoMemoryTree(Fault),
    /// The memory of the running kernel cannot be told in the given tree.
    Tree(FdtError),
    /// The memory map cannot be read.
    MemoryMap(Fault),
    /// The image cannot be placed.
    Load(LoadError),
}

impl ImageError {
    /// What kind of error it is.
    pub open spec fn what_kind(&self) -> ErrorKind {
        match self {
            ImageError::Cmdline => ErrorKind::InvalidInput,
            ImageError::NoTree(fault)
            | ImageError::NoMemoryTree(fault)
            | ImageError::MemoryMap(fault) => fault.kind,
            ImageError::Tree(_) => ErrorKind::InvalidData,
            ImageError::Load(e) => e.what_kind(),
        }
    }

    /// What kind of error it is.
    pub fn kind(&self) -> (r: ErrorKind)
        ensures
            r == self.what_kind(),
    {
        match self {
            ImageError::Cmdline => ErrorKind::InvalidInput,
            ImageError::NoTree(fault) => fault.kind,
            ImageError::NoMemoryTree(fault) => fault.kind,
            ImageError::MemoryMap(fault) => fault.kind,
            ImageError::Tree(_) => ErrorKind::InvalidData,
            ImageError::Load(e) => e.kind(),
        }
    }

    /// The error in words.
    pub open spec fn words(&self) -> Seq<char> {
        match self {
            ImageError::Cmdline => "cmdline contains NUL byte"@,
            ImageError::NoTree(fault) =>
                "no DTB supplied and /sys/firmware/fdt could not be read: "@ + fault.text@,
            ImageError::NoMemoryTree(fault) =>
                "DTB supplied but /sys/firmware/fdt could not be read for /memory graft: "@
                    + fault.text@,
            ImageError::Tree(e) => e.words(),
            ImageError::MemoryMap(fault) => fault.text@,
            ImageError::Load(e) => e.words(),
        }
    }

    /// The error in words.
    pub fn message(&self) -> (s: String)
        ensures
            s@ == self.words(),
    {
        match self {
            ImageError::Cmdline => owned("cmdline contains NUL byte"),
            ImageError::NoTree(fault) => cat(
                "no DTB supplied and /sys/firmware/fdt could not be read: ",
                fault.text.as_str(),
            ),
            ImageError::NoMemoryTree(fault) => cat(
                "DTB supplied but /sys/firmware/fdt could not be read for /memory graft: ",
                fault.text.as_str(),
            ),
            ImageError::Tree(e) => e.message(),
            ImageError::MemoryMap(fault) => owned(fault.text.as_str()),
            ImageError::Load(e) => e.message(),
        }
    }
}

/// The tree that the next kernel is handed: the given one with the memory of the running kernel,
/// or that of the running kernel.
pub open spec fn next_tree(dtb: Option<Vec<u8>>, live: Result<Vec<u8>, Fault>) -> Result<
    Seq<u8>,
    ImageError,
> {
    match (dtb, live) {
        (None, Ok(tree)) => Ok(tree@),
        (None, Err(fault)) => Err(ImageError::NoTree(fault)),
        (Some(_), Err(fault)) => Err(ImageError::NoMemoryTree(fault)),
        (Some(given), Ok(tree)) => match memory_grafted(given@, tree@) {
            Ok(grafted) => Ok(grafted),
            Err(e) => Err(ImageError::Tree(e)),
        },
    }
}

/// Whether `usable` is the memory that `iomem` tells of.
pub open spec fn is_told(iomem: Result<String, Fault>, usable: Seq<PhysRange>) -> bool {
    match iomem {
        Ok(text) => {
            &&& canonical(usable)
            &&& forall|x: int| #[trigger]
                covers(usable, x) == usable_after(lines(text@), lines(text@).len() as int, x)
        },
        Err(_) => usable.len() == 0,
    }
}

/// Whether `r` is what comes of placing `image`, handed `tree`, in `usable` memory.
pub open spec fn is_placed(
    image: KexecImage,
    tree: Seq<u8>,
    iomem: Result<String, Fault>,
    usable: Seq<PhysRange>,
    trampoline: Trampoline<'_>,
    r: Result<LoadPlan, ImageError>,
) -> bool {
    match plan(
        image.kernel@,
        match image.initrd {
            Some(data) => Some(data@),
            None => None,
        },
        tree,
        image.cmdline@,
        usable,
        trampoline.code@,
        trampoline.kernel_slot as int,
        trampoline.dtb_slot as int,
    ) {
        Ok((entry, segments)) => r matches Ok(found) && found.entry == entry && segment_views(
            found.segments@,
        ) == segments,
        Err(e) => r == Err::<LoadPlan, ImageError>(
            match iomem {
                Err(fault) if e == LoadError::NoUsableMemory => ImageError::MemoryMap(fault),
                _ => ImageError::Load(e),
            },
        ),
    }
}

impl KexecImage {
    /// The image, if its command line can be handed to a kernel.
    pub fn new(
        kernel: Vec<u8>,
        initrd: Option<Vec<u8>>,
        dtb: Option<Vec<u8>>,
        cmdline: &str,
    ) -> (r: Result<KexecImage, ImageError>)
        ensures
            cmdline@.contains('\0') ==> r == Err::<KexecImage, ImageError>(ImageError::Cmdline),
            !cmdline@.contains('\0') ==> (r matches Ok(image) && image.kernel == kernel
                && image.initrd == initrd && image.dtb == dtb && image.cmdline@ == cmdline@),
    {
        let list = chars(cmdline);
        let mut i: usize = 0;
        while i < list.len()
            invariant
                i <= list@.len(),
                list@ == cmdline@,
                forall|k: int| 0 <= k < i ==> cmdline@[k] != '\0',
            decreases list@.len() - i,
        {
            if list[i] == '\0' {
                return Err(ImageError::Cmdline);
            }
            i += 1;
        }
        Ok(KexecImage { kernel, initrd, dtb, cmdline: owned(cmdline) })
    }

    /// What is to be loaded for the image. `live` is the tree of the running kernel and `iomem`
    /// its memory map.
    pub fn load(
        &self,
        live: Result<Vec<u8>, Fault>,
        iomem: Result<String, Fault>,
        trampoline: &Trampoline<'_>,
    ) -> (r: Result<LoadPlan, ImageError>)
        ensures
            match next_tree(self.dtb, live) {
                Err(e) => r == Err::<LoadPlan, ImageError>(e),
                Ok(tree) => exists|usable: Seq<PhysRange>| #[trigger]
                    is_told(iomem, usable) && is_placed(
                        *self,
                        tree,
                        iomem,
                        usable,
                        *trampoline,
                        r,
                    ),
            },
    {
        let tree = match (&self.dtb, live) {
            (None, Ok(tree)) => tree,
            (None, Err(fault)) => {
                return Err(ImageError::NoTree(fault));
            },
            (Some(_), Err(fault)) => {
                return Err(ImageError::NoMemoryTree(fault));
            },
            (Some(given), Ok(tree)) => match graft_memory(given, &tree) {
                Ok(grafted) => grafted,
                Err(e) => {
                    return Err(ImageError::Tree(e));
                },
            },
        };
        let usable = match &iomem {
            Ok(text) => parse_iomem(text.as_str()),
            Err(_) => Vec::new(),
        };
        assert(is_told(iomem, usable@));
        let initrd = match &self.initrd {
            Some(data) => Some(data.as_slice()),
            None => None,
        };
        match load(
            &self.kernel,
            initrd,
            &tree,
            self.cmdline.as_str(),
            &usable,
            trampoline,
        ) {
            Ok(found) => Ok(found),
            Err(e) => match iomem {
                Err(fault) if e == LoadError::NoUsableMemory => Err(ImageError::MemoryMap(fault)),
                _ => Err(ImageError::Load(e)),
            },
        }
    }
}

/// The next kernel gets the tree that was given, with the memory of the running one, and the running
/// tree where none was given. Without the running tree there is none to hand over.
pub proof fn law_next_tree_is_given_or_running(given: Vec<u8>, live: Vec<u8>, fault: Fault)
    ensures
        next_tree(None, Ok(live)) == Ok::<Seq<u8>, ImageError>(live@),
        next_tree(Some(given), Ok(live)) is Ok <==> memory_grafted(given@, live@) is Ok,
        next_tree(Some(given), Ok(live)) matches Ok(tree) ==> memory_grafted(given@, live@) == Ok::<
            Seq<u8>,
            FdtError,
        >(tree),
        next_tree(None, Err(fault)) is Err,
        next_tree(Some(given), Err(fault)) is Err,
{
}

/// The kernel and the ramdisk that are loaded are those of the image, and the machine is entered at
/// the last of the parts.
#[verifier::spinoff_prover]
#[verifier::rlimit(100)]
pub proof fn law_images_are_handed_over(
    image: KexecImage,
    tree: Seq<u8>,
    iomem: Result<String, Fault>,
    usable: Seq<PhysRange>,
    trampoline: Trampoline<'_>,
    r: Result<LoadPlan, ImageError>,
)
    requires
        is_placed(image, tree, iomem, usable, trampoline, r),
        image.kernel@.len() <= u64::MAX,
    ensures
        r matches Ok(found) ==> {
            let ramdisk = image.initrd is Some && image.initrd->0@.len() > 0;
            let views = segment_views(found.segments@);
            &&& views.len() == (if ramdisk {
                4int
            } else {
                3
            })
            &&& views[0].data == image.kernel@
            &&& ramdisk ==> views[1].data == image.initrd->0@
            &&& found.entry == views.last().phys
        },
{
    let initrd = match image.initrd {
        Some(data) => Some(data@),
        None => None,
    };
    law_plans_hold_each_part_once(
        image.kernel@,
        initrd,
        tree,
        image.cmdline@,
        usable,
        trampoline.code@,
        trampoline.kernel_slot as int,
        trampoline.dtb_slot as int,
    );
}

} // verus!
