//! What the runner decides about the disk image build. The build itself —
//! bootloader tooling, file copies, image assembly — is collaborator
//! plumbing outside the library.

use vstd::prelude::*;
use vstd::string::StringSliceAdditionalSpecFns;
use crate::args::has_flag;

verus! {

/// The two kinds of disk image a kernel can be packed into.
#[derive(Clone, Copy, Debug, PartialEq, Eq, Structural)]
pub enum DiskImageType {
    Uefi,
    Bios,
}

/// What can go wrong while building the image.
#[derive(Clone, Copy, Debug, PartialEq, Eq, Structural)]
pub enum BuildError {
    DirectoryCreationFailed,
    CloneLimineBinaryFailed,
    RamdiskPathInvalid,
    LimineConfNotFound,
    DirectoryReadFailed,
    PathPrefixFailed,
}

/// Which image type the arguments select: legacy BIOS on request, UEFI
/// otherwise.
pub fn image_type_of(args: &Vec<Vec<u8>>) -> (r: DiskImageType)
    ensures
        r == (if has_flag(args.deep_view(), "--legacy-boot".spec_bytes()) {
            DiskImageType::Bios
        } else {
            DiskImageType::Uefi
        }),
{
    if crate::args::is_legacy_boot(args) {
        DiskImageType::Bios
    } else {
        DiskImageType::Uefi
    }
}

} // verus!
