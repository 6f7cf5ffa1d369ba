//! What the runner decides about the virtual machine run.
//!
//! Spawning the VM container, measuring the wall clock and watching its exit
//! are the caller's concern; this module fixes the paths and argument lists
//! the run is given, and how its exit code reads.

use vstd::prelude::*;
use vstd::string::StrSliceExecFns;
use vstd::string::StringSliceAdditionalSpecFns;
use crate::bytes::push_bytes;

verus! {

/// The exit codes the kernel writes to the VM's exit port.
#[derive(Clone, Copy, Debug, PartialEq, Eq, Structural)]
pub enum QemuExitCode {
    Success,
    Failed,
}

impl QemuExitCode {
    /// The numeric value the kernel writes for this code.
    pub fn code(&self) -> (r: u32)
        ensures
            r == (match *self {
                QemuExitCode::Success => 16u32,
                QemuExitCode::Failed => 17u32,
            }),
    {
        match self {
            QemuExitCode::Success => 16,
            QemuExitCode::Failed => 17,
        }
    }

    /// How a raw exit status reads; anything unexpected is unknown.
    pub fn from_code(code: u32) -> (r: Option<QemuExitCode>)
        ensures
            r == (if code == 16 {
                Some(QemuExitCode::Success)
            } else if code == 17 {
                Some(QemuExitCode::Failed)
            } else {
                None::<QemuExitCode>
            }),
    {
        if code == 16 {
            Some(QemuExitCode::Success)
        } else if code == 17 {
            Some(QemuExitCode::Failed)
        } else {
            None
        }
    }
}

/// Everything the VM run is given: where the build artifacts live, which
/// image boots, where test output lands, and the argument lists.
pub struct RunArguments {
    pub build_path: Vec<u8>,
    pub image_path: Vec<u8>,
    pub testing_path: Vec<u8>,
    pub qemu_run_args: Vec<Vec<u8>>,
    pub qemu_test_args: Vec<Vec<u8>>,
}

impl RunArguments {
    /// The standard layout under a workspace root: build directory, kernel
    /// image, testing directory, and no extra arguments.
    pub fn default(workspace_root: &Vec<u8>) -> (r: RunArguments)
        ensures
            r.build_path@ == workspace_root@ + "/.build".spec_bytes(),
            r.image_path@ == workspace_root@ + "/.build/kernel.img".spec_bytes(),
            r.testing_path@ == workspace_root@ + "/.build/testing".spec_bytes(),
            r.qemu_run_args@.len() == 0,
            r.qemu_test_args@.len() == 0,
    {
        let mut build_path: Vec<u8> = Vec::new();
        push_bytes(&mut build_path, workspace_root.as_slice());
        push_bytes(&mut build_path, "/.build".as_bytes_vec().as_slice());
        let mut image_path: Vec<u8> = Vec::new();
        push_bytes(&mut image_path, workspace_root.as_slice());
        push_bytes(&mut image_path, "/.build/kernel.img".as_bytes_vec().as_slice());
        let mut testing_path: Vec<u8> = Vec::new();
        push_bytes(&mut testing_path, workspace_root.as_slice());
        push_bytes(&mut testing_path, "/.build/testing".as_bytes_vec().as_slice());
        RunArguments {
            build_path,
            image_path,
            testing_path,
            qemu_run_args: Vec::new(),
            qemu_test_args: Vec::new(),
        }
    }

    /// The lines a caller may log to describe this run, in order: the build,
    /// image and testing paths.
    pub fn print(&self) -> (r: Vec<Vec<u8>>)
        ensures
            r@.len() == 3,
            r@[0]@ == self.build_path@,
            r@[1]@ == self.image_path@,
            r@[2]@ == self.testing_path@,
    {
        let mut lines: Vec<Vec<u8>> = Vec::new();
        lines.push(crate::bytes::sub_bytes(&self.build_path, 0, self.build_path.len()));
        lines.push(crate::bytes::sub_bytes(&self.image_path, 0, self.image_path.len()));
        lines.push(crate::bytes::sub_bytes(&self.testing_path, 0, self.testing_path.len()));
        proof {
            assert(self.build_path@.subrange(0, self.build_path@.len() as int)
                =~= self.build_path@);
            assert(self.image_path@.subrange(0, self.image_path@.len() as int)
                =~= self.image_path@);
            assert(self.testing_path@.subrange(0, self.testing_path@.len() as int)
                =~= self.testing_path@);
        }
        lines
    }
}

/// The fixed extra arguments a test run hands the VM: the exit device and a
/// disabled display.
pub fn test_arguments() -> (r: Vec<Vec<u8>>)
    ensures
        r@.len() == 4,
        r@[0]@ == "-device".spec_bytes(),
        r@[1]@ == "isa-debug-exit,iobase=0xf4,iosize=0x04".spec_bytes(),
        r@[2]@ == "-display".spec_bytes(),
        r@[3]@ == "none".spec_bytes(),
{
    let mut args: Vec<Vec<u8>> = Vec::new();
    args.push("-device".as_bytes_vec());
    args.push("isa-debug-exit,iobase=0xf4,iosize=0x04".as_bytes_vec());
    args.push("-display".as_bytes_vec());
    args.push("none".as_bytes_vec());
    args
}

/// The debug-console argument for a test run: the guest writes its test
/// output to this file inside the container.
pub fn debugcon_argument(run_id: &Vec<u8>) -> (r: Vec<u8>)
    ensures
        r@ == "file:/testing/logs/tests-".spec_bytes() + run_id@ + ".json".spec_bytes(),
{
    let mut out: Vec<u8> = "file:/testing/logs/tests-".as_bytes_vec();
    push_bytes(&mut out, run_id.as_slice());
    push_bytes(&mut out, ".json".as_bytes_vec().as_slice());
    out
}

} // verus!
