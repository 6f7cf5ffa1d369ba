//! Host-side coordination layer for running a kernel's self-tests inside a
//! disposable virtual machine, one invocation per test binary.
//!
//! The library derives where an invocation sits in a multi-binary round from a
//! shared append-only event log, ingests the VM's line-delimited test output
//! into a structured report, and detects round completion. Everything that
//! touches the file system, the clock or external processes lives outside the
//! library and hands it plain values.

use vstd::prelude::*;
use vstd::string::StrSliceExecFns;
use vstd::string::StringSliceAdditionalSpecFns;

pub mod args;
pub mod builder;
pub mod bytes;
pub mod event;
pub mod json;
pub mod ktest;
pub mod qemu;

verus! {

/// Directory under the workspace root where build artifacts are stored.
pub fn build_directory() -> (r: Vec<u8>)
    ensures
        r@ == ".build".spec_bytes(),
{
    ".build".as_bytes_vec()
}

/// The runner's errors. Each verified function's contract says exactly which
/// inputs produce which variant; the surrounding program decides what to
/// print.
#[derive(Clone, Copy, Debug, PartialEq, Eq, Structural)]
pub enum KbootError {
    LoggerIoError,
    QemuFailedToRun,
    ArgumentFailedToParse,
    EventFailedToWrite,
}

/// A byte of a run identifier: lower-case hexadecimal or a hyphen.
pub open spec fn is_run_id_byte(b: u8) -> bool {
    b == 45 || (48 <= b <= 57) || (97 <= b <= 102)
}

/// Relies on `uuid::Uuid::new_v4` and its hyphenated `Display` form: a fresh
/// random version-4 identifier, printed as 36 bytes of lower-case
/// hexadecimal digits and hyphens. Nothing more can be promised of a random
/// value.
#[verifier::external_body]
fn fresh_uuid_bytes() -> (r: Vec<u8>)
    ensures
        r@.len() == 36,
        forall|i: int| 0 <= i < r@.len() ==> is_run_id_byte(#[trigger] r@[i]),
{
    uuid::Uuid::new_v4().to_string().into_bytes()
}

/// A fresh identifier for this invocation, used to name its log file and its
/// capture file.
pub fn new_run_id() -> (r: Vec<u8>)
    ensures
        r@.len() == 36,
        forall|i: int| 0 <= i < r@.len() ==> is_run_id_byte(#[trigger] r@[i]),
{
    fresh_uuid_bytes()
}

/// Where this invocation's own log lives, named by the run identifier.
pub fn get_log_file_path(run_id: &Vec<u8>) -> (r: Vec<u8>)
    ensures
        r@ == ".build/logs/kboot-".spec_bytes() + run_id@ + ".log".spec_bytes(),
{
    let mut out: Vec<u8> = ".build/logs/kboot-".as_bytes_vec();
    crate::bytes::push_bytes(&mut out, run_id.as_slice());
    crate::bytes::push_bytes(&mut out, ".log".as_bytes_vec().as_slice());
    out
}

} // verus!
