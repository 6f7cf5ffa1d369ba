//! The result ingestion pipeline.
//!
//! The kernel under test streams one JSON record per line over the VM's
//! debug console into a capture file: first a header naming the test group
//! and its declared test count, then one record per test result. This module
//! folds those lines into a structured report (group, modules, tests),
//! computes the summary counts, and encodes and decodes the persisted report
//! file. Reading the capture file and writing the report file are the
//! caller's concern.

use vstd::prelude::*;
use vstd::string::StrSliceExecFns;
use vstd::string::StringSliceAdditionalSpecFns;
use crate::bytes::sub_bytes;
use crate::json::JsonScalar;
use crate::json::ScalarV;
use crate::json::parse_flat_obj;
use crate::json::parse_flat_obj_exec;
use crate::json::pairs_view;
use crate::event::lookup;
use crate::event::str_of;
use crate::event::u64_of;
use crate::event::bool_of;

verus! {

// ---------------------------------------------------------------------------
// The report's shape
// ---------------------------------------------------------------------------
/// Summary counts of one test group.
#[derive(Clone, Copy, Debug, PartialEq, Eq, Structural)]
pub struct TestSummary {
    pub total: u64,
    pub passed: u64,
    pub failed: u64,
    pub ignored: u64,
    pub duration: u64,
}

/// One test case's reported outcome.
pub struct TestResult {
    pub test: Vec<u8>,
    pub result: Vec<u8>,
    pub cycle_count: u64,
    pub location: Option<Vec<u8>>,
    pub message: Option<Vec<u8>>,
}

/// The tests of one module, in the order they were first seen.
pub struct TestModule {
    pub module: Vec<u8>,
    pub tests: Vec<TestResult>,
}

/// The report for one test group: one per invocation.
pub struct TestGroup {
    pub test_group: Vec<u8>,
    pub summary: TestSummary,
    pub modules: Vec<TestModule>,
}

/// Model of a test result.
pub struct ResultV {
    pub test: Seq<u8>,
    pub result: Seq<u8>,
    pub cycle_count: u64,
    pub location: Option<Seq<u8>>,
    pub message: Option<Seq<u8>>,
}

/// Model of a module.
pub struct ModuleV {
    pub module: Seq<u8>,
    pub tests: Seq<ResultV>,
}

/// Model of a group report.
pub struct GroupV {
    pub test_group: Seq<u8>,
    pub summary: TestSummary,
    pub modules: Seq<ModuleV>,
}

impl View for TestResult {
    type V = ResultV;

    open spec fn view(&self) -> ResultV {
        ResultV {
            test: self.test@,
            result: self.result@,
            cycle_count: self.cycle_count,
            location: match self.location {
                Some(l) => Some(l@),
                None => None,
            },
            message: match self.message {
                Some(m) => Some(m@),
                None => None,
            },
        }
    }
}

impl View for TestModule {
    type V = ModuleV;

    open spec fn view(&self) -> ModuleV {
        ModuleV { module: self.module@, tests: self.tests@.map_values(|t: TestResult| t@) }
    }
}

impl View for TestGroup {
    type V = GroupV;

    open spec fn view(&self) -> GroupV {
        GroupV {
            test_group: self.test_group@,
            summary: self.summary,
            modules: self.modules@.map_values(|m: TestModule| m@),
        }
    }
}

// ---------------------------------------------------------------------------
// Classifying one capture line
// ---------------------------------------------------------------------------
pub open spec fn key_test_group() -> Seq<u8> {
    "test_group".spec_bytes()
}

pub open spec fn key_test_count() -> Seq<u8> {
    "test_count".spec_bytes()
}

pub open spec fn key_use_kview() -> Seq<u8> {
    "use_kview".spec_bytes()
}

pub open spec fn key_test() -> Seq<u8> {
    "test".spec_bytes()
}

pub open spec fn key_result() -> Seq<u8> {
    "result".spec_bytes()
}

pub open spec fn key_cycle_count() -> Seq<u8> {
    "cycle_count".spec_bytes()
}

pub open spec fn key_location() -> Seq<u8> {
    "location".spec_bytes()
}

pub open spec fn key_message() -> Seq<u8> {
    "message".spec_bytes()
}

/// What one capture line means.
pub enum CaptureLine {
    /// The header: group name, declared test count, viewer flag.
    Header { name: Seq<u8>, count: u64, use_kview: bool },
    /// One test's outcome, under its fully qualified name.
    Outcome { test: Seq<u8>, result: Seq<u8>, cycle_count: u64, location: Option<Seq<u8>>, message: Option<Seq<u8>> },
    /// Anything else: skipped.
    Other,
}

/// Classify the members of one parsed capture record. A record with a
/// `test_group` key is a header, one with a `test` key is an outcome; a
/// record whose required fields are missing or of the wrong type is skipped
/// (the wire protocol may evolve; one bad line must not discard a run).
pub open spec fn capture_pairs_kind(ps: Seq<(Seq<u8>, ScalarV)>) -> CaptureLine {
    if lookup(ps, key_test_group()) is Some {
        match (str_of(ps, key_test_group()), u64_of(ps, key_test_count())) {
            (Some(name), Some(count)) => CaptureLine::Header {
                name,
                count,
                use_kview: match bool_of(ps, key_use_kview()) {
                    Some(b) => b,
                    None => false,
                },
            },
            _ => CaptureLine::Other,
        }
    } else if lookup(ps, key_test()) is Some {
        match (str_of(ps, key_test()), str_of(ps, key_result()), u64_of(ps, key_cycle_count())) {
            (Some(test), Some(result), Some(cycle_count)) => CaptureLine::Outcome {
                test,
                result,
                cycle_count,
                location: str_of(ps, key_location()),
                message: str_of(ps, key_message()),
            },
            _ => CaptureLine::Other,
        }
    } else {
        CaptureLine::Other
    }
}

/// Classify one raw capture line.
pub open spec fn capture_line_kind(line: Seq<u8>) -> CaptureLine {
    match parse_flat_obj(line) {
        Some(ps) => capture_pairs_kind(ps),
        None => CaptureLine::Other,
    }
}


/// Copy a byte vector.
fn copy_bytes(v: &Vec<u8>) -> (r: Vec<u8>)
    ensures
        r@ == v@,
{
    let r = sub_bytes(v, 0, v.len());
    proof {
        assert(v@.subrange(0, v@.len() as int) =~= v@);
    }
    r
}

/// View of an optional byte vector.
pub open spec fn opt_view(o: Option<Vec<u8>>) -> Option<Seq<u8>> {
    match o {
        Some(v) => Some(v@),
        None => None,
    }
}

/// One capture line, decoded.
pub enum CaptureRecord {
    Header { name: Vec<u8>, count: u64, use_kview: bool },
    Outcome {
        test: Vec<u8>,
        result: Vec<u8>,
        cycle_count: u64,
        location: Option<Vec<u8>>,
        message: Option<Vec<u8>>,
    },
    Other,
}

impl View for CaptureRecord {
    type V = CaptureLine;

    open spec fn view(&self) -> CaptureLine {
        match self {
            CaptureRecord::Header { name, count, use_kview } => CaptureLine::Header {
                name: name@,
                count: *count,
                use_kview: *use_kview,
            },
            CaptureRecord::Outcome { test, result, cycle_count, location, message } =>
                CaptureLine::Outcome {
                test: test@,
                result: result@,
                cycle_count: *cycle_count,
                location: opt_view(*location),
                message: opt_view(*message),
            },
            CaptureRecord::Other => CaptureLine::Other,
        }
    }
}

/// Classify one line of the capture file.
pub fn classify_capture_line(line: &Vec<u8>) -> (r: CaptureRecord)
    ensures
        r@ == capture_line_kind(line@),
{
    let pairs = match parse_flat_obj_exec(line) {
        Some(pairs) => pairs,
        None => {
            return CaptureRecord::Other;
        },
    };
    if let Some(gx) = crate::event::find_member(&pairs, &"test_group".as_bytes_vec()) {
        let name = match &pairs[gx].1 {
            JsonScalar::Str(name) => copy_bytes(name),
            _ => {
                return CaptureRecord::Other;
            },
        };
        let count = match crate::event::find_member(&pairs, &"test_count".as_bytes_vec()) {
            Some(cx) => match &pairs[cx].1 {
                JsonScalar::UInt(n) => *n,
                _ => {
                    return CaptureRecord::Other;
                },
            },
            None => {
                return CaptureRecord::Other;
            },
        };
        let use_kview = match crate::event::find_member(&pairs, &"use_kview".as_bytes_vec()) {
            Some(kx) => match &pairs[kx].1 {
                JsonScalar::Bool(b) => *b,
                _ => false,
            },
            None => false,
        };
        CaptureRecord::Header { name, count, use_kview }
    } else if let Some(tx) = crate::event::find_member(&pairs, &"test".as_bytes_vec()) {
        let test = match &pairs[tx].1 {
            JsonScalar::Str(test) => copy_bytes(test),
            _ => {
                return CaptureRecord::Other;
            },
        };
        let result = match crate::event::find_member(&pairs, &"result".as_bytes_vec()) {
            Some(rx) => match &pairs[rx].1 {
                JsonScalar::Str(result) => copy_bytes(result),
                _ => {
                    return CaptureRecord::Other;
                },
            },
            None => {
                return CaptureRecord::Other;
            },
        };
        let cycle_count = match crate::event::find_member(&pairs, &"cycle_count".as_bytes_vec()) {
            Some(cx) => match &pairs[cx].1 {
                JsonScalar::UInt(n) => *n,
                _ => {
                    return CaptureRecord::Other;
                },
            },
            None => {
                return CaptureRecord::Other;
            },
        };
        let location = match crate::event::find_member(&pairs, &"location".as_bytes_vec()) {
            Some(lx) => match &pairs[lx].1 {
                JsonScalar::Str(l) => Some(copy_bytes(l)),
                _ => None,
            },
            None => None,
        };
        let message = match crate::event::find_member(&pairs, &"message".as_bytes_vec()) {
            Some(mx) => match &pairs[mx].1 {
                JsonScalar::Str(m) => Some(copy_bytes(m)),
                _ => None,
            },
            None => None,
        };
        CaptureRecord::Outcome { test, result, cycle_count, location, message }
    } else {
        CaptureRecord::Other
    }
}

// ---------------------------------------------------------------------------
// Module and case names
// ---------------------------------------------------------------------------
/// Index of the last `::` in `s`, or -1.
pub open spec fn rfind_sep(s: Seq<u8>) -> int
    decreases s.len(),
{
    if s.len() < 2 {
        -1
    } else if s[s.len() - 2] == 58 && s[s.len() - 1] == 58 {
        s.len() - 2
    } else {
        rfind_sep(s.drop_last())
    }
}

pub proof fn lemma_rfind_sep_bounds(s: Seq<u8>)
    ensures
        rfind_sep(s) == -1 || (0 <= rfind_sep(s) <= s.len() - 2),
    decreases s.len(),
{
    if s.len() >= 2 && !(s[s.len() - 2] == 58 && s[s.len() - 1] == 58) {
        lemma_rfind_sep_bounds(s.drop_last());
    }
}

/// The module part of a fully qualified test name: what stands before the
/// last `::`, or `unknown` if there is none.
pub open spec fn module_of(name: Seq<u8>) -> Seq<u8> {
    if rfind_sep(name) >= 0 {
        name.subrange(0, rfind_sep(name))
    } else {
        "unknown".spec_bytes()
    }
}

/// The case part of a fully qualified test name: what stands after the last
/// `::`, or the whole name if there is none.
pub open spec fn function_of(name: Seq<u8>) -> Seq<u8> {
    if rfind_sep(name) >= 0 {
        name.subrange(rfind_sep(name) + 2, name.len() as int)
    } else {
        name
    }
}

/// Find the last `::` of `name`, scanning backward.
fn rfind_sep_exec(name: &Vec<u8>) -> (r: Option<usize>)
    ensures
        match r {
            Some(ix) => rfind_sep(name@) == ix,
            None => rfind_sep(name@) == -1,
        },
{
    let mut k: usize = name.len();
    proof {
        assert(name@.take(k as int) =~= name@);
    }
    while k >= 2
        invariant
            k <= name@.len(),
            rfind_sep(name@) == rfind_sep(name@.take(k as int)),
        decreases k,
    {
        if name[k - 2] == 58 && name[k - 1] == 58 {
            proof {
                assert(name@.take(k as int)[k - 2] == name@[k - 2]);
                assert(name@.take(k as int)[k - 1] == name@[k - 1]);
            }
            return Some(k - 2);
        }
        proof {
            assert(name@.take(k as int)[k - 2] == name@[k - 2]);
            assert(name@.take(k as int)[k - 1] == name@[k - 1]);
            assert(name@.take(k as int).drop_last() =~= name@.take(k as int - 1));
        }
        k = k - 1;
    }
    None
}

/// Extract the module name from a fully qualified test name.
pub fn module_from_name(name: &Vec<u8>) -> (r: Vec<u8>)
    ensures
        r@ == module_of(name@),
{
    proof {
        lemma_rfind_sep_bounds(name@);
    }
    match rfind_sep_exec(name) {
        Some(ix) => sub_bytes(name, 0, ix),
        None => "unknown".as_bytes_vec(),
    }
}

/// Extract the case name from a fully qualified test name.
pub fn function_from_name(name: &Vec<u8>) -> (r: Vec<u8>)
    ensures
        r@ == function_of(name@),
{
    proof {
        lemma_rfind_sep_bounds(name@);
    }
    match rfind_sep_exec(name) {
        Some(ix) => {
            let n: usize = name.len();
            assert(ix as int + 2 <= n as int);
            sub_bytes(name, ix + 2, n)
        },
        None => copy_bytes(name),
    }
}


// ---------------------------------------------------------------------------
// Ingestion
// ---------------------------------------------------------------------------
/// Errors of the ingestion pipeline.
#[derive(Clone, Copy, Debug, PartialEq, Eq, Structural)]
pub enum KtestError {
    /// A result line arrived before any header line.
    TestGroupNotSet,
    /// The capture held no header line at all.
    NoTestGroupFound,
}

/// Index of the first module named `name`, or -1.
pub open spec fn find_module(mods: Seq<ModuleV>, name: Seq<u8>) -> int
    decreases mods.len(),
{
    if mods.len() == 0 {
        -1
    } else if mods[0].module == name {
        0
    } else {
        let r = find_module(mods.skip(1), name);
        if r == -1 {
            -1
        } else {
            r + 1
        }
    }
}

proof fn lemma_find_module_step(mods: Seq<ModuleV>, name: Seq<u8>, k: int)
    requires
        0 <= k < mods.len(),
        mods[k].module != name,
        (find_module(mods, name) == -1) == (find_module(mods.skip(k), name) == -1),
        find_module(mods.skip(k), name) >= 0 ==> find_module(mods, name) == k + find_module(
            mods.skip(k),
            name,
        ),
    ensures
        (find_module(mods, name) == -1) == (find_module(mods.skip(k + 1), name) == -1),
        find_module(mods.skip(k + 1), name) >= 0 ==> find_module(mods, name) == k + 1
            + find_module(mods.skip(k + 1), name),
{
    assert(mods.skip(k)[0] == mods[k]);
    assert(mods.skip(k).skip(1) =~= mods.skip(k + 1));
    assert(find_module(mods.skip(k), name) == (if find_module(mods.skip(k + 1), name) == -1 {
        -1
    } else {
        find_module(mods.skip(k + 1), name) + 1
    }));
    lemma_find_module_bounds(mods.skip(k + 1), name);
}

pub proof fn lemma_find_module_bounds(mods: Seq<ModuleV>, name: Seq<u8>)
    ensures
        find_module(mods, name) == -1 || (0 <= find_module(mods, name) < mods.len()
            && mods[find_module(mods, name)].module == name),
    decreases mods.len(),
{
    if mods.len() > 0 && mods[0].module != name {
        lemma_find_module_bounds(mods.skip(1), name);
    }
}

/// One test outcome folded into the report: appended to its module's bucket,
/// with a new bucket opened in first-seen order when the module is new.
pub open spec fn add_result(
    g: GroupV,
    test: Seq<u8>,
    result: Seq<u8>,
    cycle_count: u64,
    location: Option<Seq<u8>>,
    message: Option<Seq<u8>>,
) -> GroupV {
    let mname = module_of(test);
    let r = ResultV { test: function_of(test), result, cycle_count, location, message };
    let ix = find_module(g.modules, mname);
    if ix >= 0 {
        GroupV {
            modules: g.modules.update(
                ix,
                ModuleV { module: g.modules[ix].module, tests: g.modules[ix].tests.push(r) },
            ),
            ..g
        }
    } else {
        GroupV { modules: g.modules.push(ModuleV { module: mname, tests: seq![r] }), ..g }
    }
}

/// One line folded into the ingestion state. The state is the lazily created
/// accumulator and the viewer flag; `None` as a whole marks the one fatal
/// shape, a result line before any header.
pub open spec fn ingest_line_model(
    st: (Option<GroupV>, bool),
    line: Seq<u8>,
    duration_ms: u64,
) -> Option<(Option<GroupV>, bool)> {
    match capture_line_kind(line) {
        CaptureLine::Header { name, count, use_kview } => match st.0 {
            None => Some(
                (
                    Some(
                        GroupV {
                            test_group: name,
                            summary: TestSummary {
                                total: count,
                                passed: 0,
                                failed: 0,
                                ignored: 0,
                                duration: duration_ms,
                            },
                            modules: Seq::empty(),
                        },
                    ),
                    use_kview,
                ),
            ),
            // later header lines in the same run are ignored
            Some(_) => Some(st),
        },
        CaptureLine::Outcome { test, result, cycle_count, location, message } => match st.0 {
            Some(g) => Some(
                (Some(add_result(g, test, result, cycle_count, location, message)), st.1),
            ),
            None => None,
        },
        CaptureLine::Other => Some(st),
    }
}

/// All lines folded in order.
pub open spec fn ingest_lines(
    st: (Option<GroupV>, bool),
    lines: Seq<Seq<u8>>,
    duration_ms: u64,
) -> Option<(Option<GroupV>, bool)>
    decreases lines.len(),
{
    if lines.len() == 0 {
        Some(st)
    } else {
        match ingest_line_model(st, lines[0], duration_ms) {
            Some(st2) => ingest_lines(st2, lines.skip(1), duration_ms),
            None => None,
        }
    }
}

/// The mutable ingestion state of one run: an explicit accumulator, not
/// shared across runs.
pub struct IngestState {
    pub test_group: Option<TestGroup>,
    pub use_kview: bool,
}

impl View for IngestState {
    type V = (Option<GroupV>, bool);

    open spec fn view(&self) -> (Option<GroupV>, bool) {
        (
            match self.test_group {
                Some(g) => Some(g@),
                None => None,
            },
            self.use_kview,
        )
    }
}

impl IngestState {
    /// The state before any line has been seen.
    pub fn new() -> (st: IngestState)
        ensures
            st@ == (None::<GroupV>, false),
    {
        IngestState { test_group: None, use_kview: false }
    }
}

/// Copy an optional byte vector.
fn copy_opt_bytes(o: &Option<Vec<u8>>) -> (r: Option<Vec<u8>>)
    ensures
        opt_view(r) == opt_view(*o),
{
    match o {
        Some(v) => Some(copy_bytes(v)),
        None => None,
    }
}

/// Fold one outcome into the accumulator.
fn push_outcome(
    group: &mut TestGroup,
    test: Vec<u8>,
    result: Vec<u8>,
    cycle_count: u64,
    location: Option<Vec<u8>>,
    message: Option<Vec<u8>>,
)
    ensures
        final(group)@ == add_result(
            old(group)@,
            test@,
            result@,
            cycle_count,
            opt_view(location),
            opt_view(message),
        ),
{
    let ghost rv = ResultV {
        test: function_of(test@),
        result: result@,
        cycle_count,
        location: opt_view(location),
        message: opt_view(message),
    };
    let mname = module_from_name(&test);
    let fname = function_from_name(&test);
    let r = TestResult {
        test: fname,
        result: copy_bytes(&result),
        cycle_count,
        location: copy_opt_bytes(&location),
        message: copy_opt_bytes(&message),
    };
    assert(r@ == rv);
    let ghost mods0 = old(group)@.modules;
    proof {
        lemma_find_module_bounds(mods0, mname@);
        assert(mods0.skip(0) =~= mods0);
    }
    let mut k: usize = 0;
    let n = group.modules.len();
    while k < n
        invariant
            k <= n,
            n == group.modules@.len(),
            group@ == old(group)@,
            mods0 == old(group)@.modules,
            r@ == rv,
            rv == (ResultV {
                test: function_of(test@),
                result: result@,
                cycle_count,
                location: opt_view(location),
                message: opt_view(message),
            }),
            mname@ == module_of(test@),
            (find_module(mods0, mname@) == -1) == (find_module(mods0.skip(k as int), mname@)
                == -1),
            find_module(mods0.skip(k as int), mname@) >= 0 ==> find_module(mods0, mname@) == k
                + find_module(mods0.skip(k as int), mname@),
        decreases n - k,
    {
        proof {
            assert(mods0[k as int] == group.modules@[k as int]@);
            assert(mods0.skip(k as int)[0] == mods0[k as int]);
            assert(mods0.skip(k as int).skip(1) =~= mods0.skip(k as int + 1));
        }
        if crate::bytes::bytes_eq(&group.modules[k].module, &mname) {
            proof {
                assert(mods0[k as int].module == mname@);
                assert(find_module(mods0.skip(k as int), mname@) == 0);
                assert(find_module(mods0, mname@) == k);
            }
            let ghost vec0 = group.modules@;
            let mut m = group.modules.remove(k);
            let ghost mtests0 = m.tests@;
            m.tests.push(r);
            proof {
                assert(m.tests@ =~= mtests0.push(r));
                assert(mtests0 == vec0[k as int].tests@);
                assert(m@.tests =~= mods0[k as int].tests.push(rv)) by {
                    assert forall|j: int| 0 <= j < mtests0.len() + 1 implies m@.tests[j]
                        == mods0[k as int].tests.push(rv)[j] by {
                        assert(m@.tests[j] == m.tests@[j]@);
                        if j < mtests0.len() {
                            assert(mods0[k as int].tests[j] == vec0[k as int].tests@[j]@);
                        }
                    }
                }
            }
            let ghost mv = m@;
            group.modules.insert(k, m);
            proof {
                assert(group.modules@ =~= vec0.update(k as int, m));
                assert(group@.modules =~= mods0.update(k as int, mv)) by {
                    assert forall|j: int| 0 <= j < mods0.len() implies group@.modules[j]
                        == mods0.update(k as int, mv)[j] by {
                        assert(group@.modules[j] == group.modules@[j]@);
                        if j != k {
                            assert(mods0[j] == vec0[j]@);
                        }
                    }
                }
                assert(mv == (ModuleV {
                    module: mods0[k as int].module,
                    tests: mods0[k as int].tests.push(rv),
                }));
                let target = add_result(
                    old(group)@,
                    test@,
                    result@,
                    cycle_count,
                    opt_view(location),
                    opt_view(message),
                );
                assert(target.modules == mods0.update(
                    k as int,
                    ModuleV {
                        module: mods0[k as int].module,
                        tests: mods0[k as int].tests.push(rv),
                    },
                ));
                assert(group@.modules == target.modules);
                assert(group@ == target);
            }
            return ;
        }
        proof {
            assert(mods0[k as int].module == group.modules@[k as int].module@);
            assert(mods0[k as int].module != mname@);
            lemma_find_module_step(mods0, mname@, k as int);
        }
        k = k + 1;
    }
    proof {
        assert(mods0.skip(n as int).len() == 0);
        assert(find_module(mods0, mname@) == -1);
    }
    let ghost vec0 = group.modules@;
    let mut tests: Vec<TestResult> = Vec::new();
    tests.push(r);
    let m = TestModule { module: mname, tests };
    let ghost mv = m@;
    group.modules.push(m);
    proof {
        assert(mv.tests =~= seq![rv]);
        assert(mv == (ModuleV { module: module_of(test@), tests: seq![rv] }));
        assert(group.modules@ =~= vec0.push(m));
        assert(group@.modules =~= mods0.push(mv)) by {
            assert forall|j: int| 0 <= j < mods0.len() + 1 implies group@.modules[j]
                == mods0.push(mv)[j] by {
                assert(group@.modules[j] == group.modules@[j]@);
                if j < mods0.len() {
                    assert(mods0[j] == vec0[j]@);
                }
            }
        }
        let target = add_result(
            old(group)@,
            test@,
            result@,
            cycle_count,
            opt_view(location),
            opt_view(message),
        );
        assert(target.modules == mods0.push(mv));
        assert(group@ == target);
    }
}

/// Fold one capture line into the ingestion state: a header allocates the
/// accumulator once, an outcome lands in its module bucket, anything else is
/// skipped. An outcome before any header is the one fatal shape.
pub fn process_json_line(state: &mut IngestState, line: &Vec<u8>, run_duration_ms: u64) -> (r:
    Result<(), KtestError>)
    ensures
        match r {
            Ok(()) => ingest_line_model(old(state)@, line@, run_duration_ms) == Some(
                final(state)@,
            ),
            Err(e) => ingest_line_model(old(state)@, line@, run_duration_ms) is None && e
                == KtestError::TestGroupNotSet,
        },
{
    match classify_capture_line(line) {
        CaptureRecord::Header { name, count, use_kview } => {
            match &state.test_group {
                None => {
                    state.test_group = Some(
                        TestGroup {
                            test_group: name,
                            summary: TestSummary {
                                total: count,
                                passed: 0,
                                failed: 0,
                                ignored: 0,
                                duration: run_duration_ms,
                            },
                            modules: Vec::new(),
                        },
                    );
                    state.use_kview = use_kview;
                    proof {
                        let g = state@.0.unwrap();
                        assert(g.modules =~= Seq::<ModuleV>::empty());
                    }
                    Ok(())
                },
                Some(_) => Ok(()),
            }
        },
        CaptureRecord::Outcome { test, result, cycle_count, location, message } => {
            match &mut state.test_group {
                Some(group) => {
                    push_outcome(group, test, result, cycle_count, location, message);
                    Ok(())
                },
                None => Err(KtestError::TestGroupNotSet),
            }
        },
        CaptureRecord::Other => Ok(()),
    }
}


// ---------------------------------------------------------------------------
// Summary counts
// ---------------------------------------------------------------------------
/// How many results in this list carry the given outcome word.
pub open spec fn count_in_tests(tests: Seq<ResultV>, word: Seq<u8>) -> int
    decreases tests.len(),
{
    if tests.len() == 0 {
        0
    } else {
        (if tests[0].result == word {
            1int
        } else {
            0int
        }) + count_in_tests(tests.skip(1), word)
    }
}

/// How many results across all modules carry the given outcome word.
pub open spec fn count_results(mods: Seq<ModuleV>, word: Seq<u8>) -> int
    decreases mods.len(),
{
    if mods.len() == 0 {
        0
    } else {
        count_in_tests(mods[0].tests, word) + count_results(mods.skip(1), word)
    }
}

/// How many results the report holds in all.
pub open spec fn sum_tests(mods: Seq<ModuleV>) -> int
    decreases mods.len(),
{
    if mods.len() == 0 {
        0
    } else {
        mods[0].tests.len() + sum_tests(mods.skip(1))
    }
}

pub open spec fn passed_of(g: GroupV) -> int {
    count_results(g.modules, "pass".spec_bytes())
}

pub open spec fn failed_of(g: GroupV) -> int {
    count_results(g.modules, "fail".spec_bytes())
}

/// The summary the pipeline computes once all lines are consumed: passed and
/// failed by exact match on the outcome word, ignored by saturating
/// subtraction (a guest reporting more results than it declared surfaces as
/// zero, never as a negative count).
pub open spec fn summarize(g: GroupV) -> GroupV {
    GroupV {
        summary: TestSummary {
            total: g.summary.total,
            passed: passed_of(g) as u64,
            failed: failed_of(g) as u64,
            ignored: (if g.summary.total >= passed_of(g) + failed_of(g) {
                g.summary.total - (passed_of(g) + failed_of(g))
            } else {
                0int
            }) as u64,
            duration: g.summary.duration,
        },
        ..g
    }
}

proof fn lemma_count_in_tests_pair(tests: Seq<ResultV>, a: Seq<u8>, b: Seq<u8>)
    requires
        a != b,
    ensures
        0 <= count_in_tests(tests, a),
        0 <= count_in_tests(tests, b),
        count_in_tests(tests, a) + count_in_tests(tests, b) <= tests.len(),
    decreases tests.len(),
{
    if tests.len() > 0 {
        lemma_count_in_tests_pair(tests.skip(1), a, b);
    }
}

/// Two distinct outcome words never count one result twice.
pub proof fn lemma_counts_bounded(mods: Seq<ModuleV>, a: Seq<u8>, b: Seq<u8>)
    requires
        a != b,
    ensures
        0 <= count_results(mods, a),
        0 <= count_results(mods, b),
        count_results(mods, a) + count_results(mods, b) <= sum_tests(mods),
    decreases mods.len(),
{
    if mods.len() > 0 {
        lemma_count_in_tests_pair(mods[0].tests, a, b);
        lemma_counts_bounded(mods.skip(1), a, b);
    }
}

/// The two outcome words are distinct.
pub proof fn lemma_pass_fail_distinct()
    ensures
        "pass".spec_bytes() != "fail".spec_bytes(),
{
    reveal_strlit("pass");
    reveal_strlit("fail");
    assert(vstd::utf8::is_ascii_chars("pass"@));
    assert(vstd::utf8::is_ascii_chars("fail"@));
    vstd::utf8::is_ascii_chars_encode_utf8("pass"@);
    vstd::utf8::is_ascii_chars_encode_utf8("fail"@);
    assert("pass".spec_bytes()[0] == 112);
    assert("fail".spec_bytes()[0] == 102);
}

/// The summary accounts for every declared test: total is passed plus
/// failed plus ignored, as long as the guest did not report more results
/// than it declared (over-reporting saturates `ignored` at zero instead).
pub proof fn lemma_summary_accounts(g: GroupV)
    requires
        passed_of(g) + failed_of(g) <= g.summary.total,
    ensures
        summarize(g).summary.total == summarize(g).summary.passed + summarize(g).summary.failed
            + summarize(g).summary.ignored,
{
    lemma_pass_fail_distinct();
    lemma_counts_bounded(g.modules, "pass".spec_bytes(), "fail".spec_bytes());
}

/// Count the results carrying one outcome word.
fn count_word(modules: &Vec<TestModule>, word: &Vec<u8>) -> (c: u64)
    requires
        0 <= count_results(old_mods_view(modules), word@) <= u64::MAX,
    ensures
        c as int == count_results(old_mods_view(modules), word@),
{
    let ghost mods = old_mods_view(modules);
    let ghost cfull = count_results(mods, word@);
    let mut c: u64 = 0;
    let mut i: usize = 0;
    proof {
        assert(mods.skip(0) =~= mods);
    }
    while i < modules.len()
        invariant
            i <= modules@.len(),
            mods == old_mods_view(modules),
            cfull == count_results(mods, word@),
            0 <= cfull <= u64::MAX,
            c as int == cfull - count_results(mods.skip(i as int), word@),
            c <= cfull,
        decreases modules@.len() - i,
    {
        proof {
            assert(mods.skip(i as int)[0] == mods[i as int]);
            assert(mods.skip(i as int).skip(1) =~= mods.skip(i as int + 1));
            lemma_count_nonneg(mods.skip(i as int + 1), word@);
            lemma_count_in_nonneg(mods[i as int].tests, word@);
        }
        let ghost tests = mods[i as int].tests;
        let n = modules[i].tests.len();
        let mut j: usize = 0;
        proof {
            assert(mods[i as int] == modules@[i as int]@);
            assert(tests.skip(0) =~= tests);
        }
        while j < n
            invariant
                j <= n,
                i < modules@.len(),
                n == modules@[i as int].tests@.len(),
                mods == old_mods_view(modules),
                cfull == count_results(mods, word@),
                0 <= cfull <= u64::MAX,
                mods[i as int] == modules@[i as int]@,
                tests == mods[i as int].tests,
                tests.len() == n,
                c as int == cfull - count_in_tests(tests.skip(j as int), word@) - count_results(
                    mods.skip(i as int + 1),
                    word@,
                ),
                count_in_tests(tests.skip(j as int), word@) >= 0,
                count_results(mods.skip(i as int + 1), word@) >= 0,
            decreases n - j,
        {
            proof {
                assert(tests.skip(j as int)[0] == tests[j as int]);
                assert(tests.skip(j as int).skip(1) =~= tests.skip(j as int + 1));
                assert(tests[j as int] == modules@[i as int].tests@[j as int]@);
                lemma_count_in_nonneg(tests.skip(j as int + 1), word@);
            }
            if crate::bytes::bytes_eq(&modules[i].tests[j].result, word) {
                proof {
                    assert(count_in_tests(tests.skip(j as int), word@) == 1 + count_in_tests(
                        tests.skip(j as int + 1),
                        word@,
                    ));
                }
                c = c + 1;
            } else {
                proof {
                    assert(count_in_tests(tests.skip(j as int), word@) == count_in_tests(
                        tests.skip(j as int + 1),
                        word@,
                    ));
                }
            }
            j = j + 1;
        }
        proof {
            assert(tests.skip(n as int).len() == 0);
            assert(count_results(mods.skip(i as int), word@) == count_in_tests(tests, word@)
                + count_results(mods.skip(i as int + 1), word@));
        }
        i = i + 1;
    }
    proof {
        assert(mods.skip(modules@.len() as int).len() == 0);
    }
    c
}

/// The model of a module vector.
pub open spec fn old_mods_view(modules: &Vec<TestModule>) -> Seq<ModuleV> {
    modules@.map_values(|m: TestModule| m@)
}

proof fn lemma_count_nonneg(mods: Seq<ModuleV>, word: Seq<u8>)
    ensures
        count_results(mods, word) >= 0,
        sum_tests(mods) >= 0,
        count_results(mods, word) <= sum_tests(mods),
    decreases mods.len(),
{
    if mods.len() > 0 {
        lemma_count_in_nonneg(mods[0].tests, word);
        lemma_count_nonneg(mods.skip(1), word);
    }
}

proof fn lemma_count_in_nonneg(tests: Seq<ResultV>, word: Seq<u8>)
    ensures
        0 <= count_in_tests(tests, word) <= tests.len(),
    decreases tests.len(),
{
    if tests.len() > 0 {
        lemma_count_in_nonneg(tests.skip(1), word);
    }
}

/// Fill in the summary counts of a fully ingested report.
pub fn process_summary(group: &mut TestGroup)
    requires
        sum_tests(old(group)@.modules) <= u64::MAX,
    ensures
        final(group)@ == summarize(old(group)@),
{
    proof {
        lemma_pass_fail_distinct();
        lemma_counts_bounded(group@.modules, "pass".spec_bytes(), "fail".spec_bytes());
        lemma_count_nonneg(group@.modules, "pass".spec_bytes());
        lemma_count_nonneg(group@.modules, "fail".spec_bytes());
    }
    let passed = count_word(&group.modules, &"pass".as_bytes_vec());
    let failed = count_word(&group.modules, &"fail".as_bytes_vec());
    group.summary.passed = passed;
    group.summary.failed = failed;
    group.summary.ignored = if group.summary.total >= passed + failed {
        group.summary.total - (passed + failed)
    } else {
        0
    };
}


// ---------------------------------------------------------------------------
// The whole pipeline for one run
// ---------------------------------------------------------------------------
proof fn lemma_sum_tests_update(mods: Seq<ModuleV>, ix: int, m: ModuleV)
    requires
        0 <= ix < mods.len(),
    ensures
        sum_tests(mods.update(ix, m)) == sum_tests(mods) - mods[ix].tests.len() + m.tests.len(),
    decreases mods.len(),
{
    if ix == 0 {
        assert(mods.update(0, m)[0] == m);
        assert(mods.update(0, m).skip(1) =~= mods.skip(1));
    } else {
        assert(mods.update(ix, m)[0] == mods[0]);
        assert(mods.update(ix, m).skip(1) =~= mods.skip(1).update(ix - 1, m));
        lemma_sum_tests_update(mods.skip(1), ix - 1, m);
    }
}

proof fn lemma_sum_tests_push(mods: Seq<ModuleV>, m: ModuleV)
    ensures
        sum_tests(mods.push(m)) == sum_tests(mods) + m.tests.len(),
    decreases mods.len(),
{
    if mods.len() == 0 {
        assert(mods.push(m)[0] == m);
        assert(mods.push(m).skip(1) =~= Seq::<ModuleV>::empty());
        assert(sum_tests(Seq::<ModuleV>::empty()) == 0);
    } else {
        assert(mods.push(m)[0] == mods[0]);
        assert(mods.push(m).skip(1) =~= mods.skip(1).push(m));
        lemma_sum_tests_push(mods.skip(1), m);
    }
}

proof fn lemma_add_result_sum(
    g: GroupV,
    test: Seq<u8>,
    result: Seq<u8>,
    cycle_count: u64,
    location: Option<Seq<u8>>,
    message: Option<Seq<u8>>,
)
    ensures
        sum_tests(add_result(g, test, result, cycle_count, location, message).modules)
            == sum_tests(g.modules) + 1,
{
    let mname = module_of(test);
    let ix = find_module(g.modules, mname);
    lemma_find_module_bounds(g.modules, mname);
    if ix >= 0 {
        let m = ModuleV { module: g.modules[ix].module, tests: g.modules[ix].tests.push(
            ResultV {
                test: function_of(test),
                result,
                cycle_count,
                location,
                message,
            },
        ) };
        lemma_sum_tests_update(g.modules, ix, m);
    } else {
        let m = ModuleV { module: mname, tests: seq![
            ResultV {
                test: function_of(test),
                result,
                cycle_count,
                location,
                message,
            },
        ] };
        lemma_sum_tests_push(g.modules, m);
    }
}

/// Total result count of an ingestion state.
pub open spec fn state_sum(st: (Option<GroupV>, bool)) -> int {
    match st.0 {
        Some(g) => sum_tests(g.modules),
        None => 0,
    }
}

/// Ingesting a line grows the report by at most one result.
proof fn lemma_ingest_line_sum(st: (Option<GroupV>, bool), line: Seq<u8>, duration_ms: u64)
    ensures
        ingest_line_model(st, line, duration_ms) matches Some(st2) ==> state_sum(st2) <= state_sum(
            st,
        ) + 1,
{
    match capture_line_kind(line) {
        CaptureLine::Header { name, count, use_kview } => {
            match st.0 {
                None => {
                    assert(sum_tests(Seq::<ModuleV>::empty()) == 0);
                },
                Some(_) => {
                },
            }
        },
        CaptureLine::Outcome { test, result, cycle_count, location, message } => {
            match st.0 {
                Some(g) => {
                    lemma_add_result_sum(g, test, result, cycle_count, location, message);
                },
                None => {
                },
            }
        },
        CaptureLine::Other => {
        },
    }
}

/// Ingesting a capture grows the report by at most one result per line.
proof fn lemma_ingest_lines_sum(st: (Option<GroupV>, bool), lines: Seq<Seq<u8>>, duration_ms: u64)
    requires
        state_sum(st) >= 0,
    ensures
        ingest_lines(st, lines, duration_ms) matches Some(st2) ==> 0 <= state_sum(st2)
            <= state_sum(st) + lines.len(),
    decreases lines.len(),
{
    if lines.len() > 0 {
        match ingest_line_model(st, lines[0], duration_ms) {
            Some(st2) => {
                lemma_ingest_line_sum(st, lines[0], duration_ms);
                match st2.0 {
                    Some(g) => {
                        lemma_count_nonneg(g.modules, Seq::empty());
                    },
                    None => {
                    },
                }
                lemma_ingest_lines_sum(st2, lines.skip(1), duration_ms);
            },
            None => {
            },
        }
    }
}

/// Should this invocation ingest at all? Ingestion is skipped entirely when
/// the run is not a test binary, when it was switched off, or when no
/// capture file exists (a guest that crashed before emitting anything).
pub fn should_ingest(is_test_run: bool, no_ktest: bool, capture_exists: bool) -> (r: bool)
    ensures
        r == (is_test_run && !no_ktest && capture_exists),
{
    is_test_run && !no_ktest && capture_exists
}

/// Fold a whole capture, line by line, into one report, then fill in its
/// summary. The viewer flag of the header line is handed back beside the
/// report.
pub fn process_test_results(lines: &Vec<Vec<u8>>, run_duration_ms: u64) -> (r: Result<
    (TestGroup, bool),
    KtestError,
>)
    ensures
        match r {
            Ok(gkv) => ingest_lines(
                (None, false),
                lines.deep_view(),
                run_duration_ms,
            ) matches Some(st) && st.0 matches Some(g) && gkv.0@ == summarize(g) && gkv.1 == st.1,
            Err(e) => match e {
                KtestError::TestGroupNotSet => ingest_lines(
                    (None, false),
                    lines.deep_view(),
                    run_duration_ms,
                ) is None,
                KtestError::NoTestGroupFound => ingest_lines(
                    (None, false),
                    lines.deep_view(),
                    run_duration_ms,
                ) matches Some(st) && st.0 is None,
            },
        },
{
    let ghost all = lines.deep_view();
    let ghost init: (Option<GroupV>, bool) = (None, false);
    let mut state = IngestState::new();
    let mut i: usize = 0;
    proof {
        assert(all.skip(0) =~= all);
    }
    while i < lines.len()
        invariant
            i <= lines@.len(),
            all == lines.deep_view(),
            init == (None::<GroupV>, false),
            ingest_lines(init, all, run_duration_ms) == ingest_lines(
                state@,
                all.skip(i as int),
                run_duration_ms,
            ),
        decreases lines@.len() - i,
    {
        proof {
            assert(all.skip(i as int)[0] == all[i as int]);
            assert(all[i as int] == lines@[i as int]@);
            assert(all.skip(i as int).skip(1) =~= all.skip(i as int + 1));
        }
        match process_json_line(&mut state, &lines[i], run_duration_ms) {
            Ok(()) => {
            },
            Err(e) => {
                return Err(e);
            },
        }
        i = i + 1;
    }
    proof {
        assert(all.skip(lines@.len() as int).len() == 0);
        assert(ingest_lines(init, all, run_duration_ms) == Some(state@));
        lemma_ingest_lines_sum(init, all, run_duration_ms);
    }
    let use_kview = state.use_kview;
    match state.test_group {
        Some(mut group) => {
            proof {
                assert(state_sum(state@) <= all.len());
            }
            process_summary(&mut group);
            Ok((group, use_kview))
        },
        None => Err(KtestError::NoTestGroupFound),
    }
}


// ---------------------------------------------------------------------------
// The persisted report: encoding
// ---------------------------------------------------------------------------
pub open spec fn lit_tg() -> Seq<u8> {
    "{\"test_group\":".spec_bytes()
}

pub open spec fn lit_sum() -> Seq<u8> {
    ",\"summary\":{\"total\":".spec_bytes()
}

pub open spec fn lit_passed() -> Seq<u8> {
    ",\"passed\":".spec_bytes()
}

pub open spec fn lit_failed() -> Seq<u8> {
    ",\"failed\":".spec_bytes()
}

pub open spec fn lit_ignored() -> Seq<u8> {
    ",\"ignored\":".spec_bytes()
}

pub open spec fn lit_duration() -> Seq<u8> {
    ",\"duration\":".spec_bytes()
}

pub open spec fn lit_modules() -> Seq<u8> {
    "},\"modules\":[".spec_bytes()
}

pub open spec fn lit_module() -> Seq<u8> {
    "{\"module\":".spec_bytes()
}

pub open spec fn lit_tests() -> Seq<u8> {
    ",\"tests\":[".spec_bytes()
}

pub open spec fn lit_test() -> Seq<u8> {
    "{\"test\":".spec_bytes()
}

pub open spec fn lit_result() -> Seq<u8> {
    ",\"result\":".spec_bytes()
}

pub open spec fn lit_cycle() -> Seq<u8> {
    ",\"cycle_count\":".spec_bytes()
}

pub open spec fn lit_loc() -> Seq<u8> {
    ",\"location\":".spec_bytes()
}

pub open spec fn lit_msg() -> Seq<u8> {
    ",\"message\":".spec_bytes()
}

/// One test result as persisted: the optional fields appear only when set.
pub open spec fn enc_test(t: ResultV) -> Seq<u8> {
    lit_test() + crate::json::enc_str(t.test) + lit_result() + crate::json::enc_str(t.result)
        + lit_cycle() + crate::json::enc_u64(t.cycle_count) + (match t.location {
        Some(l) => lit_loc() + crate::json::enc_str(l),
        None => Seq::empty(),
    }) + (match t.message {
        Some(m) => lit_msg() + crate::json::enc_str(m),
        None => Seq::empty(),
    }) + seq![crate::json::RBRACE]
}

/// A list of results, commas between them (the closing bracket is the
/// enclosing encoder's).
pub open spec fn enc_tests(ts: Seq<ResultV>) -> Seq<u8>
    decreases ts.len(),
{
    if ts.len() == 0 {
        Seq::empty()
    } else if ts.len() == 1 {
        enc_test(ts[0])
    } else {
        enc_test(ts[0]) + seq![crate::json::COMMA] + enc_tests(ts.skip(1))
    }
}

/// One module as persisted.
pub open spec fn enc_module(m: ModuleV) -> Seq<u8> {
    lit_module() + crate::json::enc_str(m.module) + lit_tests() + enc_tests(m.tests) + seq![
        crate::json::RBRACK,
        crate::json::RBRACE,
    ]
}

/// A list of modules, commas between them.
pub open spec fn enc_modules(ms: Seq<ModuleV>) -> Seq<u8>
    decreases ms.len(),
{
    if ms.len() == 0 {
        Seq::empty()
    } else if ms.len() == 1 {
        enc_module(ms[0])
    } else {
        enc_module(ms[0]) + seq![crate::json::COMMA] + enc_modules(ms.skip(1))
    }
}

/// A whole report as persisted: compact JSON in the group / summary /
/// modules shape.
/// The summary's fields as persisted, from the key that opens the summary
/// object through the bracket that opens the module list.
pub open spec fn enc_summary_block(sum: TestSummary) -> Seq<u8> {
    lit_sum() + (crate::json::enc_u64(sum.total) + (lit_passed() + (crate::json::enc_u64(
        sum.passed,
    ) + (lit_failed() + (crate::json::enc_u64(sum.failed) + (lit_ignored()
        + (crate::json::enc_u64(sum.ignored) + (lit_duration() + (crate::json::enc_u64(
        sum.duration,
    ) + lit_modules())))))))))
}

pub open spec fn enc_report(g: GroupV) -> Seq<u8> {
    lit_tg() + (crate::json::enc_str(g.test_group) + (enc_summary_block(g.summary)
        + ((enc_modules(g.modules) + seq![crate::json::RBRACK]) + seq![crate::json::RBRACE])))
}

// ---------------------------------------------------------------------------
// The persisted report: parsing
// ---------------------------------------------------------------------------
/// Match an exact literal.
pub open spec fn parse_lit(s: Seq<u8>, i: int, lit: Seq<u8>) -> Option<int> {
    if crate::json::is_at(s, i, lit) {
        Some(i + lit.len())
    } else {
        None
    }
}

/// Parse one persisted test record.
pub open spec fn parse_test_at(s: Seq<u8>, i: int) -> Option<(ResultV, int)> {
    match parse_lit(s, i, lit_test()) {
        Some(j) => match crate::json::parse_string_at(s, j) {
            Some((test, j2)) => match parse_lit(s, j2, lit_result()) {
                Some(j3) => match crate::json::parse_string_at(s, j3) {
                    Some((result, j4)) => match parse_lit(s, j4, lit_cycle()) {
                        Some(j5) => match crate::json::parse_u64_at(s, j5) {
                            Some((cycle_count, j6)) => {
                                let loc = if crate::json::is_at(s, j6, lit_loc()) {
                                    match crate::json::parse_string_at(s, j6 + lit_loc().len()) {
                                        Some((l, j7)) => Some((Some(l), j7)),
                                        None => None,
                                    }
                                } else {
                                    Some((None, j6))
                                };
                                match loc {
                                    Some((location, j7)) => {
                                        let msg = if crate::json::is_at(s, j7, lit_msg()) {
                                            match crate::json::parse_string_at(
                                                s,
                                                j7 + lit_msg().len(),
                                            ) {
                                                Some((m, j8)) => Some((Some(m), j8)),
                                                None => None,
                                            }
                                        } else {
                                            Some((None, j7))
                                        };
                                        match msg {
                                            Some((message, j8)) => {
                                                if 0 <= j8 < s.len() && s[j8]
                                                    == crate::json::RBRACE {
                                                    Some(
                                                        (
                                                            ResultV {
                                                                test,
                                                                result,
                                                                cycle_count,
                                                                location,
                                                                message,
                                                            },
                                                            j8 + 1,
                                                        ),
                                                    )
                                                } else {
                                                    None
                                                }
                                            },
                                            None => None,
                                        }
                                    },
                                    None => None,
                                }
                            },
                            None => None,
                        },
                        None => None,
                    },
                    None => None,
                },
                None => None,
            },
            None => None,
        },
        None => None,
    }
}

/// Parse a list of test records up to and including its closing bracket.
pub open spec fn parse_tests_at(s: Seq<u8>, i: int) -> Option<(Seq<ResultV>, int)>
    decreases s.len() - i,
{
    if 0 <= i < s.len() && s[i] == crate::json::RBRACK {
        Some((Seq::empty(), i + 1))
    } else {
        match parse_test_at(s, i) {
            Some((t, j)) => {
                if 0 <= j < s.len() && s[j] == crate::json::COMMA {
                    if i < j + 1 <= s.len() {
                        match parse_tests_at(s, j + 1) {
                            Some((rest, j2)) => Some((seq![t] + rest, j2)),
                            None => None,
                        }
                    } else {
                        None
                    }
                } else if 0 <= j < s.len() && s[j] == crate::json::RBRACK {
                    Some((seq![t], j + 1))
                } else {
                    None
                }
            },
            None => None,
        }
    }
}

/// Parse one persisted module.
pub open spec fn parse_module_at(s: Seq<u8>, i: int) -> Option<(ModuleV, int)> {
    match parse_lit(s, i, lit_module()) {
        Some(j) => match crate::json::parse_string_at(s, j) {
            Some((module, j2)) => match parse_lit(s, j2, lit_tests()) {
                Some(j3) => match parse_tests_at(s, j3) {
                    Some((tests, j4)) => {
                        if 0 <= j4 < s.len() && s[j4] == crate::json::RBRACE {
                            Some((ModuleV { module, tests }, j4 + 1))
                        } else {
                            None
                        }
                    },
                    None => None,
                },
                None => None,
            },
            None => None,
        },
        None => None,
    }
}

/// Parse a list of modules up to and including its closing bracket.
pub open spec fn parse_modules_at(s: Seq<u8>, i: int) -> Option<(Seq<ModuleV>, int)>
    decreases s.len() - i,
{
    if 0 <= i < s.len() && s[i] == crate::json::RBRACK {
        Some((Seq::empty(), i + 1))
    } else {
        match parse_module_at(s, i) {
            Some((m, j)) => {
                if 0 <= j < s.len() && s[j] == crate::json::COMMA {
                    if i < j + 1 <= s.len() {
                        match parse_modules_at(s, j + 1) {
                            Some((rest, j2)) => Some((seq![m] + rest, j2)),
                            None => None,
                        }
                    } else {
                        None
                    }
                } else if 0 <= j < s.len() && s[j] == crate::json::RBRACK {
                    Some((seq![m], j + 1))
                } else {
                    None
                }
            },
            None => None,
        }
    }
}

/// Parse the summary block, from its opening key through the bracket that
/// opens the module list.
pub open spec fn parse_summary_at(s: Seq<u8>, i: int) -> Option<(TestSummary, int)> {
    match parse_lit(s, i, lit_sum()) {
        Some(j) => match crate::json::parse_u64_at(s, j) {
            Some((total, j2)) => match parse_lit(s, j2, lit_passed()) {
                Some(j3) => match crate::json::parse_u64_at(s, j3) {
                    Some((passed, j4)) => match parse_lit(s, j4, lit_failed()) {
                        Some(j5) => match crate::json::parse_u64_at(s, j5) {
                            Some((failed, j6)) => match parse_lit(s, j6, lit_ignored()) {
                                Some(j7) => match crate::json::parse_u64_at(s, j7) {
                                    Some((ignored, j8)) => match parse_lit(s, j8, lit_duration()) {
                                        Some(j9) => match crate::json::parse_u64_at(s, j9) {
                                            Some((duration, j10)) => match parse_lit(
                                                s,
                                                j10,
                                                lit_modules(),
                                            ) {
                                                Some(j11) => Some(
                                                    (
                                                        TestSummary {
                                                            total,
                                                            passed,
                                                            failed,
                                                            ignored,
                                                            duration,
                                                        },
                                                        j11,
                                                    ),
                                                ),
                                                None => None,
                                            },
                                            None => None,
                                        },
                                        None => None,
                                    },
                                    None => None,
                                },
                                None => None,
                            },
                            None => None,
                        },
                        None => None,
                    },
                    None => None,
                },
                None => None,
            },
            None => None,
        },
        None => None,
    }
}

/// Parse a whole persisted report.
pub open spec fn parse_report(s: Seq<u8>) -> Option<GroupV> {
    match parse_lit(s, 0, lit_tg()) {
        Some(j) => match crate::json::parse_string_at(s, j) {
            Some((test_group, j2)) => match parse_summary_at(s, j2) {
                Some((summary, j3)) => match parse_modules_at(s, j3) {
                    Some((modules, j4)) => {
                        if j4 + 1 == s.len() && 0 <= j4 < s.len() && s[j4] == crate::json::RBRACE {
                            Some(GroupV { test_group, summary, modules })
                        } else {
                            None
                        }
                    },
                    None => None,
                },
                None => None,
            },
            None => None,
        },
        None => None,
    }
}

// ---------------------------------------------------------------------------
// The persisted report: what was written parses back (round trip)
// ---------------------------------------------------------------------------
/// The concrete leading bytes of the report's punctuation, where the parser
/// has to tell alternatives apart.
proof fn lemma_lit_first_bytes()
    ensures
        lit_test().len() >= 1 && lit_test()[0] == 123,
        lit_module().len() >= 1 && lit_module()[0] == 123,
        lit_passed().len() >= 1 && lit_passed()[0] == 44,
        lit_failed().len() >= 1 && lit_failed()[0] == 44,
        lit_ignored().len() >= 1 && lit_ignored()[0] == 44,
        lit_duration().len() >= 1 && lit_duration()[0] == 44,
        lit_modules().len() >= 1 && lit_modules()[0] == 125,
{
    reveal_strlit("{\"test\":");
    reveal_strlit("{\"module\":");
    reveal_strlit(",\"passed\":");
    reveal_strlit(",\"failed\":");
    reveal_strlit(",\"ignored\":");
    reveal_strlit(",\"duration\":");
    reveal_strlit("},\"modules\":[");
    assert(vstd::utf8::is_ascii_chars("{\"test\":"@));
    assert(vstd::utf8::is_ascii_chars("{\"module\":"@));
    assert(vstd::utf8::is_ascii_chars(",\"passed\":"@));
    assert(vstd::utf8::is_ascii_chars(",\"failed\":"@));
    assert(vstd::utf8::is_ascii_chars(",\"ignored\":"@));
    assert(vstd::utf8::is_ascii_chars(",\"duration\":"@));
    assert(vstd::utf8::is_ascii_chars("},\"modules\":["@));
    vstd::utf8::is_ascii_chars_encode_utf8("{\"test\":"@);
    vstd::utf8::is_ascii_chars_encode_utf8("{\"module\":"@);
    vstd::utf8::is_ascii_chars_encode_utf8(",\"passed\":"@);
    vstd::utf8::is_ascii_chars_encode_utf8(",\"failed\":"@);
    vstd::utf8::is_ascii_chars_encode_utf8(",\"ignored\":"@);
    vstd::utf8::is_ascii_chars_encode_utf8(",\"duration\":"@);
    vstd::utf8::is_ascii_chars_encode_utf8("},\"modules\":["@);
}

/// The concrete bytes of the two optional-field keys; the parser tells them
/// apart from each other and from the record's closing brace.
proof fn lemma_lit_optional_keys()
    ensures
        lit_loc() =~= seq![44u8, 34u8, 108u8, 111u8, 99u8, 97u8, 116u8, 105u8, 111u8, 110u8, 34u8, 58u8],
        lit_msg() =~= seq![44u8, 34u8, 109u8, 101u8, 115u8, 115u8, 97u8, 103u8, 101u8, 34u8, 58u8],
{
    reveal_strlit(",\"location\":");
    reveal_strlit(",\"message\":");
    assert(vstd::utf8::is_ascii_chars(",\"location\":"@));
    assert(vstd::utf8::is_ascii_chars(",\"message\":"@));
    vstd::utf8::is_ascii_chars_encode_utf8(",\"location\":"@);
    vstd::utf8::is_ascii_chars_encode_utf8(",\"message\":"@);
}

/// One encoded test record parses back to itself.
#[verifier::rlimit(100)]
#[verifier::spinoff_prover]
proof fn lemma_parse_test_of_enc(s: Seq<u8>, i: int, t: ResultV)
    requires
        crate::json::is_at(s, i, enc_test(t)),
    ensures
        parse_test_at(s, i) == Some((t, i + enc_test(t).len())),
{
    lemma_lit_first_bytes();
    lemma_lit_optional_keys();
    let p_loc: Seq<u8> = match t.location {
        Some(l) => lit_loc() + crate::json::enc_str(l),
        None => Seq::empty(),
    };
    let p_msg: Seq<u8> = match t.message {
        Some(m) => lit_msg() + crate::json::enc_str(m),
        None => Seq::empty(),
    };
    let p1 = lit_test();
    let p2 = crate::json::enc_str(t.test);
    let p3 = lit_result();
    let p4 = crate::json::enc_str(t.result);
    let p5 = lit_cycle();
    let p6 = crate::json::enc_u64(t.cycle_count);
    let tail9: Seq<u8> = seq![crate::json::RBRACE];
    assert(enc_test(t) =~= p1 + (p2 + (p3 + (p4 + (p5 + (p6 + (p_loc + (p_msg + tail9))))))));
    crate::json::lemma_is_at_split(s, i, p1, p2 + (p3 + (p4 + (p5 + (p6 + (p_loc + (p_msg
        + tail9)))))));
    let i1: int = i + p1.len();
    crate::json::lemma_is_at_split(s, i1, p2, p3 + (p4 + (p5 + (p6 + (p_loc + (p_msg + tail9))))));
    let i2: int = i1 + p2.len();
    crate::json::lemma_is_at_split(s, i2, p3, p4 + (p5 + (p6 + (p_loc + (p_msg + tail9)))));
    let i3: int = i2 + p3.len();
    crate::json::lemma_is_at_split(s, i3, p4, p5 + (p6 + (p_loc + (p_msg + tail9))));
    let i4: int = i3 + p4.len();
    crate::json::lemma_is_at_split(s, i4, p5, p6 + (p_loc + (p_msg + tail9)));
    let i5: int = i4 + p5.len();
    crate::json::lemma_is_at_split(s, i5, p6, p_loc + (p_msg + tail9));
    let i6: int = i5 + p6.len();
    crate::json::lemma_is_at_split(s, i6, p_loc, p_msg + tail9);
    let i7: int = i6 + p_loc.len();
    crate::json::lemma_is_at_split(s, i7, p_msg, tail9);
    let i8: int = i7 + p_msg.len();
    crate::json::lemma_is_at_byte(s, i8, tail9, 0);
    assert(s[i8] == 125);
    crate::json::lemma_parse_string_of_enc(s, i1, t.test);
    crate::json::lemma_parse_string_of_enc(s, i3, t.result);
    // the byte after the number is never a digit
    let after_num: u8 = match t.location {
        Some(l) => 44u8,
        None => match t.message {
            Some(m) => 44u8,
            None => 125u8,
        },
    };
    assert(s[i6] == after_num) by {
        match t.location {
            Some(l) => {
                crate::json::lemma_is_at_byte(s, i6, p_loc, 0);
            },
            None => {
                match t.message {
                    Some(m) => {
                        crate::json::lemma_is_at_byte(s, i7, p_msg, 0);
                    },
                    None => {
                    },
                }
            },
        }
    }
    crate::json::lemma_parse_u64_of_enc(s, i5, t.cycle_count);
    // the optional fields are recognized correctly
    match t.location {
        Some(l) => {
            crate::json::lemma_is_at_split(s, i6, lit_loc(), crate::json::enc_str(l));
            crate::json::lemma_parse_string_of_enc(s, i6 + lit_loc().len(), l);
        },
        None => {
            assert(!crate::json::is_at(s, i6, lit_loc())) by {
                if crate::json::is_at(s, i6, lit_loc()) {
                    crate::json::lemma_is_at_byte(s, i6, lit_loc(), 0);
                    match t.message {
                        Some(m) => {
                            crate::json::lemma_is_at_byte(s, i6, lit_loc(), 2);
                            crate::json::lemma_is_at_byte(s, i7, p_msg, 2);
                        },
                        None => {
                        },
                    }
                }
            }
        },
    }
    match t.message {
        Some(m) => {
            crate::json::lemma_is_at_split(s, i7, lit_msg(), crate::json::enc_str(m));
            crate::json::lemma_parse_string_of_enc(s, i7 + lit_msg().len(), m);
        },
        None => {
            assert(!crate::json::is_at(s, i7, lit_msg())) by {
                if crate::json::is_at(s, i7, lit_msg()) {
                    crate::json::lemma_is_at_byte(s, i7, lit_msg(), 0);
                }
            }
        },
    }
}

/// An encoded test list followed by its closing bracket parses back.
#[verifier::rlimit(100)]
#[verifier::spinoff_prover]
proof fn lemma_parse_tests_of_enc(s: Seq<u8>, i: int, ts: Seq<ResultV>)
    requires
        crate::json::is_at(s, i, enc_tests(ts) + seq![crate::json::RBRACK]),
    ensures
        parse_tests_at(s, i) == Some((ts, i + enc_tests(ts).len() + 1)),
    decreases ts.len(),
{
    lemma_lit_first_bytes();
    if ts.len() == 0 {
        assert(enc_tests(ts) + seq![crate::json::RBRACK] =~= seq![crate::json::RBRACK]);
        crate::json::lemma_is_at_byte(s, i, seq![crate::json::RBRACK], 0);
        assert(ts =~= Seq::<ResultV>::empty());
    } else if ts.len() == 1 {
        assert(enc_tests(ts) + seq![crate::json::RBRACK] =~= enc_test(ts[0]) + seq![
            crate::json::RBRACK,
        ]);
        crate::json::lemma_is_at_split(s, i, enc_test(ts[0]), seq![crate::json::RBRACK]);
        let j: int = i + enc_test(ts[0]).len();
        crate::json::lemma_is_at_byte(s, i, enc_test(ts[0]), 0);
        assert(enc_test(ts[0])[0] == lit_test()[0]);
        assert(s[i] == 123);
        lemma_parse_test_of_enc(s, i, ts[0]);
        crate::json::lemma_is_at_byte(s, j, seq![crate::json::RBRACK], 0);
        assert(s[j] == crate::json::RBRACK);
        assert(seq![ts[0]] =~= ts);
    } else {
        assert(enc_tests(ts) + seq![crate::json::RBRACK] =~= enc_test(ts[0]) + (seq![
            crate::json::COMMA,
        ] + (enc_tests(ts.skip(1)) + seq![crate::json::RBRACK])));
        crate::json::lemma_is_at_split(s, i, enc_test(ts[0]), seq![crate::json::COMMA] + (enc_tests(
            ts.skip(1),
        ) + seq![crate::json::RBRACK]));
        let j: int = i + enc_test(ts[0]).len();
        crate::json::lemma_is_at_split(s, j, seq![crate::json::COMMA], enc_tests(ts.skip(1))
            + seq![crate::json::RBRACK]);
        crate::json::lemma_is_at_byte(s, i, enc_test(ts[0]), 0);
        assert(enc_test(ts[0])[0] == lit_test()[0]);
        assert(s[i] == 123);
        lemma_parse_test_of_enc(s, i, ts[0]);
        crate::json::lemma_is_at_byte(s, j, seq![crate::json::COMMA], 0);
        assert(s[j] == crate::json::COMMA);
        lemma_parse_tests_of_enc(s, j + 1, ts.skip(1));
        assert(seq![ts[0]] + ts.skip(1) =~= ts);
    }
}

/// One encoded module parses back to itself.
#[verifier::rlimit(100)]
#[verifier::spinoff_prover]
proof fn lemma_parse_module_of_enc(s: Seq<u8>, i: int, m: ModuleV)
    requires
        crate::json::is_at(s, i, enc_module(m)),
    ensures
        parse_module_at(s, i) == Some((m, i + enc_module(m).len())),
{
    lemma_lit_first_bytes();
    let p1 = lit_module();
    let p2 = crate::json::enc_str(m.module);
    let p3 = lit_tests();
    let p4 = enc_tests(m.tests) + seq![crate::json::RBRACK];
    let p5: Seq<u8> = seq![crate::json::RBRACE];
    assert(enc_module(m) =~= p1 + (p2 + (p3 + (p4 + p5))));
    crate::json::lemma_is_at_split(s, i, p1, p2 + (p3 + (p4 + p5)));
    let i1: int = i + p1.len();
    crate::json::lemma_is_at_split(s, i1, p2, p3 + (p4 + p5));
    let i2: int = i1 + p2.len();
    crate::json::lemma_is_at_split(s, i2, p3, p4 + p5);
    let i3: int = i2 + p3.len();
    crate::json::lemma_is_at_split(s, i3, p4, p5);
    let i4: int = i3 + p4.len();
    crate::json::lemma_parse_string_of_enc(s, i1, m.module);
    lemma_parse_tests_of_enc(s, i3, m.tests);
    crate::json::lemma_is_at_byte(s, i4, p5, 0);
    assert(s[i4] == crate::json::RBRACE);
}

/// An encoded module list followed by its closing bracket parses back.
#[verifier::rlimit(100)]
#[verifier::spinoff_prover]
proof fn lemma_parse_modules_of_enc(s: Seq<u8>, i: int, ms: Seq<ModuleV>)
    requires
        crate::json::is_at(s, i, enc_modules(ms) + seq![crate::json::RBRACK]),
    ensures
        parse_modules_at(s, i) == Some((ms, i + enc_modules(ms).len() + 1)),
    decreases ms.len(),
{
    lemma_lit_first_bytes();
    if ms.len() == 0 {
        assert(enc_modules(ms) + seq![crate::json::RBRACK] =~= seq![crate::json::RBRACK]);
        crate::json::lemma_is_at_byte(s, i, seq![crate::json::RBRACK], 0);
        assert(ms =~= Seq::<ModuleV>::empty());
    } else if ms.len() == 1 {
        assert(enc_modules(ms) + seq![crate::json::RBRACK] =~= enc_module(ms[0]) + seq![
            crate::json::RBRACK,
        ]);
        crate::json::lemma_is_at_split(s, i, enc_module(ms[0]), seq![crate::json::RBRACK]);
        let j: int = i + enc_module(ms[0]).len();
        crate::json::lemma_is_at_byte(s, i, enc_module(ms[0]), 0);
        assert(enc_module(ms[0])[0] == lit_module()[0]);
        assert(s[i] == 123);
        lemma_parse_module_of_enc(s, i, ms[0]);
        crate::json::lemma_is_at_byte(s, j, seq![crate::json::RBRACK], 0);
        assert(s[j] == crate::json::RBRACK);
        assert(seq![ms[0]] =~= ms);
    } else {
        assert(enc_modules(ms) + seq![crate::json::RBRACK] =~= enc_module(ms[0]) + (seq![
            crate::json::COMMA,
        ] + (enc_modules(ms.skip(1)) + seq![crate::json::RBRACK])));
        crate::json::lemma_is_at_split(s, i, enc_module(ms[0]), seq![crate::json::COMMA]
            + (enc_modules(ms.skip(1)) + seq![crate::json::RBRACK]));
        let j: int = i + enc_module(ms[0]).len();
        crate::json::lemma_is_at_split(s, j, seq![crate::json::COMMA], enc_modules(ms.skip(1))
            + seq![crate::json::RBRACK]);
        crate::json::lemma_is_at_byte(s, i, enc_module(ms[0]), 0);
        assert(enc_module(ms[0])[0] == lit_module()[0]);
        assert(s[i] == 123);
        lemma_parse_module_of_enc(s, i, ms[0]);
        crate::json::lemma_is_at_byte(s, j, seq![crate::json::COMMA], 0);
        assert(s[j] == crate::json::COMMA);
        lemma_parse_modules_of_enc(s, j + 1, ms.skip(1));
        assert(seq![ms[0]] + ms.skip(1) =~= ms);
    }
}

/// The encoded summary block parses back to its summary.
#[verifier::rlimit(100)]
#[verifier::spinoff_prover]
proof fn lemma_parse_summary_of_enc(s: Seq<u8>, i: int, sum: TestSummary)
    requires
        crate::json::is_at(s, i, enc_summary_block(sum)),
    ensures
        parse_summary_at(s, i) == Some((sum, i + enc_summary_block(sum).len())),
{
    lemma_lit_first_bytes();
    let p1 = lit_sum();
    let p2 = crate::json::enc_u64(sum.total);
    let p3 = lit_passed();
    let p4 = crate::json::enc_u64(sum.passed);
    let p5 = lit_failed();
    let p6 = crate::json::enc_u64(sum.failed);
    let p7 = lit_ignored();
    let p8 = crate::json::enc_u64(sum.ignored);
    let p9 = lit_duration();
    let p10 = crate::json::enc_u64(sum.duration);
    let p11 = lit_modules();
    crate::json::lemma_is_at_split(s, i, p1, p2 + (p3 + (p4 + (p5 + (p6 + (p7 + (p8 + (p9 + (p10
        + p11))))))))); 
    let i1: int = i + p1.len();
    crate::json::lemma_is_at_split(s, i1, p2, p3 + (p4 + (p5 + (p6 + (p7 + (p8 + (p9 + (p10
        + p11))))))));
    let i2: int = i1 + p2.len();
    crate::json::lemma_is_at_split(s, i2, p3, p4 + (p5 + (p6 + (p7 + (p8 + (p9 + (p10 + p11)))))));
    let i3: int = i2 + p3.len();
    crate::json::lemma_is_at_split(s, i3, p4, p5 + (p6 + (p7 + (p8 + (p9 + (p10 + p11))))));
    let i4: int = i3 + p4.len();
    crate::json::lemma_is_at_split(s, i4, p5, p6 + (p7 + (p8 + (p9 + (p10 + p11)))));
    let i5: int = i4 + p5.len();
    crate::json::lemma_is_at_split(s, i5, p6, p7 + (p8 + (p9 + (p10 + p11))));
    let i6: int = i5 + p6.len();
    crate::json::lemma_is_at_split(s, i6, p7, p8 + (p9 + (p10 + p11)));
    let i7: int = i6 + p7.len();
    crate::json::lemma_is_at_split(s, i7, p8, p9 + (p10 + p11));
    let i8: int = i7 + p8.len();
    crate::json::lemma_is_at_split(s, i8, p9, p10 + p11);
    let i9: int = i8 + p9.len();
    crate::json::lemma_is_at_split(s, i9, p10, p11);
    let i10: int = i9 + p10.len();
    crate::json::lemma_is_at_byte(s, i2, p3, 0);
    crate::json::lemma_parse_u64_of_enc(s, i1, sum.total);
    crate::json::lemma_is_at_byte(s, i4, p5, 0);
    crate::json::lemma_parse_u64_of_enc(s, i3, sum.passed);
    crate::json::lemma_is_at_byte(s, i6, p7, 0);
    crate::json::lemma_parse_u64_of_enc(s, i5, sum.failed);
    crate::json::lemma_is_at_byte(s, i8, p9, 0);
    crate::json::lemma_parse_u64_of_enc(s, i7, sum.ignored);
    crate::json::lemma_is_at_byte(s, i10, p11, 0);
    crate::json::lemma_parse_u64_of_enc(s, i9, sum.duration);
}

/// Persist-then-reload is the identity: a report written by `enc_report`
/// reads back field for field.
#[verifier::rlimit(100)]
#[verifier::spinoff_prover]
pub proof fn lemma_report_round_trip(g: GroupV)
    ensures
        parse_report(enc_report(g)) == Some(g),
{
    let s = enc_report(g);
    let p1 = lit_tg();
    let p2 = crate::json::enc_str(g.test_group);
    let p3 = enc_summary_block(g.summary);
    let p4 = enc_modules(g.modules) + seq![crate::json::RBRACK];
    let p5: Seq<u8> = seq![crate::json::RBRACE];
    assert(crate::json::is_at(s, 0, p1 + (p2 + (p3 + (p4 + p5))))) by {
        assert(s.subrange(0, s.len() as int) =~= s);
    }
    crate::json::lemma_is_at_split(s, 0, p1, p2 + (p3 + (p4 + p5)));
    let i1: int = p1.len() as int;
    crate::json::lemma_is_at_split(s, i1, p2, p3 + (p4 + p5));
    let i2: int = i1 + p2.len();
    crate::json::lemma_is_at_split(s, i2, p3, p4 + p5);
    let i3: int = i2 + p3.len();
    crate::json::lemma_is_at_split(s, i3, p4, p5);
    let i4: int = i3 + p4.len();
    crate::json::lemma_parse_string_of_enc(s, i1, g.test_group);
    lemma_parse_summary_of_enc(s, i2, g.summary);
    lemma_parse_modules_of_enc(s, i3, g.modules);
    crate::json::lemma_is_at_byte(s, i4, p5, 0);
    assert(s[i4] == crate::json::RBRACE);
    assert(i4 + 1 == s.len());
}


// ---------------------------------------------------------------------------
// The persisted report: executable writer
// ---------------------------------------------------------------------------
/// Append one persisted test record.
fn write_test(out: &mut Vec<u8>, t: &TestResult)
    ensures
        final(out)@ == old(out)@ + enc_test(t@),
{
    let ghost prefix: Seq<u8> = out@;
    crate::bytes::push_bytes(out, "{\"test\":".as_bytes_vec().as_slice());
    crate::json::write_str(out, &t.test);
    crate::bytes::push_bytes(out, ",\"result\":".as_bytes_vec().as_slice());
    crate::json::write_str(out, &t.result);
    crate::bytes::push_bytes(out, ",\"cycle_count\":".as_bytes_vec().as_slice());
    crate::json::write_u64(out, t.cycle_count);
    match &t.location {
        Some(l) => {
            crate::bytes::push_bytes(out, ",\"location\":".as_bytes_vec().as_slice());
            crate::json::write_str(out, l);
        },
        None => {
        },
    }
    match &t.message {
        Some(m) => {
            crate::bytes::push_bytes(out, ",\"message\":".as_bytes_vec().as_slice());
            crate::json::write_str(out, m);
        },
        None => {
        },
    }
    out.push(crate::json::RBRACE);
    assert(final(out)@ =~= prefix + enc_test(t@));
}

/// Append a list of persisted test records, commas between them.
fn write_tests(out: &mut Vec<u8>, tests: &Vec<TestResult>)
    ensures
        final(out)@ == old(out)@ + enc_tests(tests@.map_values(|t: TestResult| t@)),
{
    let ghost prefix: Seq<u8> = out@;
    let ghost ts = tests@.map_values(|t: TestResult| t@);
    let n = tests.len();
    proof {
        assert(ts.skip(0) =~= ts);
    }
    let mut i: usize = 0;
    while i < n
        invariant
            i <= n,
            n == tests@.len(),
            ts == tests@.map_values(|t: TestResult| t@),
            prefix + enc_tests(ts) == out@ + enc_tests(ts.skip(i as int)),
        decreases n - i,
    {
        let ghost before: Seq<u8> = out@;
        proof {
            assert(ts.skip(i as int)[0] == ts[i as int]);
            assert(ts[i as int] == tests@[i as int]@);
            assert(ts.skip(i as int).skip(1) =~= ts.skip(i as int + 1));
        }
        write_test(out, &tests[i]);
        if i + 1 < n {
            out.push(crate::json::COMMA);
            proof {
                assert(enc_tests(ts.skip(i as int)) =~= enc_test(ts[i as int]) + seq![
                    crate::json::COMMA,
                ] + enc_tests(ts.skip(i as int + 1)));
                assert(out@ =~= before + (enc_test(ts[i as int]) + seq![crate::json::COMMA]));
                assert(prefix + enc_tests(ts) =~= out@ + enc_tests(ts.skip(i as int + 1)));
            }
        } else {
            proof {
                assert(enc_tests(ts.skip(i as int)) =~= enc_test(ts[i as int]));
                assert(enc_tests(ts.skip(i as int + 1)) =~= Seq::<u8>::empty());
                assert(prefix + enc_tests(ts) =~= out@ + enc_tests(ts.skip(i as int + 1)));
            }
        }
        i = i + 1;
    }
    proof {
        assert(enc_tests(ts.skip(n as int)) =~= Seq::<u8>::empty());
        assert(out@ + enc_tests(ts.skip(n as int)) =~= out@);
    }
}

/// Append one persisted module.
fn write_module(out: &mut Vec<u8>, m: &TestModule)
    ensures
        final(out)@ == old(out)@ + enc_module(m@),
{
    let ghost prefix: Seq<u8> = out@;
    crate::bytes::push_bytes(out, "{\"module\":".as_bytes_vec().as_slice());
    crate::json::write_str(out, &m.module);
    crate::bytes::push_bytes(out, ",\"tests\":[".as_bytes_vec().as_slice());
    write_tests(out, &m.tests);
    out.push(crate::json::RBRACK);
    out.push(crate::json::RBRACE);
    assert(final(out)@ =~= prefix + enc_module(m@));
}

/// Append a list of persisted modules, commas between them.
fn write_modules(out: &mut Vec<u8>, modules: &Vec<TestModule>)
    ensures
        final(out)@ == old(out)@ + enc_modules(old_mods_view(modules)),
{
    let ghost prefix: Seq<u8> = out@;
    let ghost ms = old_mods_view(modules);
    let n = modules.len();
    proof {
        assert(ms.skip(0) =~= ms);
    }
    let mut i: usize = 0;
    while i < n
        invariant
            i <= n,
            n == modules@.len(),
            ms == old_mods_view(modules),
            prefix + enc_modules(ms) == out@ + enc_modules(ms.skip(i as int)),
        decreases n - i,
    {
        let ghost before: Seq<u8> = out@;
        proof {
            assert(ms.skip(i as int)[0] == ms[i as int]);
            assert(ms[i as int] == modules@[i as int]@);
            assert(ms.skip(i as int).skip(1) =~= ms.skip(i as int + 1));
        }
        write_module(out, &modules[i]);
        if i + 1 < n {
            out.push(crate::json::COMMA);
            proof {
                assert(enc_modules(ms.skip(i as int)) =~= enc_module(ms[i as int]) + seq![
                    crate::json::COMMA,
                ] + enc_modules(ms.skip(i as int + 1)));
                assert(out@ =~= before + (enc_module(ms[i as int]) + seq![crate::json::COMMA]));
                assert(prefix + enc_modules(ms) =~= out@ + enc_modules(ms.skip(i as int + 1)));
            }
        } else {
            proof {
                assert(enc_modules(ms.skip(i as int)) =~= enc_module(ms[i as int]));
                assert(enc_modules(ms.skip(i as int + 1)) =~= Seq::<u8>::empty());
                assert(prefix + enc_modules(ms) =~= out@ + enc_modules(ms.skip(i as int + 1)));
            }
        }
        i = i + 1;
    }
    proof {
        assert(enc_modules(ms.skip(n as int)) =~= Seq::<u8>::empty());
        assert(out@ + enc_modules(ms.skip(n as int)) =~= out@);
    }
}

/// Append the summary block of a persisted report.
#[verifier::rlimit(100)]
#[verifier::spinoff_prover]
fn write_summary_block(out: &mut Vec<u8>, sum: &TestSummary)
    ensures
        final(out)@ == old(out)@ + enc_summary_block(*sum),
{
    let ghost head: Seq<u8> = out@;
    crate::bytes::push_bytes(out, ",\"summary\":{\"total\":".as_bytes_vec().as_slice());
    crate::json::write_u64(out, sum.total);
    crate::bytes::push_bytes(out, ",\"passed\":".as_bytes_vec().as_slice());
    crate::json::write_u64(out, sum.passed);
    crate::bytes::push_bytes(out, ",\"failed\":".as_bytes_vec().as_slice());
    crate::json::write_u64(out, sum.failed);
    crate::bytes::push_bytes(out, ",\"ignored\":".as_bytes_vec().as_slice());
    crate::json::write_u64(out, sum.ignored);
    crate::bytes::push_bytes(out, ",\"duration\":".as_bytes_vec().as_slice());
    crate::json::write_u64(out, sum.duration);
    crate::bytes::push_bytes(out, "},\"modules\":[".as_bytes_vec().as_slice());
    assert(final(out)@ =~= head + enc_summary_block(*sum));
}

/// Encode a whole report for persistence.
#[verifier::rlimit(100)]
#[verifier::spinoff_prover]
pub fn write_report(group: &TestGroup) -> (r: Vec<u8>)
    ensures
        r@ == enc_report(group@),
{
    let mut out: Vec<u8> = Vec::new();
    crate::bytes::push_bytes(&mut out, "{\"test_group\":".as_bytes_vec().as_slice());
    proof {
        assert(out@ =~= lit_tg());
    }
    crate::json::write_str(&mut out, &group.test_group);
    write_summary_block(&mut out, &group.summary);
    let ghost head2: Seq<u8> = out@;
    write_modules(&mut out, &group.modules);
    out.push(crate::json::RBRACK);
    out.push(crate::json::RBRACE);
    proof {
        assert(out@ =~= head2 + ((enc_modules(group@.modules) + seq![crate::json::RBRACK])
            + seq![crate::json::RBRACE]));
        assert(out@ =~= enc_report(group@));
    }
    out
}


// ---------------------------------------------------------------------------
// The persisted report: executable reader
// ---------------------------------------------------------------------------
/// Match an exact literal at `i`.
fn parse_lit_exec(s: &Vec<u8>, i: usize, lit: &Vec<u8>) -> (r: Option<usize>)
    requires
        i <= s@.len(),
    ensures
        match r {
            Some(j) => parse_lit(s@, i as int, lit@) == Some(j as int) && i <= j <= s@.len(),
            None => parse_lit(s@, i as int, lit@) is None,
        },
{
    let n = s.len();
    if lit.len() > n - i {
        proof {
            assert(!crate::json::is_at(s@, i as int, lit@));
        }
        return None;
    }
    let mut k: usize = 0;
    while k < lit.len()
        invariant
            k <= lit@.len(),
            n == s@.len(),
            i + lit@.len() <= s@.len(),
            forall|j: int| 0 <= j < k ==> s@[i + j] == lit@[j],
        decreases lit@.len() - k,
    {
        if s[i + k] != lit[k] {
            proof {
                if crate::json::is_at(s@, i as int, lit@) {
                    crate::json::lemma_is_at_byte(s@, i as int, lit@, k as int);
                }
            }
            return None;
        }
        k = k + 1;
    }
    proof {
        assert(s@.subrange(i as int, i + lit@.len()) =~= lit@);
    }
    Some(i + lit.len())
}

/// Parse one persisted test record.
fn parse_test_exec(s: &Vec<u8>, i: usize) -> (r: Option<(TestResult, usize)>)
    requires
        i <= s@.len(),
    ensures
        match r {
            Some(tj) => parse_test_at(s@, i as int) == Some((tj.0@, tj.1 as int)) && i <= tj.1
                <= s@.len(),
            None => parse_test_at(s@, i as int) is None,
        },
{
    let j = match parse_lit_exec(s, i, &"{\"test\":".as_bytes_vec()) {
        Some(j) => j,
        None => {
            return None;
        },
    };
    let (test, j2) = match crate::json::parse_string_exec(s, j) {
        Some(tj) => tj,
        None => {
            return None;
        },
    };
    let j3 = match parse_lit_exec(s, j2, &",\"result\":".as_bytes_vec()) {
        Some(j3) => j3,
        None => {
            return None;
        },
    };
    let (result, j4) = match crate::json::parse_string_exec(s, j3) {
        Some(tj) => tj,
        None => {
            return None;
        },
    };
    let j5 = match parse_lit_exec(s, j4, &",\"cycle_count\":".as_bytes_vec()) {
        Some(j5) => j5,
        None => {
            return None;
        },
    };
    let (cycle_count, j6) = match crate::json::parse_u64_exec(s, j5) {
        Some(nj) => nj,
        None => {
            return None;
        },
    };
    let (location, j7): (Option<Vec<u8>>, usize) = match parse_lit_exec(
        s,
        j6,
        &",\"location\":".as_bytes_vec(),
    ) {
        Some(jl) => {
            match crate::json::parse_string_exec(s, jl) {
                Some((l, j7)) => (Some(l), j7),
                None => {
                    return None;
                },
            }
        },
        None => (None, j6),
    };
    let (message, j8): (Option<Vec<u8>>, usize) = match parse_lit_exec(
        s,
        j7,
        &",\"message\":".as_bytes_vec(),
    ) {
        Some(jm) => {
            match crate::json::parse_string_exec(s, jm) {
                Some((m, j8)) => (Some(m), j8),
                None => {
                    return None;
                },
            }
        },
        None => (None, j7),
    };
    if j8 < s.len() && s[j8] == crate::json::RBRACE {
        Some((TestResult { test, result, cycle_count, location, message }, j8 + 1))
    } else {
        None
    }
}

/// Relates parsed-so-far test records to the whole list parse.
spec fn tests_step(s: Seq<u8>, start: int, cur: int, acc: Seq<ResultV>) -> bool {
    match parse_tests_at(s, cur) {
        Some((rest, j)) => parse_tests_at(s, start) == Some((acc + rest, j)),
        None => parse_tests_at(s, start) is None,
    }
}

/// Parse a list of test records up to its closing bracket.
fn parse_tests_exec(s: &Vec<u8>, i: usize) -> (r: Option<(Vec<TestResult>, usize)>)
    requires
        i <= s@.len(),
    ensures
        match r {
            Some(tj) => parse_tests_at(s@, i as int) == Some(
                (tj.0@.map_values(|t: TestResult| t@), tj.1 as int),
            ) && i <= tj.1 <= s@.len(),
            None => parse_tests_at(s@, i as int) is None,
        },
{
    let mut acc: Vec<TestResult> = Vec::new();
    let mut cur: usize = i;
    proof {
        assert(acc@.map_values(|t: TestResult| t@) =~= Seq::<ResultV>::empty());
    }
    loop
        invariant
            i <= cur <= s@.len(),
            tests_step(s@, i as int, cur as int, acc@.map_values(|t: TestResult| t@)),
        decreases s@.len() - cur,
    {
        if cur < s.len() && s[cur] == crate::json::RBRACK {
            proof {
                assert(parse_tests_at(s@, cur as int) == Some(
                    (Seq::<ResultV>::empty(), cur as int + 1),
                ));
                assert(acc@.map_values(|t: TestResult| t@) + Seq::<ResultV>::empty()
                    =~= acc@.map_values(|t: TestResult| t@));
            }
            return Some((acc, cur + 1));
        }
        let (t, j) = match parse_test_exec(s, cur) {
            Some(tj) => tj,
            None => {
                assert(parse_tests_at(s@, cur as int) is None);
                return None;
            },
        };
        let ghost acc0 = acc@.map_values(|t: TestResult| t@);
        let ghost tv = t@;
        if j < s.len() && s[j] == crate::json::COMMA {
            proof {
                assert(parse_tests_at(s@, cur as int) == (match parse_tests_at(s@, j as int + 1) {
                    Some((rest, j2)) => Some((seq![tv] + rest, j2)),
                    None => None::<(Seq<ResultV>, int)>,
                }));
                match parse_tests_at(s@, j as int + 1) {
                    Some((rest, j2)) => {
                        assert(acc0 + (seq![tv] + rest) =~= (acc0 + seq![tv]) + rest);
                    },
                    None => {
                    },
                }
            }
            acc.push(t);
            proof {
                assert(acc@.map_values(|t: TestResult| t@) =~= acc0 + seq![tv]);
            }
            cur = j + 1;
        } else if j < s.len() && s[j] == crate::json::RBRACK {
            proof {
                assert(parse_tests_at(s@, cur as int) == Some((seq![tv], j as int + 1)));
            }
            acc.push(t);
            proof {
                assert(acc@.map_values(|t: TestResult| t@) =~= acc0 + seq![tv]);
            }
            return Some((acc, j + 1));
        } else {
            assert(parse_tests_at(s@, cur as int) is None);
            return None;
        }
    }
}

/// Parse one persisted module.
fn parse_module_exec(s: &Vec<u8>, i: usize) -> (r: Option<(TestModule, usize)>)
    requires
        i <= s@.len(),
    ensures
        match r {
            Some(mj) => parse_module_at(s@, i as int) == Some((mj.0@, mj.1 as int)) && i <= mj.1
                <= s@.len(),
            None => parse_module_at(s@, i as int) is None,
        },
{
    let j = match parse_lit_exec(s, i, &"{\"module\":".as_bytes_vec()) {
        Some(j) => j,
        None => {
            return None;
        },
    };
    let (module, j2) = match crate::json::parse_string_exec(s, j) {
        Some(mj) => mj,
        None => {
            return None;
        },
    };
    let j3 = match parse_lit_exec(s, j2, &",\"tests\":[".as_bytes_vec()) {
        Some(j3) => j3,
        None => {
            return None;
        },
    };
    let (tests, j4) = match parse_tests_exec(s, j3) {
        Some(tj) => tj,
        None => {
            return None;
        },
    };
    if j4 < s.len() && s[j4] == crate::json::RBRACE {
        Some((TestModule { module, tests }, j4 + 1))
    } else {
        None
    }
}

/// Relates parsed-so-far modules to the whole list parse.
spec fn modules_step(s: Seq<u8>, start: int, cur: int, acc: Seq<ModuleV>) -> bool {
    match parse_modules_at(s, cur) {
        Some((rest, j)) => parse_modules_at(s, start) == Some((acc + rest, j)),
        None => parse_modules_at(s, start) is None,
    }
}

/// Parse a list of modules up to its closing bracket.
fn parse_modules_exec(s: &Vec<u8>, i: usize) -> (r: Option<(Vec<TestModule>, usize)>)
    requires
        i <= s@.len(),
    ensures
        match r {
            Some(mj) => parse_modules_at(s@, i as int) == Some(
                (old_mods_view(&mj.0), mj.1 as int),
            ) && i <= mj.1 <= s@.len(),
            None => parse_modules_at(s@, i as int) is None,
        },
{
    let mut acc: Vec<TestModule> = Vec::new();
    let mut cur: usize = i;
    proof {
        assert(old_mods_view(&acc) =~= Seq::<ModuleV>::empty());
    }
    loop
        invariant
            i <= cur <= s@.len(),
            modules_step(s@, i as int, cur as int, acc@.map_values(|m: TestModule| m@)),
        decreases s@.len() - cur,
    {
        if cur < s.len() && s[cur] == crate::json::RBRACK {
            proof {
                assert(parse_modules_at(s@, cur as int) == Some(
                    (Seq::<ModuleV>::empty(), cur as int + 1),
                ));
                assert(acc@.map_values(|m: TestModule| m@) + Seq::<ModuleV>::empty()
                    =~= acc@.map_values(|m: TestModule| m@));
            }
            return Some((acc, cur + 1));
        }
        let (m, j) = match parse_module_exec(s, cur) {
            Some(mj) => mj,
            None => {
                assert(parse_modules_at(s@, cur as int) is None);
                return None;
            },
        };
        let ghost acc0 = acc@.map_values(|m: TestModule| m@);
        let ghost mv = m@;
        if j < s.len() && s[j] == crate::json::COMMA {
            proof {
                assert(parse_modules_at(s@, cur as int) == (match parse_modules_at(
                    s@,
                    j as int + 1,
                ) {
                    Some((rest, j2)) => Some((seq![mv] + rest, j2)),
                    None => None::<(Seq<ModuleV>, int)>,
                }));
                match parse_modules_at(s@, j as int + 1) {
                    Some((rest, j2)) => {
                        assert(acc0 + (seq![mv] + rest) =~= (acc0 + seq![mv]) + rest);
                    },
                    None => {
                    },
                }
            }
            acc.push(m);
            proof {
                assert(acc@.map_values(|m: TestModule| m@) =~= acc0 + seq![mv]);
            }
            cur = j + 1;
        } else if j < s.len() && s[j] == crate::json::RBRACK {
            proof {
                assert(parse_modules_at(s@, cur as int) == Some((seq![mv], j as int + 1)));
            }
            acc.push(m);
            proof {
                assert(acc@.map_values(|m: TestModule| m@) =~= acc0 + seq![mv]);
            }
            return Some((acc, j + 1));
        } else {
            assert(parse_modules_at(s@, cur as int) is None);
            return None;
        }
    }
}

/// Parse the summary block.
fn parse_summary_exec(s: &Vec<u8>, i: usize) -> (r: Option<(TestSummary, usize)>)
    requires
        i <= s@.len(),
    ensures
        match r {
            Some(sj) => parse_summary_at(s@, i as int) == Some((sj.0, sj.1 as int)) && i <= sj.1
                <= s@.len(),
            None => parse_summary_at(s@, i as int) is None,
        },
{
    let j = match parse_lit_exec(s, i, &",\"summary\":{\"total\":".as_bytes_vec()) {
        Some(j) => j,
        None => {
            return None;
        },
    };
    let (total, j2) = match crate::json::parse_u64_exec(s, j) {
        Some(nj) => nj,
        None => {
            return None;
        },
    };
    let j3 = match parse_lit_exec(s, j2, &",\"passed\":".as_bytes_vec()) {
        Some(j3) => j3,
        None => {
            return None;
        },
    };
    let (passed, j4) = match crate::json::parse_u64_exec(s, j3) {
        Some(nj) => nj,
        None => {
            return None;
        },
    };
    let j5 = match parse_lit_exec(s, j4, &",\"failed\":".as_bytes_vec()) {
        Some(j5) => j5,
        None => {
            return None;
        },
    };
    let (failed, j6) = match crate::json::parse_u64_exec(s, j5) {
        Some(nj) => nj,
        None => {
            return None;
        },
    };
    let j7 = match parse_lit_exec(s, j6, &",\"ignored\":".as_bytes_vec()) {
        Some(j7) => j7,
        None => {
            return None;
        },
    };
    let (ignored, j8) = match crate::json::parse_u64_exec(s, j7) {
        Some(nj) => nj,
        None => {
            return None;
        },
    };
    let j9 = match parse_lit_exec(s, j8, &",\"duration\":".as_bytes_vec()) {
        Some(j9) => j9,
        None => {
            return None;
        },
    };
    let (duration, j10) = match crate::json::parse_u64_exec(s, j9) {
        Some(nj) => nj,
        None => {
            return None;
        },
    };
    let j11 = match parse_lit_exec(s, j10, &"},\"modules\":[".as_bytes_vec()) {
        Some(j11) => j11,
        None => {
            return None;
        },
    };
    Some((TestSummary { total, passed, failed, ignored, duration }, j11))
}

/// Decode a persisted report. Returns the report exactly as written, or
/// nothing when the bytes do not carry this library's report shape.
pub fn read_report(s: &Vec<u8>) -> (r: Option<TestGroup>)
    ensures
        match r {
            Some(g) => parse_report(s@) == Some(g@),
            None => parse_report(s@) is None,
        },
{
    let j = match parse_lit_exec(s, 0, &"{\"test_group\":".as_bytes_vec()) {
        Some(j) => j,
        None => {
            return None;
        },
    };
    let (test_group, j2) = match crate::json::parse_string_exec(s, j) {
        Some(tj) => tj,
        None => {
            return None;
        },
    };
    let (summary, j3) = match parse_summary_exec(s, j2) {
        Some(sj) => sj,
        None => {
            return None;
        },
    };
    let (modules, j4) = match parse_modules_exec(s, j3) {
        Some(mj) => mj,
        None => {
            return None;
        },
    };
    if j4 < s.len() && j4 + 1 == s.len() && s[j4] == crate::json::RBRACE {
        Some(TestGroup { test_group, summary, modules })
    } else {
        None
    }
}


// ---------------------------------------------------------------------------
// File names and the end-of-round archive
// ---------------------------------------------------------------------------
/// The capture file the VM writes for one run, named by the run identifier.
pub fn capture_file_name(run_id: &Vec<u8>) -> (r: Vec<u8>)
    ensures
        r@ == "tests-".spec_bytes() + run_id@ + ".json".spec_bytes(),
{
    let mut out: Vec<u8> = "tests-".as_bytes_vec();
    crate::bytes::push_bytes(&mut out, run_id.as_slice());
    crate::bytes::push_bytes(&mut out, ".json".as_bytes_vec().as_slice());
    out
}

/// The persisted report file for one group, keyed by its index.
pub fn report_file_name(group_index: u64) -> (r: Vec<u8>)
    ensures
        r@ == "tests-".spec_bytes() + crate::json::enc_u64(group_index) + ".json".spec_bytes(),
{
    let mut out: Vec<u8> = "tests-".as_bytes_vec();
    crate::json::write_u64(&mut out, group_index);
    crate::bytes::push_bytes(&mut out, ".json".as_bytes_vec().as_slice());
    out
}

/// The report files among a directory's entries, in order.
pub open spec fn json_files_of(names: Seq<Seq<u8>>) -> Seq<Seq<u8>>
    decreases names.len(),
{
    if names.len() == 0 {
        Seq::empty()
    } else {
        json_files_of(names.drop_last()) + (if crate::bytes::is_suffix_of(
            ".json".spec_bytes(),
            names.last(),
        ) {
            seq![names.last()]
        } else {
            Seq::empty()
        })
    }
}

/// Plan the end-of-round archive: from the names found in the live testing
/// directory, exactly those ending in `.json` are to be moved, in order,
/// into a fresh directory named by the epoch-millisecond timestamp; nothing
/// else is touched.
pub fn archive_round(file_names: &Vec<Vec<u8>>, epoch_ms: u64) -> (plan: (Vec<Vec<u8>>, Vec<u8>))
    ensures
        plan.0.deep_view() == json_files_of(file_names.deep_view()),
        plan.1@ == "testing-".spec_bytes() + crate::json::enc_u64(epoch_ms),
{
    let ghost names = file_names.deep_view();
    let mut to_move: Vec<Vec<u8>> = Vec::new();
    let suffix = ".json".as_bytes_vec();
    let mut i: usize = 0;
    proof {
        assert(names.subrange(0, 0) =~= Seq::<Seq<u8>>::empty());
        assert(to_move.deep_view() =~= json_files_of(names.subrange(0, 0)));
    }
    while i < file_names.len()
        invariant
            i <= file_names@.len(),
            names == file_names.deep_view(),
            suffix@ == ".json".spec_bytes(),
            to_move.deep_view() == json_files_of(names.subrange(0, i as int)),
        decreases file_names@.len() - i,
    {
        let ghost before = to_move.deep_view();
        proof {
            assert(names.subrange(0, i as int + 1).drop_last() =~= names.subrange(0, i as int));
            assert(names.subrange(0, i as int + 1).last() == names[i as int]);
            assert(names[i as int] == file_names@[i as int]@);
        }
        if crate::bytes::ends_with(&file_names[i], &suffix) {
            to_move.push(copy_bytes(&file_names[i]));
            proof {
                assert(to_move.deep_view() =~~= before + seq![names[i as int]]);
                assert(to_move.deep_view() =~~= json_files_of(names.subrange(0, i as int + 1)));
            }
        } else {
            proof {
                assert(before + Seq::<Seq<u8>>::empty() =~= before);
                assert(to_move.deep_view() =~~= json_files_of(names.subrange(0, i as int + 1)));
            }
        }
        i = i + 1;
    }
    proof {
        assert(names.subrange(0, names.len() as int) =~= names);
    }
    let mut dir: Vec<u8> = "testing-".as_bytes_vec();
    crate::json::write_u64(&mut dir, epoch_ms);
    (to_move, dir)
}

} // verus!
