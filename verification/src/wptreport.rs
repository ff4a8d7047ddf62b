//! The shape of a test report: runs hold tests, tests hold subtests.

use std::collections::BTreeMap;
use vstd::prelude::*;

verus! {

/// How a status counts when runs are compared.
#[derive(PartialEq, Eq, Structural, Clone, Copy, Debug)]
pub enum StatusClass {
    /// The unit was not really run: nobody is blamed for it.
    Ignore,
    /// The unit did not behave as expected.
    Failing,
    /// The unit behaved as expected.
    Passing,
}

/// `Value` of serde_json: any JSON value. A report carries one along, the
/// free-form description of the machine and the build of the run; nothing
/// here looks into it.
#[verifier::external_type_specification]
#[verifier::external_body]
pub struct ExRunInfo(serde_json::Value);

/// The report of one run of the test suite.
#[derive(Debug)]
pub struct WptReport {
    pub run_info: serde_json::Value,
    pub time_start: u64,
    pub time_end: u64,
    pub results: Vec<TestResult>,
    pub lsan_leaks: Option<Vec<LsanLeak>>,
    pub mozleak: Option<BTreeMap<String, MozLeak>>,
}

/// What a run reports of one test: the test's own status and, where the
/// test has subtests, their results.
#[derive(Clone, Debug)]
pub struct TestResult {
    pub test: String,
    pub subtests: Vec<SubtestResult>,
    pub status: TestStatus,
    pub expected: Option<TestStatus>,
    pub known_intermittent: Option<Vec<TestStatus>>,
    pub message: Option<String>,
    pub duration: Option<i64>,
    pub asserts: Option<AssertionCount>,
    pub reftest_screenshots: Option<BTreeMap<String, String>>,
}

/// What a run reports of one subtest of a test.
#[derive(Clone, Debug)]
pub struct SubtestResult {
    pub name: String,
    pub status: SubtestStatus,
    pub expected: Option<SubtestStatus>,
    pub known_intermittent: Option<Vec<SubtestStatus>>,
    pub message: Option<String>,
}

/// The number of assertions that a test made, and the bounds expected.
#[derive(Clone, Debug)]
pub struct AssertionCount {
    pub count: u32,
    pub min: u32,
    pub max: u32,
}

/// A leak that the leak sanitizer found.
#[derive(Clone, Debug)]
pub struct LsanLeak {
    pub frames: Vec<String>,
    pub scope: String,
    pub allowed_match: Option<String>,
}

/// The leaks of one scope, by object and in total.
#[derive(Clone, Debug)]
pub struct MozLeak {
    pub objects: Vec<MozLeakObject>,
    pub total: Vec<MozLeakTotal>,
}

/// The leak of one kind of object.
#[derive(Clone, Debug)]
pub struct MozLeakObject {
    pub process: Option<String>,
    pub name: String,
    pub allowed: bool,
    pub bytes: u64,
}

/// The bytes that a process leaked in total, and the threshold allowed.
#[derive(Clone, Debug)]
pub struct MozLeakTotal {
    pub bytes: u64,
    pub threshold: u64,
    pub process: Option<String>,
}

/// The status of a test as a whole.
#[derive(PartialEq, Eq, Structural, Clone, Debug, Copy, Hash)]
pub enum TestStatus {
    PASS,
    FAIL,
    OK,
    ERROR,
    TIMEOUT,
    CRASH,
    ASSERT,
    #[allow(non_camel_case_types)]
    PRECONDITION_FAILED,
    SKIP,
}

/// The status of a subtest.
#[derive(PartialEq, Eq, Structural, Clone, Debug, Copy, Hash)]
pub enum SubtestStatus {
    PASS,
    FAIL,
    ERROR,
    TIMEOUT,
    ASSERT,
    #[allow(non_camel_case_types)]
    PRECONDITION_FAILED,
    NOTRUN,
    SKIP,
}

impl TestStatus {
    /// The class of a test's own status: a crash counts as a failure, and
    /// `OK` (the harness ran through) as a pass.
    pub open spec fn class(self) -> StatusClass {
        match self {
            TestStatus::SKIP | TestStatus::PRECONDITION_FAILED => StatusClass::Ignore,
            TestStatus::FAIL | TestStatus::ERROR | TestStatus::TIMEOUT | TestStatus::CRASH =>
                StatusClass::Failing,
            TestStatus::OK | TestStatus::PASS | TestStatus::ASSERT => StatusClass::Passing,
        }
    }

    /// Computes [`TestStatus::class`].
    pub fn classify(self) -> (class: StatusClass)
        ensures
            class == self.class(),
    {
        match self {
            TestStatus::SKIP | TestStatus::PRECONDITION_FAILED => StatusClass::Ignore,
            TestStatus::FAIL | TestStatus::ERROR | TestStatus::TIMEOUT | TestStatus::CRASH =>
                StatusClass::Failing,
            TestStatus::OK | TestStatus::PASS | TestStatus::ASSERT => StatusClass::Passing,
        }
    }
}

impl SubtestStatus {
    /// The class of a subtest's status: a subtest that was not run counts as
    /// a failure.
    pub open spec fn class(self) -> StatusClass {
        match self {
            SubtestStatus::SKIP | SubtestStatus::PRECONDITION_FAILED => StatusClass::Ignore,
            SubtestStatus::FAIL
            | SubtestStatus::ERROR
            | SubtestStatus::TIMEOUT
            | SubtestStatus::NOTRUN => StatusClass::Failing,
            SubtestStatus::PASS | SubtestStatus::ASSERT => StatusClass::Passing,
        }
    }

    /// Computes [`SubtestStatus::class`].
    pub fn classify(self) -> (class: StatusClass)
        ensures
            class == self.class(),
    {
        match self {
            SubtestStatus::SKIP | SubtestStatus::PRECONDITION_FAILED => StatusClass::Ignore,
            SubtestStatus::FAIL
            | SubtestStatus::ERROR
            | SubtestStatus::TIMEOUT
            | SubtestStatus::NOTRUN => StatusClass::Failing,
            SubtestStatus::PASS | SubtestStatus::ASSERT => StatusClass::Passing,
        }
    }
}

} // verus!
