//! The validated unit of cached information: one testsuite result.
//!
//! A record carries the testsuite name, the revision it was built from, the
//! calendar date the run completed, and the pass/fail counters. Two records
//! describe the same entity exactly when their `(name, date)` keys match;
//! the accumulated set is logically keyed by that pair.

use vstd::prelude::*;

use crate::date::Date;

verus! {

/// The structured counters of one testsuite run.
///
/// Upstream data can be sloppy: `passes + failures` may exceed `tests`.
/// That anomaly is deliberately not part of well-formedness — such a record
/// is accepted and served as-is.
#[derive(Clone, Copy, Debug, PartialEq, Eq, Hash, Structural)]
pub struct RunResults {
    pub tests: u64,
    pub passes: u64,
    pub failures: u64,
}

/// One validated testsuite result.
#[derive(Clone, Debug, PartialEq, Eq, Hash)]
pub struct TestsuiteResult {
    /// Name of the testsuite the record describes. Non-empty.
    pub name: String,
    /// Revision identifier the run was built from.
    pub commit: String,
    /// Calendar date the run completed.
    pub date: Date,
    /// Pass/fail counters reported by the run.
    pub results: RunResults,
}

/// The mathematical image of a record: its strings as character sequences.
#[verifier::ext_equal]
pub ghost struct RecordView {
    pub name: Seq<char>,
    pub commit: Seq<char>,
    pub date: Date,
    pub results: RunResults,
}

impl View for TestsuiteResult {
    type V = RecordView;

    open spec fn view(&self) -> RecordView {
        RecordView {
            name: self.name@,
            commit: self.commit@,
            date: self.date,
            results: self.results,
        }
    }
}

impl RecordView {
    /// A well-formed record: non-empty name, valid date. The strings are
    /// otherwise unrestricted.
    pub open spec fn wf(self) -> bool {
        self.name.len() > 0 && self.date.valid()
    }

    /// Two records name the same entity: their `(name, date)` keys match.
    pub open spec fn same_key(self, other: RecordView) -> bool {
        self.name == other.name && self.date == other.date
    }
}

impl TestsuiteResult {
    /// A well-formed record value.
    pub open spec fn wf(self) -> bool {
        self@.wf()
    }

    /// An owned copy of the record.
    pub fn duplicate(&self) -> (r: TestsuiteResult)
        ensures
            r == *self,
    {
        TestsuiteResult {
            name: self.name.clone(),
            commit: self.commit.clone(),
            date: self.date,
            results: self.results,
        }
    }

    /// Whether `self` and `other` share the `(name, date)` key.
    pub fn has_same_key(&self, other: &TestsuiteResult) -> (r: bool)
        ensures
            r == self@.same_key(other@),
    {
        self.name == other.name && self.date == other.date
    }
}

} // verus!
