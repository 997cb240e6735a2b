//! The ways in which a run can fail. Each failure is fatal and names what
//! it is about.

use vstd::prelude::*;

verus! {

/// How a negated atom breaks the stratification.
#[derive(Debug, Clone, Copy, PartialEq, Eq, Structural)]
pub enum Violation {
    /// The negated predicate lies in a higher stratum than the head.
    Cyclic,
    /// The negated predicate lies in the stratum of the head.
    Mutual,
}

/// A fatal error.
#[derive(Debug, PartialEq, Eq)]
pub enum Failure {
    /// The source text does not follow the grammar; holds the position of
    /// the first character that was not understood.
    ParseError(usize),
    /// Two base relations share a name, or a name is both base and derived.
    DuplicatePredicate(String),
    /// A body atom names a predicate that no rule defines.
    UndefinedPredicate(String),
    /// The head of a derived rule holds the anonymous placeholder.
    FreeVarInHead(String),
    /// A negated body atom is not in a stratum strictly below its head.
    StratificationViolation { predicate: String, kind: Violation },
    /// A column type of a base relation is none of `int`, `float`, `sym`.
    UnknownType(String),
    /// A head variable occurs in no body atom that could give it a value.
    UnwitnessedHeadVar { variable: String, predicate: String },
    /// A declared base relation is missing in the store.
    MissingBaseTable(String),
    /// The number of columns of a relation disagrees with its declaration.
    ArityMismatch(String),
    /// The store failed; holds its message.
    BackendError(String),
    /// The fixpoint of a relation was not reached within the range of the
    /// step counter.
    IterationOverflow(String),
}

/// The value of a `Failure`, as contracts speak of it.
pub enum FailureView {
    ParseError(int),
    DuplicatePredicate(Seq<char>),
    UndefinedPredicate(Seq<char>),
    FreeVarInHead(Seq<char>),
    StratificationViolation { predicate: Seq<char>, kind: Violation },
    UnknownType(Seq<char>),
    UnwitnessedHeadVar { variable: Seq<char>, predicate: Seq<char> },
    MissingBaseTable(Seq<char>),
    ArityMismatch(Seq<char>),
    BackendError(Seq<char>),
    IterationOverflow(Seq<char>),
}

impl View for Failure {
    type V = FailureView;

    open spec fn view(&self) -> FailureView {
        match *self {
            Failure::ParseError(at) => FailureView::ParseError(at as int),
            Failure::DuplicatePredicate(n) => FailureView::DuplicatePredicate(n@),
            Failure::UndefinedPredicate(n) => FailureView::UndefinedPredicate(n@),
            Failure::FreeVarInHead(n) => FailureView::FreeVarInHead(n@),
            Failure::StratificationViolation { predicate, kind } => FailureView::StratificationViolation {
                predicate: predicate@,
                kind,
            },
            Failure::UnknownType(n) => FailureView::UnknownType(n@),
            Failure::UnwitnessedHeadVar { variable, predicate } => FailureView::UnwitnessedHeadVar {
                variable: variable@,
                predicate: predicate@,
            },
            Failure::MissingBaseTable(n) => FailureView::MissingBaseTable(n@),
            Failure::ArityMismatch(n) => FailureView::ArityMismatch(n@),
            Failure::BackendError(m) => FailureView::BackendError(m@),
            Failure::IterationOverflow(n) => FailureView::IterationOverflow(n@),
        }
    }
}

impl FailureView {
    /// The one-line diagnostic of the error.
    pub open spec fn message(self) -> Seq<char> {
        match self {
            FailureView::ParseError(at) => "Parsing error at character "@ + crate::text::decimal(
                at as nat,
            ),
            FailureView::DuplicatePredicate(n) => "Duplicated predicate: "@ + n,
            FailureView::UndefinedPredicate(n) => "Undefined predicate: "@ + n,
            FailureView::FreeVarInHead(n) => "Free variable in head of idb: "@ + n,
            FailureView::StratificationViolation { predicate, kind } => (match kind {
                Violation::Cyclic => "Cyclic dependency: "@,
                Violation::Mutual => "Mutual dependency: "@,
            }) + predicate,
            FailureView::UnknownType(n) => "Invalid type: "@ + n,
            FailureView::UnwitnessedHeadVar { variable, predicate } => "Term `"@ + variable
                + "` in `"@ + predicate + "` should be annotated"@,
            FailureView::MissingBaseTable(n) => "EDB "@ + n + " is not present in database"@,
            FailureView::ArityMismatch(n) => "Arity mismatch: "@ + n,
            FailureView::BackendError(m) => "Backend error: "@ + m,
            FailureView::IterationOverflow(n) => "Too many steps: "@ + n,
        }
    }
}

impl Failure {
    /// Writes the one-line diagnostic of the error.
    pub fn message(&self) -> (s: String)
        ensures
            s@ == self@.message(),
    {
        match self {
            Failure::ParseError(at) => {
                let mut s = String::from_str("Parsing error at character ");
                let digits = crate::text::render_usize(*at);
                s.append(digits.as_str());
                s
            },
            Failure::DuplicatePredicate(n) => {
                let mut s = String::from_str("Duplicated predicate: ");
                s.append(n.as_str());
                s
            },
            Failure::UndefinedPredicate(n) => {
                let mut s = String::from_str("Undefined predicate: ");
                s.append(n.as_str());
                s
            },
            Failure::FreeVarInHead(n) => {
                let mut s = String::from_str("Free variable in head of idb: ");
                s.append(n.as_str());
                s
            },
            Failure::StratificationViolation { predicate, kind } => {
                let mut s = match kind {
                    Violation::Cyclic => String::from_str("Cyclic dependency: "),
                    Violation::Mutual => String::from_str("Mutual dependency: "),
                };
                s.append(predicate.as_str());
                s
            },
            Failure::UnknownType(n) => {
                let mut s = String::from_str("Invalid type: ");
                s.append(n.as_str());
                s
            },
            Failure::UnwitnessedHeadVar { variable, predicate } => {
                let mut s = String::from_str("Term `");
                s.append(variable.as_str());
                s.append("` in `");
                s.append(predicate.as_str());
                s.append("` should be annotated");
                s
            },
            Failure::MissingBaseTable(n) => {
                let mut s = String::from_str("EDB ");
                s.append(n.as_str());
                s.append(" is not present in database");
                s
            },
            Failure::ArityMismatch(n) => {
                let mut s = String::from_str("Arity mismatch: ");
                s.append(n.as_str());
                s
            },
            Failure::BackendError(m) => {
                let mut s = String::from_str("Backend error: ");
                s.append(m.as_str());
                s
            },
            Failure::IterationOverflow(n) => {
                let mut s = String::from_str("Too many steps: ");
                s.append(n.as_str());
                s
            },
        }
    }
}

} // verus!
