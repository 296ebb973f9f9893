//! Data model: learning items, the collection, review inputs, the status
//! classification, timestamps and the error taxonomy.

use vstd::prelude::*;

verus! {

/// Learning status of an item; always a pure function of the other fields,
/// never independently authoritative.
#[derive(Clone, Copy, Debug, PartialEq, Eq, Structural)]
pub enum Status {
    New,
    Learning,
    Reviewing,
    Mastered,
}

/// The wire label of a status.
pub open spec fn status_label(s: Status) -> Seq<char> {
    match s {
        Status::New => "new"@,
        Status::Learning => "learning"@,
        Status::Reviewing => "reviewing"@,
        Status::Mastered => "mastered"@,
    }
}

/// The status a wire label denotes, if any.
pub open spec fn label_status(s: Seq<char>) -> Option<Status> {
    if s == "new"@ {
        Some(Status::New)
    } else if s == "learning"@ {
        Some(Status::Learning)
    } else if s == "reviewing"@ {
        Some(Status::Reviewing)
    } else if s == "mastered"@ {
        Some(Status::Mastered)
    } else {
        None
    }
}

/// A status labels uniquely: reading a written label gives the status back.
pub proof fn lemma_status_label_round_trip(s: Status)
    ensures
        label_status(status_label(s)) == Some(s),
{
    reveal_strlit("new");
    reveal_strlit("learning");
    reveal_strlit("reviewing");
    reveal_strlit("mastered");
    assert("new"@.len() == 3);
    assert("learning"@.len() == 8);
    assert("reviewing"@.len() == 9);
    assert("mastered"@.len() == 8);
    assert("mastered"@[0] == 'm' && "learning"@[0] == 'l');
}

impl Status {
    /// The wire label of this status.
    pub fn label(&self) -> (r: String)
        ensures
            r@ == status_label(*self),
    {
        match self {
            Status::New => String::from_str("new"),
            Status::Learning => String::from_str("learning"),
            Status::Reviewing => String::from_str("reviewing"),
            Status::Mastered => String::from_str("mastered"),
        }
    }

    /// The status a wire label denotes, if any.
    pub fn from_label(s: &str) -> (r: Option<Status>)
        ensures
            r == label_status(s@),
    {
        if crate::text::str_eq(s, "new") {
            Some(Status::New)
        } else if crate::text::str_eq(s, "learning") {
            Some(Status::Learning)
        } else if crate::text::str_eq(s, "reviewing") {
            Some(Status::Reviewing)
        } else if crate::text::str_eq(s, "mastered") {
            Some(Status::Mastered)
        } else {
            None
        }
    }
}

/// A timezone-aware instant: whole seconds since the Unix epoch plus the
/// nanoseconds since that second (above a thousand million only inside an
/// inserted leap second).
#[derive(Clone, Copy, Debug, PartialEq, Eq, Structural)]
pub struct Timestamp {
    pub secs: i64,
    pub nanos: u32,
}

/// Instant order: seconds first, then the subsecond part.
pub open spec fn ts_le(a: Timestamp, b: Timestamp) -> bool {
    a.secs < b.secs || (a.secs == b.secs && a.nanos <= b.nanos)
}

impl Timestamp {
    /// Whether `self` is no later than `other`.
    pub fn le(&self, other: &Timestamp) -> (r: bool)
        ensures
            r == ts_le(*self, *other),
    {
        self.secs < other.secs || (self.secs == other.secs && self.nanos <= other.nanos)
    }
}

/// One vocabulary, phrase, idiom or grammar entry under spaced-repetition
/// tracking. The fixed-point scheduling fields are `ease_micro` (ease factor
/// in millionths, floor 1_300_000) and `interval_micro` (interval in
/// millionths of a day, 0 meaning never scheduled beyond the first-day
/// baseline).
/// `extra` holds unrecognised wire fields so they survive a load-save
/// round trip: each entry is the field's name and its value as JSON text.
#[derive(Debug)]
pub struct LearningItem {
    pub id: String,
    pub item_type: String,
    pub front: String,
    pub back: String,
    pub context: Option<String>,
    pub context_ja: Option<String>,
    pub source: Option<String>,
    pub created_at: Timestamp,
    pub last_quizzed: Option<Timestamp>,
    pub next_review: Timestamp,
    pub times_quizzed: u32,
    pub times_correct: u32,
    pub ease_micro: u64,
    pub interval_micro: u64,
    pub status: Status,
    pub extra: Vec<(String, String)>,
}

impl LearningItem {
    /// Accuracy in tenths of a percent, rounded half up; undefined (not
    /// zero) when the item was never quizzed. An exact accuracy of p percent
    /// yields `10 * p`.
    pub fn accuracy_tenths(&self) -> (r: Option<u64>)
        ensures
            self.times_quizzed == 0 ==> r is None,
            self.times_quizzed > 0 ==> r == Some(
                (((2000 * self.times_correct as u64 + self.times_quizzed as u64) / (2
                    * self.times_quizzed as u64)) as u64),
            ),
    {
        if self.times_quizzed == 0 {
            None
        } else {
            let c = self.times_correct as u64;
            let q = self.times_quizzed as u64;
            Some((2000 * c + q) / (2 * q))
        }
    }
}

/// The full collection: a schema version tag, the time of the last save,
/// and the item sequence in file order.
#[derive(Debug)]
pub struct SrsDatabase {
    pub version: String,
    pub last_updated: Option<Timestamp>,
    pub items: Vec<LearningItem>,
}

impl SrsDatabase {
    /// A freshly initialised empty collection, stamped with `now`.
    pub fn new(now: Timestamp) -> (r: SrsDatabase)
        ensures
            r.version@ == "1.0"@,
            r.last_updated == Some(now),
            r.items@.len() == 0,
    {
        SrsDatabase {
            version: crate::default_version(),
            last_updated: Some(now),
            items: Vec::new(),
        }
    }
}

/// One requested review: the item's ID (or a prefix of it), the result
/// (`"correct"` or anything else, meaning incorrect), and an optional
/// difficulty.
#[derive(Debug)]
pub struct ReviewInput {
    pub id: String,
    pub result: String,
    pub difficulty: Option<String>,
}

/// Error taxonomy: every failure of the engine is one of these, and none is
/// retried.
#[derive(Debug)]
pub enum AppError {
    /// An item with the same front text (case-insensitively) already exists.
    Duplicate(String),
    /// No item ID starts with the given prefix.
    NotFound(String),
    /// More than one item ID starts with the given prefix.
    AmbiguousId(String),
    /// A load that requires the data file found none.
    NoDataFile(String),
    /// A request was malformed before any item was touched.
    InvalidInput(String),
    /// A filesystem operation failed; raised by the surrounding I/O layer.
    IoError(String),
    /// The file content is not valid for the persisted schema.
    JsonError(String),
}

impl AppError {
    /// The stable machine-readable code of this error.
    pub fn code(&self) -> (r: &'static str)
        ensures
            r@ == error_code(*self),
    {
        match self {
            AppError::Duplicate(_) => "duplicate",
            AppError::NotFound(_) => "not_found",
            AppError::AmbiguousId(_) => "ambiguous_id",
            AppError::NoDataFile(_) => "no_data_file",
            AppError::InvalidInput(_) => "invalid_input",
            AppError::IoError(_) => "io_error",
            AppError::JsonError(_) => "io_error",
        }
    }
}

/// The machine-readable code of each error kind.
pub open spec fn error_code(e: AppError) -> Seq<char> {
    match e {
        AppError::Duplicate(_) => "duplicate"@,
        AppError::NotFound(_) => "not_found"@,
        AppError::AmbiguousId(_) => "ambiguous_id"@,
        AppError::NoDataFile(_) => "no_data_file"@,
        AppError::InvalidInput(_) => "invalid_input"@,
        AppError::IoError(_) => "io_error"@,
        AppError::JsonError(_) => "io_error"@,
    }
}

/// Path to the collection file and the command to run against it; mirrors
/// the command-line surface, which the surrounding layer parses.
#[derive(Debug)]
pub struct Cli {
    pub data: String,
    pub command: Command,
}

/// The four commands of the tool.
#[derive(Debug)]
pub enum Command {
    Add {
        front: String,
        back: String,
        item_type: Option<String>,
        context: Option<String>,
        context_ja: Option<String>,
        source: Option<String>,
    },
    List {
        due: bool,
        weak: bool,
        status: Option<String>,
        limit: Option<usize>,
    },
    Review {
        id: Option<String>,
        result: Option<String>,
        difficulty: Option<String>,
    },
    Stats,
}

} // verus!
