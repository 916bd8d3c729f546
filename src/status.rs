use vstd::prelude::*;

verus! {

/// Result code of an operation of the key-value storage engine.
#[allow(non_camel_case_types)]
#[derive(Copy, Clone, Debug, PartialEq, Eq, Structural)]
pub enum StatusCode {
    kOk,
    kNotFound,
    kCorruption,
    kNotSupported,
    kInvalidArgument,
    kIOError,
    kMergeInProgress,
    kIncomplete,
    kShutdownInProgress,
    kTimedOut,
    kAborted,
    kBusy,
    kExpired,
    kTryAgain,
    kCompactionTooLarge,
    kColumnFamilyDropped,
    kMaxCode,
}

/// Finer classification of a storage status.
#[allow(non_camel_case_types)]
#[derive(Copy, Clone, Debug, PartialEq, Eq, Structural)]
pub enum StatusSubCode {
    kNone,
    kMutexTimeout,
    kLockTimeout,
    kLockLimit,
    kNoSpace,
    kDeadlock,
    kStaleFile,
    kMemoryLimit,
    kSpaceLimit,
    kPathNotFound,
    KMergeOperandsInsufficientCapacity,
    kManualCompactionPaused,
    kOverwritten,
    kTxnNotPrepared,
    kIOFenced,
    kMaxSubCode,
}

/// How serious a storage failure is.
#[allow(non_camel_case_types)]
#[derive(Copy, Clone, Debug, PartialEq, Eq, Structural)]
pub enum StatusSeverity {
    kNoError,
    kSoftError,
    kHardError,
    kFatalError,
    kUnrecoverableError,
    kMaxSeverity,
}

/// Status reported by the storage engine after each call.
#[derive(Clone, Debug)]
pub struct RdbStatus {
    pub code: StatusCode,
    pub subcode: StatusSubCode,
    pub severity: StatusSeverity,
    pub message: String,
}

impl Default for RdbStatus {
    fn default() -> (r: Self)
        ensures
            r.code == StatusCode::kOk,
            r.subcode == StatusSubCode::kNone,
            r.severity == StatusSeverity::kNoError,
            r.message@ == Seq::<char>::empty(),
    {
        RdbStatus {
            code: StatusCode::kOk,
            subcode: StatusSubCode::kNone,
            severity: StatusSeverity::kNoError,
            message: String::new(),
        }
    }
}

impl RdbStatus {
    /// The operation succeeded.
    pub fn is_ok(&self) -> (r: bool)
        ensures
            r == (self.code == StatusCode::kOk),
    {
        self.code == StatusCode::kOk
    }

    /// The key asked for is absent.
    pub fn is_not_found(&self) -> (r: bool)
        ensures
            r == (self.code == StatusCode::kNotFound),
    {
        self.code == StatusCode::kNotFound
    }

    /// Success, or a key that is absent: the two outcomes that are no failure.
    pub fn is_ok_or_not_found(&self) -> (r: bool)
        ensures
            r == (self.code == StatusCode::kOk || self.code == StatusCode::kNotFound),
    {
        self.is_ok() || self.is_not_found()
    }

    /// Human-readable rendering of the status.
    pub fn describe(&self) -> (r: String)
        ensures
            self.message@.len() > 0 ==> r@ == "RocksDB error: "@ + self.message@,
            self.message@.len() == 0 ==> r@ == "RocksDB error: "@ + code_name(self.code),
    {
        let mut r = String::from_str("RocksDB error: ");
        if !self.message.as_str().is_empty() {
            r.append(self.message.as_str());
        } else {
            r.append(status_code_name(self.code));
        }
        r
    }
}

/// Name of a status code, as the storage engine's headers write it.
pub open spec fn code_name(c: StatusCode) -> Seq<char> {
    match c {
        StatusCode::kOk => "kOk"@,
        StatusCode::kNotFound => "kNotFound"@,
        StatusCode::kCorruption => "kCorruption"@,
        StatusCode::kNotSupported => "kNotSupported"@,
        StatusCode::kInvalidArgument => "kInvalidArgument"@,
        StatusCode::kIOError => "kIOError"@,
        StatusCode::kMergeInProgress => "kMergeInProgress"@,
        StatusCode::kIncomplete => "kIncomplete"@,
        StatusCode::kShutdownInProgress => "kShutdownInProgress"@,
        StatusCode::kTimedOut => "kTimedOut"@,
        StatusCode::kAborted => "kAborted"@,
        StatusCode::kBusy => "kBusy"@,
        StatusCode::kExpired => "kExpired"@,
        StatusCode::kTryAgain => "kTryAgain"@,
        StatusCode::kCompactionTooLarge => "kCompactionTooLarge"@,
        StatusCode::kColumnFamilyDropped => "kColumnFamilyDropped"@,
        StatusCode::kMaxCode => "kMaxCode"@,
    }
}

/// Name of a status code.
pub fn status_code_name(c: StatusCode) -> (r: &'static str)
    ensures
        r@ == code_name(c),
{
    match c {
        StatusCode::kOk => "kOk",
        StatusCode::kNotFound => "kNotFound",
        StatusCode::kCorruption => "kCorruption",
        StatusCode::kNotSupported => "kNotSupported",
        StatusCode::kInvalidArgument => "kInvalidArgument",
        StatusCode::kIOError => "kIOError",
        StatusCode::kMergeInProgress => "kMergeInProgress",
        StatusCode::kIncomplete => "kIncomplete",
        StatusCode::kShutdownInProgress => "kShutdownInProgress",
        StatusCode::kTimedOut => "kTimedOut",
        StatusCode::kAborted => "kAborted",
        StatusCode::kBusy => "kBusy",
        StatusCode::kExpired => "kExpired",
        StatusCode::kTryAgain => "kTryAgain",
        StatusCode::kCompactionTooLarge => "kCompactionTooLarge",
        StatusCode::kColumnFamilyDropped => "kColumnFamilyDropped",
        StatusCode::kMaxCode => "kMaxCode",
    }
}

} // verus!
