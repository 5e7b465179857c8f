//! What can go wrong.
use crate::text;
use vstd::prelude::*;

verus! {

#[allow(inconsistent_fields)]
#[derive(Debug)]
pub enum Error {
    /// A local file could not be opened.
    FailedToOpenLocalFile { file: String, message: String },
    /// The storage holds something else.
    StorageisNotForSlate { message: &'static str },
    /// The storage was written in a version that cannot be read.
    IncompatibleVersion(u8, u8),
    /// The payload is longer than an entry can hold.
    TooLargePayload { size: usize },
    /// The storage is damaged.
    DamagedStorage(String),
    /// The offset to the head of an entry is not right.
    IncorrectEntryHeadOffset { expected: u32, actual: u32 },
    /// The checksum of an entry is not right.
    ChecksumVerificationFailed { at: u64, length: u32, expected: u64, actual: u64 },
    /// The storage contradicts the internal state.
    InternalStateInconsistency { message: String },
    /// A stratum sample cannot be verified or compared.
    SampleVerificationFailed(String),
    /// An argument is out of range.
    InvalidArgument(String),
    /// A function of the caller failed.
    Callback(String),
    /// A device failed, or had fewer bytes than were to be read.
    Io { message: String },
    /// Anything else.
    Otherwise { message: String },
    /// A lock could not be taken.
    LockError(String),
}

pub type Result<T> = std::result::Result<T, Error>;

/// The error for a storage that contradicts the internal state.
pub(crate) fn inconsistency<T>(msg: String) -> (r: Result<T>)
    ensures
        r == Err::<T, Error>(Error::InternalStateInconsistency { message: msg }),
{
    Err(Error::InternalStateInconsistency { message: msg })
}

impl Error {
    /// What the error says.
    pub open spec fn text(&self) -> Seq<char> {
        match self {
            Error::FailedToOpenLocalFile { file, message } => "Failed to open local file "@ + file@
                + "; "@ + message@,
            Error::StorageisNotForSlate { message } => "The contents of storage are not for Slate: "@
                + message@,
            Error::IncompatibleVersion(major, minor) => "Slate storage version is incompatible: "@
                + text::decimal_of(*major as nat) + "."@ + text::decimal_of(*minor as nat),
            Error::TooLargePayload { size } => "Payload size is too large: "@ + text::decimal_of(
                *size as nat,
            ),
            Error::DamagedStorage(message) => "DAMAGED STORAGE: "@ + message@,
            Error::IncorrectEntryHeadOffset { expected, actual } => {
                "DAMAGED STORAGE: incorrect entry-head offset field; recorded as "@
                    + text::decimal_of(*expected as nat) + ", but actually "@ + text::decimal_of(
                    *actual as nat,
                )
            },
            Error::ChecksumVerificationFailed { at, length, expected, actual } => {
                "DAMAGED STORAGE: checksum verification failed for "@ + text::decimal_of(
                    *length as nat,
                ) + " bytes starting at "@ + text::decimal_of(*at as nat) + "; expected "@
                    + text::decimal_of(*expected as nat) + " but got "@ + text::decimal_of(
                    *actual as nat,
                )
            },
            Error::InternalStateInconsistency { message } => {
                "INCONSISTENCY STATE: between the internally state and the data in storage; "@
                    + message@
            },
            Error::SampleVerificationFailed(message) => message@,
            Error::InvalidArgument(message) => message@,
            Error::Callback(message) => "The user function returned an error during the callback: "@
                + message@,
            Error::Io { message } => "I/O error: "@ + message@,
            Error::Otherwise { message } => message@,
            Error::LockError(message) => message@,
        }
    }

    /// What the error says.
    pub fn to_str(&self) -> (r: String)
        ensures
            r@ == self.text(),
    {
        let mut text = String::new();
        match self {
            Error::FailedToOpenLocalFile { file, message } => {
                text::push_text(&mut text, "Failed to open local file ");
                text::push_text(&mut text, file.as_str());
                text::push_text(&mut text, "; ");
                text::push_text(&mut text, message.as_str());
            },
            Error::StorageisNotForSlate { message } => {
                text::push_text(&mut text, "The contents of storage are not for Slate: ");
                text::push_text(&mut text, message);
            },
            Error::IncompatibleVersion(major, minor) => {
                text::push_text(&mut text, "Slate storage version is incompatible: ");
                text::push_decimal(&mut text, *major as u64);
                text::push_text(&mut text, ".");
                text::push_decimal(&mut text, *minor as u64);
            },
            Error::TooLargePayload { size } => {
                text::push_text(&mut text, "Payload size is too large: ");
                text::push_decimal(&mut text, *size as u64);
            },
            Error::DamagedStorage(message) => {
                text::push_text(&mut text, "DAMAGED STORAGE: ");
                text::push_text(&mut text, message.as_str());
            },
            Error::IncorrectEntryHeadOffset { expected, actual } => {
                text::push_text(
                    &mut text,
                    "DAMAGED STORAGE: incorrect entry-head offset field; recorded as ",
                );
                text::push_decimal(&mut text, *expected as u64);
                text::push_text(&mut text, ", but actually ");
                text::push_decimal(&mut text, *actual as u64);
            },
            Error::ChecksumVerificationFailed { at, length, expected, actual } => {
                text::push_text(&mut text, "DAMAGED STORAGE: checksum verification failed for ");
                text::push_decimal(&mut text, *length as u64);
                text::push_text(&mut text, " bytes starting at ");
                text::push_decimal(&mut text, *at);
                text::push_text(&mut text, "; expected ");
                text::push_decimal(&mut text, *expected);
                text::push_text(&mut text, " but got ");
                text::push_decimal(&mut text, *actual);
            },
            Error::InternalStateInconsistency { message } => {
                text::push_text(
                    &mut text,
                    "INCONSISTENCY STATE: between the internally state and the data in storage; ",
                );
                text::push_text(&mut text, message.as_str());
            },
            Error::SampleVerificationFailed(message) => {
                text::push_text(&mut text, message.as_str());
            },
            Error::InvalidArgument(message) => {
                text::push_text(&mut text, message.as_str());
            },
            Error::Callback(message) => {
                text::push_text(
                    &mut text,
                    "The user function returned an error during the callback: ",
                );
                text::push_text(&mut text, message.as_str());
            },
            Error::Io { message } => {
                text::push_text(&mut text, "I/O error: ");
                text::push_text(&mut text, message.as_str());
            },
            Error::Otherwise { message } => {
                text::push_text(&mut text, message.as_str());
            },
            Error::LockError(message) => {
                text::push_text(&mut text, message.as_str());
            },
        }
        proof {
            assert(text@ =~= self.text());
        }
        text
    }
}

/// What the errors with numbers say: each number stands in its place, in full.
pub proof fn law_numbers_in_errors(a: u64, b: u64, c: u64, d: u32, e: u32, x: u8, y: u8, size: usize)
    ensures
        (Error::TooLargePayload { size }).text() == "Payload size is too large: "@
            + text::decimal_of(size as nat),
        Error::IncompatibleVersion(x, y).text() == "Slate storage version is incompatible: "@
            + text::decimal_of(x as nat) + "."@ + text::decimal_of(y as nat),
        (Error::IncorrectEntryHeadOffset { expected: d, actual: e }).text()
            == "DAMAGED STORAGE: incorrect entry-head offset field; recorded as "@
            + text::decimal_of(d as nat) + ", but actually "@ + text::decimal_of(e as nat),
        (Error::ChecksumVerificationFailed { at: a, length: d, expected: b, actual: c }).text()
            == "DAMAGED STORAGE: checksum verification failed for "@ + text::decimal_of(d as nat)
            + " bytes starting at "@ + text::decimal_of(a as nat) + "; expected "@
            + text::decimal_of(b as nat) + " but got "@ + text::decimal_of(c as nat),
{
}

/// What the errors with messages say: the whole message, behind what tells the kind of the error.
pub proof fn law_messages_in_errors(message: String, file: String, reason: &'static str)
    ensures
        (Error::FailedToOpenLocalFile { file, message }).text() == "Failed to open local file "@
            + file@ + "; "@ + message@,
        (Error::StorageisNotForSlate { message: reason }).text()
            == "The contents of storage are not for Slate: "@ + reason@,
        Error::DamagedStorage(message).text() == "DAMAGED STORAGE: "@ + message@,
        (Error::InternalStateInconsistency { message }).text()
            == "INCONSISTENCY STATE: between the internally state and the data in storage; "@
            + message@,
        Error::SampleVerificationFailed(message).text() == message@,
        Error::InvalidArgument(message).text() == message@,
        Error::Callback(message).text()
            == "The user function returned an error during the callback: "@ + message@,
        (Error::Io { message }).text() == "I/O error: "@ + message@,
        (Error::Otherwise { message }).text() == message@,
        Error::LockError(message).text() == message@,
{
}

} // verus!
