use vstd::prelude::*;

verus! {

/// Allowable events for logging and reading.
#[derive(Clone, Copy, Debug, PartialEq, Eq, Structural)]
pub enum LogType {
    Xyz,
    Xxx,
    Yyz,
    Zyx,
}

impl LogType {
    /// The lowercase tag that stands for this category at the service boundary.
    pub open spec fn tag_spec(self) -> Seq<char> {
        match self {
            LogType::Xyz => "xyz"@,
            LogType::Xxx => "xxx"@,
            LogType::Yyz => "yyz"@,
            LogType::Zyx => "zyx"@,
        }
    }

    /// The category a lowercase tag stands for; tags outside the closed set
    /// stand for no category at all.
    pub open spec fn from_tag_spec(tag: Seq<char>) -> Option<LogType> {
        if tag == "xyz"@ {
            Some(LogType::Xyz)
        } else if tag == "xxx"@ {
            Some(LogType::Xxx)
        } else if tag == "yyz"@ {
            Some(LogType::Yyz)
        } else if tag == "zyx"@ {
            Some(LogType::Zyx)
        } else {
            None
        }
    }

    /// Render this category as its lowercase boundary tag.
    pub fn as_tag(&self) -> (r: String)
        ensures
            r@ == self.tag_spec(),
    {
        match self {
            LogType::Xyz => "xyz".to_owned(),
            LogType::Xxx => "xxx".to_owned(),
            LogType::Yyz => "yyz".to_owned(),
            LogType::Zyx => "zyx".to_owned(),
        }
    }

    /// Decode a boundary tag; an unrecognized tag is a validation failure
    /// and maps to `None`, so it can never reach the store.
    pub fn from_tag(tag: &String) -> (r: Option<LogType>)
        ensures
            r == Self::from_tag_spec(tag@),
    {
        if *tag == "xyz".to_owned() {
            Some(LogType::Xyz)
        } else if *tag == "xxx".to_owned() {
            Some(LogType::Xxx)
        } else if *tag == "yyz".to_owned() {
            Some(LogType::Yyz)
        } else if *tag == "zyx".to_owned() {
            Some(LogType::Zyx)
        } else {
            None
        }
    }
}

/// Every category's tag decodes back to that category: the boundary mapping
/// between tags and the closed enumeration is one-to-one.
pub proof fn lemma_tag_round_trip(t: LogType)
    ensures
        LogType::from_tag_spec(t.tag_spec()) == Some(t),
{
    reveal_strlit("xyz");
    reveal_strlit("xxx");
    reveal_strlit("yyz");
    reveal_strlit("zyx");
    assert("xxx"@[1] != "xyz"@[1]);
    assert("yyz"@[0] != "xyz"@[0]);
    assert("yyz"@[0] != "xxx"@[0]);
    assert("zyx"@[0] != "xyz"@[0]);
    assert("zyx"@[0] != "xxx"@[0]);
    assert("zyx"@[0] != "yyz"@[0]);
}

/// serde_json's tree of JSON values. The store carries payloads of this type
/// through without ever reading their contents.
#[verifier::external_type_specification]
#[verifier::external_body]
pub struct ExValue(serde_json::Value);

/// Relies on serde_json::Value::clone: the derived clone rebuilds the whole
/// JSON tree field by field, so the result is the same value.
#[verifier::external_body]
pub(crate) fn clone_value(v: &serde_json::Value) -> (r: serde_json::Value)
    ensures
        r == *v,
{
    v.clone()
}

/// The struct for the event to be logged.
#[derive(Debug)]
pub struct Event {
    /// Specific log type. From enum.
    pub log_type: LogType,
    /// Unix timestamp of the log, in milliseconds.
    pub timestamp: u64,
    /// Generic payload.
    pub payload: serde_json::Value,
}

/// A custom return type for functions which are fallible.
pub type TrackerResult<T> = Result<T, ErrorTypes>;

/// A listing of custom error types.
#[derive(Debug)]
pub enum ErrorTypes {
    /// A read asked for a range whose start lies after its end.
    InvalidRange(String),
    /// A write carried a timestamp later than the clock's current reading.
    FutureTimestamp,
    /// The clock source reported an inconsistent or unusable time.
    TimeAnomaly,
    /// A read found the store without any entries.
    EmptyLogFile,
}

impl ErrorTypes {
    /// The short description each error kind carries.
    pub open spec fn message_spec(self) -> Seq<char> {
        match self {
            ErrorTypes::InvalidRange(_) => "Invalid Range"@,
            ErrorTypes::FutureTimestamp => "Future Timestamp"@,
            ErrorTypes::TimeAnomaly => "Time Anomaly"@,
            ErrorTypes::EmptyLogFile => "Empty Log File"@,
        }
    }

    /// Render the error kind's short description.
    pub fn message(&self) -> (r: String)
        ensures
            r@ == self.message_spec(),
    {
        match self {
            ErrorTypes::InvalidRange(_) => "Invalid Range".to_owned(),
            ErrorTypes::FutureTimestamp => "Future Timestamp".to_owned(),
            ErrorTypes::TimeAnomaly => "Time Anomaly".to_owned(),
            ErrorTypes::EmptyLogFile => "Empty Log File".to_owned(),
        }
    }
}

} // verus!
