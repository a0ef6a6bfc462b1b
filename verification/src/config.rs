//! The settings that the environment can give, and what they are without it.

use vstd::prelude::*;
use vstd::string::*;

use crate::text;
use crate::text::CountError;

verus! {

/// Where files are stored, without `STORAGE_ROOT`.
pub const STORAGE_ROOT: &'static str = "/data";

/// The address to listen on, without `BIND_ADDR`.
pub const BIND_ADDR: &'static str = "0.0.0.0:8080";

/// How many jobs the queue holds, without `WRITE_QUEUE_CAPACITY`.
pub const WRITE_QUEUE_CAPACITY: &'static str = "1024";

/// How many workers write, without `WRITE_WORKERS`.
pub const WRITE_WORKERS: &'static str = "4";

/// How long a body can be, without `MAX_BODY_BYTES`.
pub const MAX_BODY_BYTES: &'static str = "1073741824";

/// What a variable says, or else its default.
pub open spec fn setting(value: Option<String>, default: Seq<char>) -> Seq<char> {
    match value {
        Some(s) => s@,
        None => default,
    }
}

/// What a variable says, or else its default. `value` is what the environment has.
pub fn env_or(value: Option<String>, default: &str) -> (s: String)
    ensures
        s@ == setting(value, default@),
{
    match value {
        Some(s) => s,
        None => default.to_owned(),
    }
}

/// The number that a variable says, or else its default.
pub fn env_count(value: Option<String>, default: &str) -> (r: Result<usize, CountError>)
    ensures
        r == text::count_value(setting(value, default@)),
{
    text::parse_count(env_or(value, default).as_str())
}

/// A variable that is set says what it says, whatever that is, and one that is not set
/// says its default.
pub proof fn setting_is_what_is_set(value: Option<String>, default: &str, s: String)
    requires
        call_ensures(env_or, (value, default), s),
    ensures
        value matches Some(v) ==> s@ == v@,
        value is None ==> s@ == default@,
{
}

/// A setting that is a count is what the digits of the variable, or else of the default,
/// are worth.
pub proof fn count_setting_is_what_is_set(
    value: Option<String>,
    default: &str,
    r: Result<usize, CountError>,
)
    requires
        call_ensures(env_count, (value, default), r),
    ensures
        ({
            let digits = text::unsigned(
                match value {
                    Some(v) => v@,
                    None => default@,
                },
            );
            &&& r is Ok <==> digits.len() > 0 && text::all_digits(digits) && text::worth(digits)
                <= usize::MAX
            &&& r matches Ok(n) ==> n == text::worth(digits)
        }),
{
    text::lemma_count_worth(setting(value, default@));
}

} // verus!
