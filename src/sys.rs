//! The calls this library makes into outside crates: the clock, the user's
//! directories and regular-expression matching. Each item here is trusted:
//! its contract is assumed, not proved.

use vstd::prelude::*;

verus! {

/// Relies on `chrono::Utc::now` and `DateTime::timestamp`: the current time
/// in whole seconds since the Unix epoch. Nothing is promised of the value.
/// `Utc::now` panics only when the system clock reads before 1970.
#[verifier::external_body]
pub fn now_secs() -> (r: i64) {
    chrono::Utc::now().timestamp()
}

/// Relies on `chrono::Utc::now` and `DateTime::timestamp_millis`: the
/// current time in milliseconds since the Unix epoch. Nothing is promised of
/// the value. `Utc::now` panics only when the system clock reads before 1970.
#[verifier::external_body]
pub fn now_millis() -> (r: i64) {
    chrono::Utc::now().timestamp_millis()
}

/// Relies on `dirs::download_dir`: the user's downloads folder, when the
/// platform defines one, as text. It depends on the environment; nothing is
/// promised of it.
#[verifier::external_body]
pub fn os_download_dir() -> (r: Option<String>) {
    dirs::download_dir().map(|p| p.to_string_lossy().to_string())
}

/// Relies on `dirs::data_dir`: the user's data folder, when the platform
/// defines one, as text. It depends on the environment; nothing is promised
/// of it.
#[verifier::external_body]
pub fn os_data_dir() -> (r: Option<String>) {
    dirs::data_dir().map(|p| p.to_string_lossy().to_string())
}

/// Whether `pattern`, read as a regular expression, matches somewhere in
/// `text`; absent when the pattern does not compile.
pub uninterp spec fn regex_match(pattern: Seq<char>, text: Seq<char>) -> Option<bool>;

/// Relies on `regex::Regex::new` and `Regex::is_match`: compiling the
/// pattern fails or succeeds, and matching answers, as a function of the
/// two texts alone.
#[verifier::external_body]
pub fn regex_is_match(pattern: &str, text: &str) -> (r: Option<bool>)
    ensures
        r == regex_match(pattern@, text@),
{
    match regex::Regex::new(pattern) {
        Ok(re) => Some(re.is_match(text)),
        Err(_) => None,
    }
}

} // verus!
