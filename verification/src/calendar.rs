//! Dates and times of day in words.

use vstd::prelude::*;

use crate::text::string_view;

verus! {

/// What `chrono` prints for a moment: `secs` seconds after the epoch, where the clocks
/// are `offset_secs` ahead of UTC, by a pattern of `strftime`. Nothing where `chrono`
/// has no such moment or no such offset.
pub uninterp spec fn formatted(secs: i64, offset_secs: i32, pattern: Seq<char>) -> Option<
    Seq<char>,
>;

/// Calls `DateTime::from_timestamp`, moves the moment to `FixedOffset::east_opt` and
/// prints it with `DateTime::format`. The result is a function of the arguments alone,
/// and there is none where the offset is a day or more.
#[verifier::external_body]
fn format_time(secs: i64, offset_secs: i32, pattern: &str) -> (text: Option<String>)
    requires
        pattern@ == "%Y-%m-%d %H:%M:%S %z"@ || pattern@ == "%Y%m%d_%H%M%S"@,
    ensures
        string_view(text) == formatted(secs, offset_secs, pattern@),
        !(-86_400 < offset_secs < 86_400) ==> text is None,
{
    let offset = chrono::FixedOffset::east_opt(offset_secs)?;
    let moment = chrono::DateTime::from_timestamp(secs, 0)?;
    Some(moment.with_timezone(&offset).format(pattern).to_string())
}

/// The time of day as it stands in the report.
pub fn report_time(secs: i64, offset_secs: i32) -> (text: Option<String>)
    ensures
        string_view(text) == formatted(secs, offset_secs, "%Y-%m-%d %H:%M:%S %z"@),
{
    format_time(secs, offset_secs, "%Y-%m-%d %H:%M:%S %z")
}

/// The name of the file of the report, from the time of day.
pub open spec fn file_name(stamp: Option<Seq<char>>) -> Option<Seq<char>> {
    match stamp {
        Some(stamp) => Some("report_"@ + stamp + ".md"@),
        None => None,
    }
}

/// The name of the file of the report, from the time of day in words.
pub fn report_file_name_at(stamp: Option<String>) -> (name: Option<String>)
    ensures
        string_view(name) == file_name(string_view(stamp)),
{
    match stamp {
        Some(stamp) => {
            let mut name = String::from_str("report_");
            name.append(stamp.as_str());
            name.append(".md");
            Some(name)
        },
        None => None,
    }
}

/// The name of the file of the report.
pub fn report_file_name(secs: i64, offset_secs: i32) -> (name: Option<String>)
    ensures
        string_view(name) == file_name(formatted(secs, offset_secs, "%Y%m%d_%H%M%S"@)),
{
    report_file_name_at(format_time(secs, offset_secs, "%Y%m%d_%H%M%S"))
}

/// The name of the file holds the time of day.
pub proof fn the_file_is_named_by_the_time(stamp: Seq<char>)
    ensures
        file_name(Some(stamp)) == Some("report_"@ + stamp + ".md"@),
        file_name(None) is None,
{
}

} // verus!
