use chrono::TimeZone;
use vstd::prelude::*;


verus! {

/// `String::push` from std: appends one character to the end of the string.
#[verifier::external_body]
pub(crate) fn push_char(s: &mut String, c: char)
    ensures
        final(s)@ == old(s)@.push(c),
{
    s.push(c);
}

/// The error type of `html2text`.
#[verifier::external_type_specification]
#[verifier::external_body]
pub struct ExHtmlError(html2text::Error);

/// What `html2text::from_read` makes of the HTML text `html` wrapped to `width` columns:
/// the plain text, or `None` where it reports an error.
pub uninterp spec fn html_as_text(html: Seq<char>, width: usize) -> Option<Seq<char>>;

/// `html2text::from_read` on the UTF-8 bytes of `html`. Claimed: the result is the one named by
/// `html_as_text` for these arguments, and a width of 0 is refused (the crate's
/// `render_with_context` returns `TooNarrow` for it). The rendering itself is not stated.
#[verifier::external_body]
pub(crate) fn html_to_text(html: &str, width: usize) -> (r: Result<String, html2text::Error>)
    ensures
        match r {
            Ok(t) => html_as_text(html@, width) == Some(t@),
            Err(_) => html_as_text(html@, width) is None,
        },
        width == 0 ==> r is Err,
{
    html2text::from_read(html.as_bytes(), width)
}

/// The `strftime`-style patterns that dates are written with.
pub open spec fn date_pattern_supported(pattern: Seq<char>) -> bool {
    pattern == "%b %d"@ || pattern == "%Y-%m-%d"@
}

/// What chrono writes for the UTC time `timestamp` seconds after the Unix epoch (read as an
/// `i64`) with `pattern`, or `None` where that time is out of chrono's range.
pub uninterp spec fn utc_date_text(timestamp: u64, pattern: Seq<char>) -> Option<Seq<char>>;

/// `chrono::Utc.timestamp_opt(timestamp as i64, 0).single()`, then `DateTime::format` with
/// `pattern` and `to_string`. Claimed: the result is the one named by `utc_date_text`. Only the
/// two patterns in use are admitted, since a malformed pattern makes `to_string` panic.
#[verifier::external_body]
pub(crate) fn format_utc_date(timestamp: u64, pattern: &str) -> (r: Option<String>)
    requires
        date_pattern_supported(pattern@),
    ensures
        match r {
            Some(t) => utc_date_text(timestamp, pattern@) == Some(t@),
            None => utc_date_text(timestamp, pattern@) is None,
        },
{
    match chrono::Utc.timestamp_opt(timestamp as i64, 0).single() {
        Some(dt) => Some(dt.format(pattern).to_string()),
        None => None,
    }
}

/// `chrono::Utc::now().timestamp()`, read as a `u64`: the system clock in seconds since the
/// Unix epoch. Nothing is claimed of the value.
#[verifier::external_body]
pub(crate) fn unix_now() -> (t: u64) {
    chrono::Utc::now().timestamp() as u64
}

/// `terminal_size::terminal_size`: the column count of the terminal on stdout, stderr or stdin,
/// or `None` when none of them is a terminal. Nothing is claimed of the value: the Unix source
/// only reports a count above 0, but the Windows source computes it from the window's edges
/// without that check.
#[verifier::external_body]
pub(crate) fn terminal_columns() -> (w: Option<u16>) {
    match terminal_size::terminal_size() {
        Some((terminal_size::Width(w), _)) => Some(w),
        None => None,
    }
}

} // verus!
