//! The few values the library takes from outside: fresh identifiers, the
//! clock, and std's whitespace trimming.

use vstd::prelude::*;

verus! {

/// A random (version 4) UUID in its hyphenated text form: 36 characters,
/// hyphens at 8, 13, 18 and 23, lower-case hex digits everywhere else, the
/// version digit `4` at 14 and a variant digit `8`, `9`, `a` or `b` at 19.
pub open spec fn is_hyphenated_uuid(s: Seq<char>) -> bool {
    &&& s.len() == 36
    &&& s[14] == '4'
    &&& (s[19] == '8' || s[19] == '9' || s[19] == 'a' || s[19] == 'b')
    &&& forall|i: int|
        0 <= i < 36 ==> if i == 8 || i == 13 || i == 18 || i == 23 {
            s[i] == '-'
        } else {
            ('0' <= #[trigger] s[i] <= '9') || ('a' <= s[i] <= 'f')
        }
}

/// Calls `uuid::Uuid::new_v4` and renders the result with `to_string`.
/// The identifier is random, so nothing ties it to earlier calls; what is
/// claimed is only its shape: `Uuid`'s `Display` is the lower-case
/// hyphenated form, and `new_v4` sets the version nibble to 4 and the top
/// two variant bits to `10`.
#[verifier::external_body]
pub(crate) fn fresh_task_id() -> (id: String)
    ensures
        is_hyphenated_uuid(id@),
{
    uuid::Uuid::new_v4().to_string()
}

/// Calls `chrono::Utc::now` and reads it with `timestamp_millis`.
/// The value depends on the clock; chrono's `now` panics for a clock set
/// before 1970 and otherwise returns a time after the epoch, so the
/// milliseconds are never negative. Nothing more is claimed.
#[verifier::external_body]
pub(crate) fn current_time_millis() -> (ms: i64)
    ensures
        ms >= 0,
{
    chrono::Utc::now().timestamp_millis()
}

/// Unicode's White_Space property, the characters `str::trim` removes:
/// U+0009 to U+000D, U+0020, U+0085, U+00A0, U+1680, U+2000 to U+200A,
/// U+2028, U+2029, U+202F, U+205F and U+3000.
pub open spec fn is_white_space(c: char) -> bool {
    ||| ('\u{9}' <= c <= '\u{d}')
    ||| c == ' '
    ||| c == '\u{85}'
    ||| c == '\u{a0}'
    ||| c == '\u{1680}'
    ||| ('\u{2000}' <= c <= '\u{200a}')
    ||| c == '\u{2028}'
    ||| c == '\u{2029}'
    ||| c == '\u{202f}'
    ||| c == '\u{205f}'
    ||| c == '\u{3000}'
}

/// The text without its leading white space.
pub open spec fn trim_start(s: Seq<char>) -> Seq<char>
    decreases s.len(),
{
    if s.len() > 0 && is_white_space(s[0]) {
        trim_start(s.drop_first())
    } else {
        s
    }
}

/// The text without its trailing white space.
pub open spec fn trim_end(s: Seq<char>) -> Seq<char>
    decreases s.len(),
{
    if s.len() > 0 && is_white_space(s.last()) {
        trim_end(s.drop_last())
    } else {
        s
    }
}

/// What `str::trim` returns: the text without leading or trailing white space.
pub open spec fn trimmed(s: Seq<char>) -> Seq<char> {
    trim_end(trim_start(s))
}

/// Calls `str::trim` and copies the result into a `String`. std documents
/// `trim` as removing leading and trailing characters with Unicode's
/// White_Space property, which is what `trimmed` states.
#[verifier::external_body]
pub(crate) fn trim_text(s: &str) -> (t: String)
    ensures
        t@ == trimmed(s@),
{
    s.trim().to_string()
}

} // verus!
