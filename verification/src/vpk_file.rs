//! How a VPK file is to be parsed.
use crate::backup_name::day_number;
use crate::error::{Error, ErrorView};
use vstd::prelude::*;
use vstd::string::*;

verus! {

/// What to work out of a VPK file.
#[derive(Debug, Clone, PartialEq, Eq)]
pub struct VpkParseOptions {
    pub include_full_file_hash: bool,
    pub file_path: String,
    /// In seconds from the start of 1970.
    pub last_modified: Option<i64>,
    pub include_merkle: bool,
    pub include_entries: bool,
}

/// The day, counted from the first of January of the year 1, that is `s` seconds
/// from the start of 1970.
pub open spec fn day_at(s: int) -> int {
    s / 86400 + day_number(1970, 1, 1)
}

/// A time in the years that `chrono` covers.
pub open spec fn valid_instant(s: int) -> bool {
    day_number(-262143, 1, 1) <= day_at(s) <= day_number(262142, 12, 31)
}

/// `DateTime::from_timestamp` of `chrono`, without nanoseconds, accepts the times
/// in the years -262143 to 262142 and nothing else; `DateTime::timestamp` gives
/// the seconds back.
#[verifier::external_body]
fn instant(s: i64) -> (r: Option<i64>)
    ensures
        match r {
            Some(t) => valid_instant(s as int) && t == s,
            None => !valid_instant(s as int),
        },
{
    let time = chrono::DateTime::from_timestamp(s, 0)?;
    Some(time.timestamp())
}

/// A count of seconds as a signed number of the same width.
pub open spec fn signed(s: u64) -> int {
    if s <= i64::MAX {
        s as int
    } else {
        s - u64::MAX - 1
    }
}

/// When a file was changed, if that is a time at all.
pub open spec fn change_time(modified: Option<u64>) -> Option<int> {
    match modified {
        Some(s) => if valid_instant(signed(s)) {
            Some(signed(s))
        } else {
            None
        },
        None => None,
    }
}

/// The time of a change is the one the file system tells. Counts too great for a signed number
/// stand for times before 1970, and what is no time of a calendar counts as none.
pub proof fn law_change_times_are_signed(s: u64)
    ensures
        change_time(None) is None,
        change_time(Some(s)) is Some && s < 0x8000_0000_0000_0000 ==> change_time(Some(s))->0 == s,
        change_time(Some(s)) is Some && s >= 0x8000_0000_0000_0000 ==> change_time(Some(s))->0
            == s - 0x1_0000_0000_0000_0000,
        change_time(Some(s)) is None <==> !valid_instant(
            if s < 0x8000_0000_0000_0000 {
                s as int
            } else {
                s - 0x1_0000_0000_0000_0000
            },
        ),
{
}

pub open spec fn opt_int(t: Option<i64>) -> Option<int> {
    match t {
        Some(s) => Some(s as int),
        None => None,
    }
}

/// How to parse the file at `file_path`, which was changed `modified` seconds from
/// the start of 1970, as far as that is known. The entries are always listed; the
/// costly parts are worked out on request.
pub fn vpk_parse_options(
    file_path: &str,
    include_full_file_hash: Option<bool>,
    include_merkle: Option<bool>,
    modified: Option<u64>,
) -> (r: VpkParseOptions)
    ensures
        r.include_full_file_hash == (include_full_file_hash == Some(true)),
        r.include_merkle == (include_merkle == Some(true)),
        r.include_entries,
        r.file_path@ == file_path@,
        opt_int(r.last_modified) == change_time(modified),
{
    let last_modified = match modified {
        Some(s) => if s <= i64::MAX as u64 {
            instant(s as i64)
        } else {
            instant(-((u64::MAX - s) as i64) - 1)
        },
        None => None,
    };
    VpkParseOptions {
        include_full_file_hash: match include_full_file_hash {
            Some(x) => x,
            None => false,
        },
        file_path: file_path.to_owned(),
        last_modified,
        include_merkle: match include_merkle {
            Some(x) => x,
            None => false,
        },
        include_entries: true,
    }
}

/// The failure to parse the file at `file_path`.
pub fn vpk_parse_failed(file_path: &str, why: &str) -> (r: Error)
    ensures
        r@ == ErrorView::InvalidInput(
            "Failed to parse VPK file "@ + file_path@ + ": "@ + why@,
        ),
{
    let mut m: String = "Failed to parse VPK file ".to_owned();
    m.append(file_path);
    m.append(": ");
    m.append(why);
    Error::InvalidInput(m)
}

} // verus!
