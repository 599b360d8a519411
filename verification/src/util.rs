//! Choosing the player application from the operating-system version.
//!
//! The caller obtains the version text from the system; the parsing of its
//! leading `major.minor` pair and the choice it drives are made here.

use vstd::prelude::*;

use crate::persist::{num_at, parse_u64, ser_nat, str_chars};
use crate::structs::ITunesAppName;

verus! {

/// The version at which the player application changed its name: 10.15.
pub const NAME_CHANGE_MAJOR: u64 = 10;

pub const NAME_CHANGE_MINOR: u64 = 15;

/// The minor version as hundredths, so that versions compare the way their
/// `major.minor` spelling reads: `.2` is two tenths, above `.15`.
pub open spec fn minor_scaled(minor: u64) -> int {
    if minor < 10 {
        minor * 10
    } else {
        minor as int
    }
}

/// The application name a system version selects: the newer one from
/// version 10.15 on, read as its spelling compares.
pub open spec fn spec_app_name(major: u64, minor: u64) -> ITunesAppName {
    if major > NAME_CHANGE_MAJOR || (major == NAME_CHANGE_MAJOR && minor_scaled(minor)
        >= minor_scaled(NAME_CHANGE_MINOR)) {
        ITunesAppName::Music
    } else {
        ITunesAppName::ITunes
    }
}

/// Choose the player application for a parsed system version.
pub fn choose_app_name(major: u64, minor: u64) -> (r: ITunesAppName)
    ensures
        r == spec_app_name(major, minor),
{
    if major > NAME_CHANGE_MAJOR {
        ITunesAppName::Music
    } else if major == NAME_CHANGE_MAJOR {
        let scaled = if minor < 10 {
            minor * 10
        } else {
            minor
        };
        if scaled >= 15 {
            ITunesAppName::Music
        } else {
            ITunesAppName::ITunes
        }
    } else {
        ITunesAppName::ITunes
    }
}

/// Read the leading `major.minor` pair of a version text, both written
/// canonically; whatever follows the minor version is ignored, as long as
/// it does not continue its digits.
pub fn parse_major_minor(version: &str) -> (r: Option<(u64, u64)>)
    ensures
        r matches Some((major, minor)) ==> ({
            let p = ser_nat(major as nat).len() as int;
            &&& num_at(version@, 0, major as nat)
            &&& p < version@.len() && version@[p] == '.'
            &&& num_at(version@, p + 1, minor as nat)
        }),
        forall|m1: nat, m2: nat|
            #![trigger num_at(version@, 0, m1), num_at(version@, ser_nat(m1).len() as int + 1, m2)]
            ({
                let p = ser_nat(m1).len() as int;
                num_at(version@, 0, m1) && m1 <= u64::MAX && p < version@.len()
                    && version@[p] == '.' && num_at(version@, p + 1, m2) && m2 <= u64::MAX
            }) ==> r == Some((m1 as u64, m2 as u64)),
{
    let cs = str_chars(version);
    match parse_u64(&cs, 0) {
        Ok((major, j)) => {
            if j < cs.len() && cs[j] == '.' {
                match parse_u64(&cs, j + 1) {
                    Ok((minor, _)) => Some((major, minor)),
                    Err(()) => None,
                }
            } else {
                None
            }
        },
        Err(()) => None,
    }
}

} // verus!
