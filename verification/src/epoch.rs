//! The calendar epoch written at the head of a navigation record.

use vstd::prelude::*;
use crate::text::all_digits;
use crate::text::blank_split;
use crate::text::digits_to_u64;
use crate::text::digits_val;
use crate::text::digits_only;
use crate::text::dot_pos;
use crate::text::find_dot;
use crate::text::lemma_digits_val_bound;
use crate::text::split_blanks;

verus! {

/// Why an epoch field was rejected.
#[derive(Clone, Copy, PartialEq, Eq, Structural, Debug)]
pub enum Error {
    InvalidFormat,
}

/// A calendar date and time of day, as read from the record text.
/// Two-digit years are mapped into 1980-2079.
#[derive(Clone, Copy, PartialEq, Eq, Structural, Debug)]
pub struct Epoch {
    pub year: u32,
    pub month: u32,
    pub day: u32,
    pub hour: u32,
    pub minute: u32,
    pub second: u32,
}

/// The number a plain digit token denotes, when it is non-empty, all
/// digits, no longer than a field can be, and fits in `u32`.
pub open spec fn num_value(t: Seq<u8>) -> Option<u32> {
    if all_digits(t) && 0 < t.len() <= 19 && digits_val(t) <= 0xFFFF_FFFF {
        Some(digits_val(t) as u32)
    } else {
        None
    }
}

/// The whole seconds a seconds token denotes: its digits before the
/// decimal point; digits behind the point are read and dropped.
pub open spec fn sec_value(t: Seq<u8>) -> Option<u32> {
    let d = dot_pos(t);
    if d == t.len() {
        num_value(t)
    } else if all_digits(t.skip(d + 1)) {
        num_value(t.take(d))
    } else {
        None
    }
}

/// Two-digit years name 1980-1999 and 2000-2079.
pub open spec fn mapped_year(y: u32) -> u32 {
    if y < 80 {
        (y + 2000) as u32
    } else if y < 100 {
        (y + 1900) as u32
    } else {
        y
    }
}

/// The epoch a header field denotes: exactly six blank-separated tokens,
/// year month day hour minute second.
pub open spec fn epoch_of_text(s: Seq<u8>) -> Result<Epoch, Error> {
    let toks = blank_split(s);
    if toks.len() == 6 && num_value(toks[0]) is Some && num_value(toks[1]) is Some && num_value(
        toks[2],
    ) is Some && num_value(toks[3]) is Some && num_value(toks[4]) is Some && sec_value(
        toks[5],
    ) is Some {
        Ok(
            Epoch {
                year: mapped_year(num_value(toks[0]).unwrap()),
                month: num_value(toks[1]).unwrap(),
                day: num_value(toks[2]).unwrap(),
                hour: num_value(toks[3]).unwrap(),
                minute: num_value(toks[4]).unwrap(),
                second: sec_value(toks[5]).unwrap(),
            },
        )
    } else {
        Err(Error::InvalidFormat)
    }
}

/// Reads a plain digit token.
fn parse_num(t: &[u8]) -> (r: Option<u32>)
    ensures
        r == num_value(t@),
{
    if t.len() == 0 || t.len() > 19 || !digits_only(t) {
        return None;
    }
    proof {
        lemma_digits_val_bound(t@);
    }
    let v = digits_to_u64(t);
    if v <= 0xFFFF_FFFF {
        Some(v as u32)
    } else {
        None
    }
}

/// Reads a seconds token.
fn parse_sec(t: &[u8]) -> (r: Option<u32>)
    ensures
        r == sec_value(t@),
{
    let d = find_dot(t);
    if d == t.len() {
        parse_num(t)
    } else {
        let frac = vstd::slice::slice_subrange(t, d + 1, t.len());
        proof {
            assert(frac@ =~= t@.skip(d + 1));
        }
        if !digits_only(frac) {
            return None;
        }
        let ip = vstd::slice::slice_subrange(t, 0, d);
        proof {
            assert(ip@ =~= t@.take(d as int));
        }
        parse_num(ip)
    }
}

/// Reads an epoch header field.
pub fn parse_epoch(s: &[u8]) -> (r: Result<Epoch, Error>)
    ensures
        r == epoch_of_text(s@),
{
    let toks = split_blanks(s);
    proof {
        assert(toks@.map_values(|t: Vec<u8>| t@).len() == toks@.len());
        assert forall|i: int| 0 <= i < toks@.len() implies #[trigger] toks@[i]@ == blank_split(
            s@,
        )[i] by {
            assert(toks@.map_values(|t: Vec<u8>| t@)[i] == toks@[i]@);
        }
    }
    if toks.len() != 6 {
        return Err(Error::InvalidFormat);
    }
    let year = parse_num(toks[0].as_slice());
    let month = parse_num(toks[1].as_slice());
    let day = parse_num(toks[2].as_slice());
    let hour = parse_num(toks[3].as_slice());
    let minute = parse_num(toks[4].as_slice());
    let second = parse_sec(toks[5].as_slice());
    match (year, month, day, hour, minute, second) {
        (Some(y), Some(mo), Some(d), Some(h), Some(mi), Some(se)) => {
            let year = if y < 80 {
                y + 2000
            } else if y < 100 {
                y + 1900
            } else {
                y
            };
            Ok(Epoch { year, month: mo, day: d, hour: h, minute: mi, second: se })
        },
        _ => Err(Error::InvalidFormat),
    }
}

} // verus!
