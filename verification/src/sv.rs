//! Satellite-vehicle identifiers (`G08`, `E13`, ...).

use vstd::prelude::*;
use vstd::slice::slice_subrange;
use crate::constellation::Constellation;
use crate::constellation::constellation_of_letter;
use crate::text::all_digits;
use crate::text::digits_to_u64;
use crate::text::digits_val;
use crate::text::digits_only;
use crate::text::lemma_digits_val_bound;
use crate::text::trim;
use crate::text::trimmed;

verus! {

/// Why a satellite-identifier token was rejected.
#[derive(Clone, Copy, PartialEq, Eq, Structural, Debug)]
pub enum Error {
    UnknownSystem,
    InvalidPrn,
}

/// A satellite vehicle: its constellation and its PRN number.
#[derive(Clone, Copy, PartialEq, Eq, Structural, Debug)]
pub struct Sv {
    pub constellation: Constellation,
    pub prn: u8,
}

/// The PRN a digit token denotes, when it is all digits, non-empty, no
/// longer than an identifier field can be, and fits in `u8`.
pub open spec fn prn_value(t: Seq<u8>) -> Option<u8> {
    if all_digits(t) && 0 < t.len() <= 19 && digits_val(t) <= 255 {
        Some(digits_val(t) as u8)
    } else {
        None
    }
}

/// The satellite a fully qualified identifier token denotes: one system
/// letter, then the PRN digits (blanks around either part are ignored).
pub open spec fn sv_of_text(s: Seq<u8>) -> Result<Sv, Error> {
    let t = trimmed(s);
    if t.len() == 0 || constellation_of_letter(t[0]) is None {
        Err(Error::UnknownSystem)
    } else if prn_value(trimmed(t.drop_first())) is None {
        Err(Error::InvalidPrn)
    } else {
        Ok(
            Sv {
                constellation: constellation_of_letter(t[0]).unwrap(),
                prn: prn_value(trimmed(t.drop_first())).unwrap(),
            },
        )
    }
}

/// Reads a PRN digit token.
pub fn parse_prn(t: &[u8]) -> (r: Option<u8>)
    ensures
        r == prn_value(t@),
{
    if t.len() == 0 || t.len() > 19 || !digits_only(t) {
        return None;
    }
    proof {
        lemma_digits_val_bound(t@);
    }
    let v = digits_to_u64(t);
    if v <= 255 {
        Some(v as u8)
    } else {
        None
    }
}

/// Reads a fully qualified satellite identifier.
pub fn parse_sv(s: &[u8]) -> (r: Result<Sv, Error>)
    ensures
        r == sv_of_text(s@),
{
    let t = trim(s);
    if t.len() == 0 {
        return Err(Error::UnknownSystem);
    }
    let c = Constellation::from_letter(t[0]);
    match c {
        None => Err(Error::UnknownSystem),
        Some(constellation) => {
            let rest = slice_subrange(t, 1, t.len());
            proof {
                assert(rest@ =~= trimmed(s@).drop_first());
            }
            let p = trim(rest);
            match parse_prn(p) {
                None => Err(Error::InvalidPrn),
                Some(prn) => Ok(Sv { constellation, prn }),
            }
        },
    }
}

} // verus!
