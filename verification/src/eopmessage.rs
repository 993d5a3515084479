//! Earth-orientation navigation messages.
//!
//! An EOP message is three lines: pole coordinates and their rates on the
//! first two, UT1 offsets and the transmission time on the third. Unlike
//! ephemeris clock terms, a malformed component is not an error: it reads
//! as zero.

use vstd::prelude::*;
use vstd::slice::slice_subrange;
use vstd::slice::slice_to_vec;
use crate::epoch;
use crate::epoch::Epoch;
use crate::epoch::epoch_of_text;
use crate::text::is_float_text;
use crate::text::is_float_token;
use crate::text::token_trunc_u32;
use crate::text::trim;
use crate::text::trimmed;

verus! {

/// Why an EOP message failed to decode.
#[derive(Clone, Copy, PartialEq, Eq, Structural, Debug)]
pub enum Error {
    /// The message epoch is malformed.
    EpochError(epoch::Error),
    /// The message has no first line.
    EopMissing1stLine,
    /// The message has no second line.
    EopMissing2ndLine,
    /// The message has no third line.
    EopMissing3rdLine,
}

/// What one 19-column component reads as: its trimmed token when that is
/// a well-formed number, and the token `0` (the default value) otherwise.
pub open spec fn eop_component(s: Seq<u8>) -> Seq<u8> {
    if is_float_token(trimmed(s)) {
        trimmed(s)
    } else {
        seq![48u8]
    }
}

/// The transmission time a third-line token denotes: its value truncated
/// toward zero, or zero when the token is malformed or too long for a
/// numeric field.
pub open spec fn tm_value(s: Seq<u8>) -> u32 {
    if is_float_token(trimmed(s)) && trimmed(s).len() <= 19 {
        token_trunc_u32(trimmed(s))
    } else {
        0u32
    }
}

/// An Earth-orientation message, each component as its source token.
#[derive(PartialEq, Eq, Debug)]
pub struct EopMessage {
    /// Pole x coordinate and its first and second derivative
    /// (arc-sec, arc-sec/day, arc-sec/day^2).
    pub x: (Vec<u8>, Vec<u8>, Vec<u8>),
    /// Pole y coordinate and its first and second derivative.
    pub y: (Vec<u8>, Vec<u8>, Vec<u8>),
    /// Transmission time, in whole seconds of the GNSS week.
    pub t_tm: u32,
    /// Delta UT1 and its first and second derivative
    /// (sec, sec/day, sec/day^2).
    pub delta_ut1: (Vec<u8>, Vec<u8>, Vec<u8>),
}

/// Reads one component token.
fn component(s: &[u8]) -> (r: Vec<u8>)
    ensures
        r@ == eop_component(s@),
{
    let t = trim(s);
    if is_float_text(t) {
        slice_to_vec(t)
    } else {
        let mut v: Vec<u8> = Vec::new();
        v.push(48);
        proof {
            assert(v@ =~= seq![48u8]);
        }
        v
    }
}

impl EopMessage {
    /// Decodes one EOP message from its three lines.
    pub fn parse(lines: &[Vec<u8>]) -> (r: Result<(Epoch, EopMessage), Error>)
        requires
            forall|i: int| 0 <= i < lines@.len() && i < 3 ==> (#[trigger] lines@[i])@.len() >= 61,
        ensures
            lines@.len() == 0 ==> r == Result::<(Epoch, EopMessage), Error>::Err(
                Error::EopMissing1stLine,
            ),
            lines@.len() == 1 ==> r == Result::<(Epoch, EopMessage), Error>::Err(
                Error::EopMissing2ndLine,
            ),
            lines@.len() == 2 ==> r == Result::<(Epoch, EopMessage), Error>::Err(
                Error::EopMissing3rdLine,
            ),
            lines@.len() >= 3 ==> match epoch_of_text(trimmed(lines@[0]@.take(23))) {
                Err(e) => r == Result::<(Epoch, EopMessage), Error>::Err(Error::EpochError(e)),
                Ok(ep) => {
                    &&& r is Ok
                    &&& r.unwrap().0 == ep
                    &&& r.unwrap().1.x.0@ == eop_component(lines@[0]@.subrange(23, 42))
                    &&& r.unwrap().1.x.1@ == eop_component(lines@[0]@.subrange(42, 61))
                    &&& r.unwrap().1.x.2@ == eop_component(lines@[0]@.skip(61))
                    &&& r.unwrap().1.y.0@ == eop_component(lines@[1]@.subrange(23, 42))
                    &&& r.unwrap().1.y.1@ == eop_component(lines@[1]@.subrange(42, 61))
                    &&& r.unwrap().1.y.2@ == eop_component(lines@[1]@.skip(61))
                    &&& r.unwrap().1.delta_ut1.0@ == eop_component(lines@[2]@.subrange(23, 42))
                    &&& r.unwrap().1.delta_ut1.1@ == eop_component(lines@[2]@.subrange(42, 61))
                    &&& r.unwrap().1.delta_ut1.2@ == eop_component(lines@[2]@.skip(61))
                    &&& r.unwrap().1.t_tm == tm_value(lines@[2]@.take(23))
                },
            },
    {
        if lines.len() == 0 {
            return Err(Error::EopMissing1stLine);
        }
        if lines.len() == 1 {
            return Err(Error::EopMissing2ndLine);
        }
        if lines.len() == 2 {
            return Err(Error::EopMissing3rdLine);
        }
        let l0: &[u8] = lines[0].as_slice();
        let l1: &[u8] = lines[1].as_slice();
        let l2: &[u8] = lines[2].as_slice();
        let date = slice_subrange(l0, 0, 23);
        proof {
            assert(date@ =~= lines@[0]@.take(23));
        }
        let ep = match crate::epoch::parse_epoch(trim(date)) {
            Ok(ep) => ep,
            Err(e) => {
                return Err(Error::EpochError(e));
            },
        };
        let x = (
            component(slice_subrange(l0, 23, 42)),
            component(slice_subrange(l0, 42, 61)),
            component(slice_subrange(l0, 61, l0.len())),
        );
        let y = (
            component(slice_subrange(l1, 23, 42)),
            component(slice_subrange(l1, 42, 61)),
            component(slice_subrange(l1, 61, l1.len())),
        );
        let delta_ut1 = (
            component(slice_subrange(l2, 23, 42)),
            component(slice_subrange(l2, 42, 61)),
            component(slice_subrange(l2, 61, l2.len())),
        );
        let tm_field = trim(slice_subrange(l2, 0, 23));
        let t_tm: u32 = if tm_field.len() <= 19 && is_float_text(tm_field) {
            crate::text::token_to_u32(tm_field, false)
        } else {
            0
        };
        proof {
            assert(lines@[0]@.skip(61) =~= l0@.subrange(61, l0@.len() as int));
            assert(lines@[1]@.skip(61) =~= l1@.subrange(61, l1@.len() as int));
            assert(lines@[2]@.skip(61) =~= l2@.subrange(61, l2@.len() as int));
            assert(lines@[2]@.take(23) =~= l2@.subrange(0, 23));
        }
        Ok((ep, EopMessage { x, y, t_tm, delta_ut1 }))
    }
}

} // verus!
