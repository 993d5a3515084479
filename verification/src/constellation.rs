//! GNSS constellations.

use vstd::prelude::*;

verus! {

/// The GNSS constellation a message belongs to. `Mixed` stands for a file
/// context that carries several constellations at once.
#[derive(Clone, Copy, PartialEq, Eq, Structural, Debug)]
pub enum Constellation {
    Gps,
    Glonass,
    Galileo,
    BeiDou,
    Qzss,
    Irnss,
    Sbas,
    Mixed,
}

/// The constellation named by a satellite-identifier system letter.
pub open spec fn constellation_of_letter(b: u8) -> Option<Constellation> {
    if b == 71 {
        Some(Constellation::Gps)
    } else if b == 82 {
        Some(Constellation::Glonass)
    } else if b == 69 {
        Some(Constellation::Galileo)
    } else if b == 67 {
        Some(Constellation::BeiDou)
    } else if b == 74 {
        Some(Constellation::Qzss)
    } else if b == 73 {
        Some(Constellation::Irnss)
    } else if b == 83 {
        Some(Constellation::Sbas)
    } else {
        None
    }
}

impl Constellation {
    /// Reads a system letter (`G`, `R`, `E`, `C`, `J`, `I`, `S`).
    pub fn from_letter(b: u8) -> (r: Option<Constellation>)
        ensures
            r == constellation_of_letter(b),
    {
        if b == 71 {
            Some(Constellation::Gps)
        } else if b == 82 {
            Some(Constellation::Glonass)
        } else if b == 69 {
            Some(Constellation::Galileo)
        } else if b == 67 {
            Some(Constellation::BeiDou)
        } else if b == 74 {
            Some(Constellation::Qzss)
        } else if b == 73 {
            Some(Constellation::Irnss)
        } else if b == 83 {
            Some(Constellation::Sbas)
        } else {
            None
        }
    }
}

} // verus!
