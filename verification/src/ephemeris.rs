//! Decoding of one broadcast ephemeris message.
//!
//! A message is a header line (satellite identifier, epoch, three clock
//! terms) followed by orbit-data lines. The orbit lines are walked as one
//! stream of fixed 19-column tokens; a running field index, shared across
//! lines, aligns each token with the layout registry's field list, short
//! lines advancing the index by their declared number of missing tokens.

use vstd::prelude::*;
use vstd::slice::slice_subrange;
use vstd::arithmetic::div_mod::lemma_div_multiples_vanish_fancy;
use crate::constellation::Constellation;
use crate::epoch;
use crate::epoch::Epoch;
use crate::epoch::epoch_of_text;
use crate::orbits::FieldDescriptor;
use crate::orbits::OrbitItem;
use crate::orbits::OrbitLayouts;
use crate::orbits::OrbitTable;
use crate::orbits::RevisionLayout;
use crate::orbits::closest_rev;
use crate::orbits::layout_fields;
use crate::orbits::lemma_closest_has_layout;
use crate::orbits::orbit_item_of;
use crate::sv;
use crate::sv::Sv;
use crate::sv::prn_value;
use crate::sv::sv_of_text;
use crate::text::is_float_text;
use crate::text::is_float_token;
use crate::text::norm_token;
use crate::text::replace_d_with_e;
use crate::text::token_round_u32;
use crate::text::token_to_u32;
use crate::text::trim;
use crate::text::trimmed;
use crate::version::Version;
use vstd::slice::slice_to_vec;

verus! {

/// Why a message failed to decode. Only these are fatal: a malformed
/// token inside the orbit body is dropped, never reported.
#[derive(Clone, Copy, PartialEq, Eq, Structural, Debug)]
pub enum Error {
    /// The message has no header line.
    MissingData,
    /// The registry holds no layout for the constellation and revision.
    DataBaseRevisionError,
    /// A clock term of the header line does not read as a number.
    ParseFloatError,
    /// A bare PRN satellite identifier does not read as a number.
    ParseIntError,
    /// The header epoch field is malformed.
    EpochError(epoch::Error),
    /// The header satellite identifier is malformed.
    ParseSvError(sv::Error),
}

/// The byte string `spare`.
pub open spec fn spare_seq() -> Seq<u8> {
    seq![115u8, 112u8, 97u8, 114u8, 101u8]
}

/// Whether a field name marks a reserved column: it carries `spare`
/// anywhere in it.
pub open spec fn is_spare(name: Seq<u8>) -> bool {
    exists|i: int| 0 <= i && i + 5 <= name.len() && #[trigger] name.subrange(i, i + 5) == spare_seq()
}

/// Whether `name` carries `spare` anywhere in it.
pub fn contains_spare(name: &[u8]) -> (r: bool)
    ensures
        r == is_spare(name@),
{
    if name.len() < 5 {
        return false;
    }
    let mut i: usize = 0;
    while i <= name.len() - 5
        invariant
            5 <= name@.len(),
            0 <= i <= name@.len() - 4,
            forall|j: int| 0 <= j < i ==> #[trigger] name@.subrange(j, j + 5) != spare_seq(),
        decreases name@.len() - i,
    {
        if name[i] == 115 && name[i + 1] == 112 && name[i + 2] == 97 && name[i + 3] == 114
            && name[i + 4] == 101 {
            proof {
                assert(name@.subrange(i as int, i + 5) =~= spare_seq());
            }
            return true;
        }
        proof {
            let sub = name@.subrange(i as int, i + 5);
            assert(sub[0] == name@[i as int]);
            assert(sub[1] == name@[i + 1]);
            assert(sub[2] == name@[i + 2]);
            assert(sub[3] == name@[i + 3]);
            assert(sub[4] == name@[i + 4]);
            assert(sub != spare_seq());
        }
        i = i + 1;
    }
    false
}

/// What one token does to the decoded mapping: a token aligned with a
/// known, non-spare field whose text reads as a value of the field's kind
/// is stored under the field's name; every other token changes nothing.
pub open spec fn decode_step(
    m: Map<Seq<u8>, Seq<u8>>,
    fields: Seq<FieldDescriptor>,
    tok: Seq<u8>,
    idx: int,
) -> Map<Seq<u8>, Seq<u8>> {
    if 0 <= idx < fields.len() && !is_spare(fields[idx].name@) && orbit_item_of(
        fields[idx].kind@,
        tok,
    ) is Some {
        m.insert(fields[idx].name@, orbit_item_of(fields[idx].kind@, tok).unwrap())
    } else {
        m
    }
}

/// Walks one line body as fixed 19-column tokens, the last one shorter
/// when the line ends early, advancing the field index once per token.
pub open spec fn decode_body(
    m: Map<Seq<u8>, Seq<u8>>,
    fields: Seq<FieldDescriptor>,
    body: Seq<u8>,
    idx: int,
) -> Map<Seq<u8>, Seq<u8>>
    decreases body.len(),
{
    if body.len() == 0 {
        m
    } else {
        let w = if body.len() < 19 {
            body.len() as int
        } else {
            19
        };
        decode_body(decode_step(m, fields, body.take(w), idx), fields, body.skip(w), idx + 1)
    }
}

/// How far the field index moves over one line of body length `n`: one
/// per token present, plus the trailing tokens the 4-token line nominally
/// misses.
pub open spec fn line_advance(n: int) -> int {
    (n + 18) / 19 + 4 - n / 19
}

/// The line-prefix width of the format revision.
pub open spec fn prefix_len(version: Version) -> int {
    if version.major < 3 {
        3
    } else {
        4
    }
}

/// Walks all orbit lines with one running field index.
pub open spec fn decode_lines(
    m: Map<Seq<u8>, Seq<u8>>,
    fields: Seq<FieldDescriptor>,
    lines: Seq<Seq<u8>>,
    idx: int,
    prefix: int,
) -> Map<Seq<u8>, Seq<u8>>
    decreases lines.len(),
{
    if lines.len() == 0 {
        m
    } else {
        let body = lines[0].skip(prefix);
        decode_lines(
            decode_body(m, fields, body, idx),
            fields,
            lines.drop_first(),
            idx + line_advance(body.len() as int),
            prefix,
        )
    }
}

/// The mapping a whole message body decodes to, when the registry holds a
/// layout for the constellation at or below the requested revision.
pub open spec fn orbits_map(
    registry: Seq<RevisionLayout>,
    version: Version,
    c: Constellation,
    lines: Seq<Seq<u8>>,
) -> Option<Map<Seq<u8>, Seq<u8>>> {
    match closest_rev(registry, c, version) {
        None => None,
        Some(v) => match layout_fields(registry, c, v) {
            None => None,
            Some(fields) => Some(
                decode_lines(Map::empty(), fields, lines, 0, prefix_len(version)),
            ),
        },
    }
}

/// A line the walk accepts: it covers its prefix, and its body leaves the
/// nominal 4-token budget well defined.
pub open spec fn line_ok(line: Seq<u8>, prefix: int) -> bool {
    prefix <= line.len() <= prefix + 94
}

/// Decodes the orbit lines of one message against the layout registry.
///
/// Per-token failures are silently dropped: a token that does not read as
/// a value of its field's kind leaves its field out of the result and the
/// walk goes on. Only a missing registry layout is an error.
#[verifier::loop_isolation(false)]
#[verifier::rlimit(60)]
pub fn parse_orbits(
    registry: &OrbitLayouts,
    version: Version,
    constellation: Constellation,
    lines: &[Vec<u8>],
) -> (r: Result<OrbitTable, Error>)
    requires
        forall|i: int| 0 <= i < lines@.len() ==> line_ok(lines@[i]@, prefix_len(version)),
    ensures
        r is Ok <==> closest_rev(registry.entries@, constellation, version) is Some,
        r is Ok ==> r.unwrap().wf() && Some(r.unwrap()@) == orbits_map(
            registry.entries@,
            version,
            constellation,
            lines@.map_values(|l: Vec<u8>| l@),
        ),
        r is Err ==> r.unwrap_err() == Error::DataBaseRevisionError,
{
    let ghost lviews = lines@.map_values(|l: Vec<u8>| l@);
    let rev = registry.closest_revision(constellation, version);
    let v = match rev {
        None => {
            return Err(Error::DataBaseRevisionError);
        },
        Some(v) => v,
    };
    let fields: &Vec<FieldDescriptor> = match registry.layout(constellation, v) {
        Some(f) => f,
        None => {
            proof {
                lemma_closest_has_layout(registry.entries@, constellation, version);
            }
            return Err(Error::DataBaseRevisionError);
        },
    };
    let prefix: usize = if version.major < 3 {
        3
    } else {
        4
    };
    let mut table = OrbitTable::new();
    let ghost total = decode_lines(Map::empty(), fields@, lviews, 0, prefix as int);
    let mut idx: u128 = 0;
    let mut li: usize = 0;
    proof {
        assert(lviews.skip(0) =~= lviews);
    }
    while li < lines.len()
        invariant
            0 <= li <= lines@.len(),
            table.wf(),
            idx as int <= 5 * (li as int),
            decode_lines(table@, fields@, lviews.skip(li as int), idx as int, prefix as int)
                == total,
        decreases lines@.len() - li,
    {
        let line: &Vec<u8> = &lines[li];
        proof {
            assert(lviews[li as int] == line@);
            assert(line_ok(line@, prefix as int));
        }
        let n: usize = line.len();
        let body = slice_subrange(line.as_slice(), prefix, n);
        proof {
            assert(body@ =~= line@.skip(prefix as int));
        }
        let blen: usize = n - prefix;
        let ghost idx0 = idx as int;
        let ghost m0 = table@;
        let mut pos: usize = 0;
        proof {
            assert(body@.skip(0) =~= body@);
        }
        while pos < blen
            invariant
                0 <= pos <= blen,
                table.wf(),
                idx as int <= idx0 + 5,
                decode_body(table@, fields@, body@.skip(pos as int), idx as int) == decode_body(
                    m0,
                    fields@,
                    body@,
                    idx0,
                ),
                (pos % 19 == 0 && idx as int == idx0 + pos / 19) || (pos == blen && idx as int
                    == idx0 + (blen + 18) / 19),
            decreases blen - pos,
        {
            let w: usize = if blen - pos < 19 {
                blen - pos
            } else {
                19
            };
            let tok = slice_subrange(body, pos, pos + w);
            let ghost mb = table@;
            proof {
                assert(tok@ =~= body@.skip(pos as int).take(w as int));
                assert(body@.skip(pos as int).skip(w as int) =~= body@.skip(pos + w));
            }
            if idx < fields.len() as u128 {
                let fidx = idx as usize;
                let f = &fields[fidx];
                if !contains_spare(f.name.as_slice()) {
                    match OrbitItem::new(f.kind.as_slice(), tok, constellation) {
                        Some(item) => {
                            table.insert(f.name.as_slice(), item);
                        },
                        None => {},
                    }
                }
            }
            proof {
                assert(table@ == decode_step(mb, fields@, tok@, idx as int));
                assert(decode_body(mb, fields@, body@.skip(pos as int), idx as int)
                    == decode_body(table@, fields@, body@.skip(pos + w), idx as int + 1));
                // the token count the index carries
                if pos % 19 == 0 {
                    let k = pos as int / 19;
                    lemma_div_multiples_vanish_fancy(k, 0, 19);
                    assert(pos as int == 19 * k);
                    if w == 19 {
                        lemma_div_multiples_vanish_fancy(k + 1, 0, 19);
                        assert((pos + w) as int == 19 * (k + 1));
                        if pos + w == blen {
                            lemma_div_multiples_vanish_fancy(k + 1, 18, 19);
                            assert(blen as int + 18 == 19 * (k + 1) + 18);
                        }
                    } else {
                        lemma_div_multiples_vanish_fancy(k + 1, w as int - 1, 19);
                        assert(blen as int + 18 == 19 * (k + 1) + (w as int - 1));
                    }
                }
            }
            pos = pos + w;
            idx = idx + 1;
        }
        let nb: usize = 4 - blen / 19;
        proof {
            assert(body@.skip(blen as int) =~= Seq::<u8>::empty());
            assert(decode_body(table@, fields@, body@.skip(blen as int), idx as int) == table@);
            if blen == 0 {
                assert((blen as int + 18) / 19 == 0);
                assert(idx as int == idx0);
            } else {
                assert(idx as int == idx0 + (blen as int + 18) / 19) by {
                    if pos % 19 == 0 && idx as int == idx0 + pos as int / 19 {
                        let k = pos as int / 19;
                        lemma_div_multiples_vanish_fancy(k, 0, 19);
                        lemma_div_multiples_vanish_fancy(k, 18, 19);
                    }
                }
            }
            assert(idx as int + nb as int == idx0 + line_advance(blen as int));
            assert(lviews.skip(li as int).drop_first() =~= lviews.skip(li + 1));
            assert(lviews.skip(li as int)[0] == line@);
            assert(decode_lines(table@, fields@, lviews.skip(li + 1), idx as int + nb as int,
                prefix as int) == total);
        }
        idx = idx + nb as u128;
        li = li + 1;
    }
    proof {
        assert(lviews.skip(lines@.len() as int) =~= Seq::<Seq<u8>>::empty());
    }
    Ok(table)
}


/// The field name `gpsWeek`.
pub open spec fn gps_week_key() -> Seq<u8> {
    seq![103u8, 112u8, 115u8, 87u8, 101u8, 101u8, 107u8]
}

/// The field name `bdtWeek`.
pub open spec fn bdt_week_key() -> Seq<u8> {
    seq![98u8, 100u8, 116u8, 87u8, 101u8, 101u8, 107u8]
}

/// The field name `galWeek`.
pub open spec fn gal_week_key() -> Seq<u8> {
    seq![103u8, 97u8, 108u8, 87u8, 101u8, 101u8, 107u8]
}

/// The field name `sqrta`.
pub open spec fn sqrta_key() -> Seq<u8> {
    seq![115u8, 113u8, 114u8, 116u8, 97u8]
}

/// The field name `e`.
pub open spec fn ecc_key() -> Seq<u8> {
    seq![101u8]
}

/// The field name `i0`.
pub open spec fn i0_key() -> Seq<u8> {
    seq![105u8, 48u8]
}

/// The field name `omega`.
pub open spec fn omega_key() -> Seq<u8> {
    seq![111u8, 109u8, 101u8, 103u8, 97u8]
}

/// The field name `omega0`.
pub open spec fn omega0_key() -> Seq<u8> {
    seq![111u8, 109u8, 101u8, 103u8, 97u8, 48u8]
}

/// The field name `m0`.
pub open spec fn m0_key() -> Seq<u8> {
    seq![109u8, 48u8]
}

/// The field name `toe`.
pub open spec fn toe_key() -> Seq<u8> {
    seq![116u8, 111u8, 101u8]
}

/// The field name `cuc`.
pub open spec fn cuc_key() -> Seq<u8> {
    seq![99u8, 117u8, 99u8]
}

/// The field name `cus`.
pub open spec fn cus_key() -> Seq<u8> {
    seq![99u8, 117u8, 115u8]
}

/// The field name `cic`.
pub open spec fn cic_key() -> Seq<u8> {
    seq![99u8, 105u8, 99u8]
}

/// The field name `cis`.
pub open spec fn cis_key() -> Seq<u8> {
    seq![99u8, 105u8, 115u8]
}

/// The field name `crc`.
pub open spec fn crc_key() -> Seq<u8> {
    seq![99u8, 114u8, 99u8]
}

/// The field name `crs`.
pub open spec fn crs_key() -> Seq<u8> {
    seq![99u8, 114u8, 115u8]
}

/// The field name `deltaN`.
pub open spec fn delta_n_key() -> Seq<u8> {
    seq![100u8, 101u8, 108u8, 116u8, 97u8, 78u8]
}

/// The field name `idot`.
pub open spec fn idot_key() -> Seq<u8> {
    seq![105u8, 100u8, 111u8, 116u8]
}

/// The field name `omegaDot`.
pub open spec fn omega_dot_key() -> Seq<u8> {
    seq![111u8, 109u8, 101u8, 103u8, 97u8, 68u8, 111u8, 116u8]
}

/// The normalized text of one 19-column clock term, when it reads as a
/// number; clock terms, unlike orbit-body tokens, must parse.
pub open spec fn clock_token(s: Seq<u8>) -> Option<Seq<u8>> {
    if is_float_token(norm_token(s)) {
        Some(norm_token(s))
    } else {
        None
    }
}

/// How the header satellite identifier reads: under revision 1 or 2 with
/// a known single constellation it is a bare PRN; otherwise it is a fully
/// qualified system-plus-PRN token.
pub open spec fn sv_result(version: Version, constellation: Constellation, svnn: Seq<u8>) -> Result<
    Sv,
    Error,
> {
    if version.major <= 2 && constellation != Constellation::Mixed {
        match prn_value(trimmed(svnn)) {
            Some(p) => Ok(Sv { constellation, prn: p }),
            None => Err(Error::ParseIntError),
        }
    } else {
        match sv_of_text(svnn) {
            Ok(s) => Ok(s),
            Err(e) => Err(Error::ParseSvError(e)),
        }
    }
}

/// What a revision 2/3 message decodes to: epoch, satellite, the three
/// normalized clock terms, and the orbit-field mapping; or the first
/// error, in the order the header is read.
pub open spec fn parse_v2v3_spec(
    registry: Seq<RevisionLayout>,
    version: Version,
    constellation: Constellation,
    lines: Seq<Seq<u8>>,
) -> Result<(Epoch, Sv, Seq<u8>, Seq<u8>, Seq<u8>, Map<Seq<u8>, Seq<u8>>), Error> {
    if lines.len() == 0 {
        Err(Error::MissingData)
    } else {
        let line = lines[0];
        let w = prefix_len(version);
        let svnn = line.take(w);
        let date = line.subrange(w, w + 19);
        let ck1 = line.subrange(w + 19, w + 38);
        let ck2 = line.subrange(w + 38, w + 57);
        let ck3 = line.skip(w + 57);
        match epoch_of_text(trimmed(date)) {
            Err(e) => Err(Error::EpochError(e)),
            Ok(ep) => match sv_result(version, constellation, svnn) {
                Err(e) => Err(e),
                Ok(sv) => if clock_token(ck1) is None || clock_token(ck2) is None || clock_token(
                    ck3,
                ) is None {
                    Err(Error::ParseFloatError)
                } else {
                    match orbits_map(registry, version, sv.constellation, lines.drop_first()) {
                        None => Err(Error::DataBaseRevisionError),
                        Some(m) => Ok(
                            (
                                ep,
                                sv,
                                clock_token(ck1).unwrap(),
                                clock_token(ck2).unwrap(),
                                clock_token(ck3).unwrap(),
                                m,
                            ),
                        ),
                    }
                },
            },
        }
    }
}

/// What a revision 4 message decodes to. The identifier is always fully
/// qualified and is read before the epoch; the orbit layout is fixed to
/// revision 4.0.
pub open spec fn parse_v4_spec(registry: Seq<RevisionLayout>, lines: Seq<Seq<u8>>) -> Result<
    (Epoch, Sv, Seq<u8>, Seq<u8>, Seq<u8>, Map<Seq<u8>, Seq<u8>>),
    Error,
> {
    if lines.len() == 0 {
        Err(Error::MissingData)
    } else {
        let line = lines[0];
        let svnn = line.take(4);
        let date = line.subrange(4, 23);
        let ck1 = line.subrange(23, 42);
        let ck2 = line.subrange(42, 61);
        let ck3 = line.skip(61);
        match sv_of_text(svnn) {
            Err(e) => Err(Error::ParseSvError(e)),
            Ok(sv) => match epoch_of_text(trimmed(date)) {
                Err(e) => Err(Error::EpochError(e)),
                Ok(ep) => if clock_token(ck1) is None || clock_token(ck2) is None || clock_token(
                    ck3,
                ) is None {
                    Err(Error::ParseFloatError)
                } else {
                    match orbits_map(
                        registry,
                        Version { major: 4, minor: 0 },
                        sv.constellation,
                        lines.drop_first(),
                    ) {
                        None => Err(Error::DataBaseRevisionError),
                        Some(m) => Ok(
                            (
                                ep,
                                sv,
                                clock_token(ck1).unwrap(),
                                clock_token(ck2).unwrap(),
                                clock_token(ck3).unwrap(),
                                m,
                            ),
                        ),
                    }
                },
            },
        }
    }
}

/// One decoded ephemeris record: the three clock terms of its header and
/// its orbit-field mapping, every numeric value as its exact source token.
#[derive(Clone, PartialEq, Eq, Debug)]
pub struct Ephemeris {
    /// Clock bias (seconds), as broadcast.
    pub clock_bias: Vec<u8>,
    /// Clock drift (s/s), as broadcast.
    pub clock_drift: Vec<u8>,
    /// Clock drift rate (s/s^2), as broadcast.
    pub clock_drift_rate: Vec<u8>,
    /// The decoded orbit fields, keyed by field name.
    pub orbits: OrbitTable,
}

/// The Keplerian elements an ephemeris broadcasts, each as its source
/// token. `sqrta` is the broadcast square root of the semi-major axis;
/// squaring it is numeric work left to the caller.
#[derive(Clone, PartialEq, Eq, Debug)]
pub struct Kepler {
    pub sqrta: Vec<u8>,
    pub e: Vec<u8>,
    pub i_0: Vec<u8>,
    pub omega_0: Vec<u8>,
    pub m_0: Vec<u8>,
    pub omega: Vec<u8>,
    pub toe: Vec<u8>,
}

/// The second-harmonic perturbation terms, each as its source token.
#[derive(Clone, PartialEq, Eq, Debug)]
pub struct Perturbations {
    pub dn: Vec<u8>,
    pub i_dot: Vec<u8>,
    pub omega_dot: Vec<u8>,
    pub cus: Vec<u8>,
    pub cuc: Vec<u8>,
    pub cis: Vec<u8>,
    pub cic: Vec<u8>,
    pub crs: Vec<u8>,
    pub crc: Vec<u8>,
}

/// The week counter a decoded mapping yields: the first of `gpsWeek`,
/// `bdtWeek`, `galWeek` that is present, its token rounded to the nearest
/// whole number.
pub open spec fn weeks_of(m: Map<Seq<u8>, Seq<u8>>) -> Option<u32> {
    if m.contains_key(gps_week_key()) {
        Some(token_round_u32(m[gps_week_key()]))
    } else if m.contains_key(bdt_week_key()) {
        Some(token_round_u32(m[bdt_week_key()]))
    } else if m.contains_key(gal_week_key()) {
        Some(token_round_u32(m[gal_week_key()]))
    } else {
        None
    }
}

impl Ephemeris {
    /// Every stored orbit token is well formed and field names are unique.
    pub open spec fn wf(&self) -> bool {
        self.orbits.wf()
    }

    /// The three clock terms: bias, drift, drift rate.
    pub fn sv_clock(&self) -> (r: (&Vec<u8>, &Vec<u8>, &Vec<u8>))
        ensures
            r.0@ == self.clock_bias@,
            r.1@ == self.clock_drift@,
            r.2@ == self.clock_drift_rate@,
    {
        (&self.clock_bias, &self.clock_drift, &self.clock_drift_rate)
    }

    /// The stored token of one orbit field, by name.
    pub fn get_orbit_f64(&self, field: &[u8]) -> (r: Option<&OrbitItem>)
        ensures
            r is Some <==> self.orbits@.contains_key(field@),
            self.wf() && r is Some ==> r.unwrap()@ == self.orbits@[field@] && r.unwrap().wf(),
    {
        self.orbits.get(field)
    }

    /// The GNSS week counter, preferring `gpsWeek`, then `bdtWeek`, then
    /// `galWeek`, the stored token rounded to the nearest whole week.
    pub fn get_weeks(&self) -> (r: Option<u32>)
        requires
            self.wf(),
        ensures
            r == weeks_of(self.orbits@),
    {
        let gps: [u8; 7] = [103, 112, 115, 87, 101, 101, 107];
        proof {
            assert(gps@ =~= gps_week_key());
        }
        if let Some(item) = self.orbits.get(gps.as_slice()) {
            return Some(token_to_u32(item.as_text().as_slice(), true));
        }
        let bdt: [u8; 7] = [98, 100, 116, 87, 101, 101, 107];
        proof {
            assert(bdt@ =~= bdt_week_key());
        }
        if let Some(item) = self.orbits.get(bdt.as_slice()) {
            return Some(token_to_u32(item.as_text().as_slice(), true));
        }
        let gal: [u8; 7] = [103, 97, 108, 87, 101, 101, 107];
        proof {
            assert(gal@ =~= gal_week_key());
        }
        if let Some(item) = self.orbits.get(gal.as_slice()) {
            return Some(token_to_u32(item.as_text().as_slice(), true));
        }
        None
    }

    /// The Keplerian element tokens, when every one of them was decoded;
    /// one absent field yields nothing, never a partial set.
    pub fn kepler(&self) -> (r: Option<Kepler>)
        requires
            self.wf(),
        ensures
            r is Some <==> (self.orbits@.contains_key(sqrta_key()) && self.orbits@.contains_key(
                ecc_key(),
            ) && self.orbits@.contains_key(i0_key()) && self.orbits@.contains_key(omega_key())
                && self.orbits@.contains_key(omega0_key()) && self.orbits@.contains_key(m0_key())
                && self.orbits@.contains_key(toe_key())),
            r is Some ==> r.unwrap().sqrta@ == self.orbits@[sqrta_key()] && r.unwrap().e@
                == self.orbits@[ecc_key()] && r.unwrap().i_0@ == self.orbits@[i0_key()]
                && r.unwrap().omega@ == self.orbits@[omega_key()] && r.unwrap().omega_0@
                == self.orbits@[omega0_key()] && r.unwrap().m_0@ == self.orbits@[m0_key()]
                && r.unwrap().toe@ == self.orbits@[toe_key()],
    {
        let k_sqrta: [u8; 5] = [115, 113, 114, 116, 97];
        let k_e: [u8; 1] = [101];
        let k_i0: [u8; 2] = [105, 48];
        let k_omega: [u8; 5] = [111, 109, 101, 103, 97];
        let k_omega0: [u8; 6] = [111, 109, 101, 103, 97, 48];
        let k_m0: [u8; 2] = [109, 48];
        let k_toe: [u8; 3] = [116, 111, 101];
        proof {
            assert(k_sqrta@ =~= sqrta_key());
            assert(k_e@ =~= ecc_key());
            assert(k_i0@ =~= i0_key());
            assert(k_omega@ =~= omega_key());
            assert(k_omega0@ =~= omega0_key());
            assert(k_m0@ =~= m0_key());
            assert(k_toe@ =~= toe_key());
        }
        let sqrta = match self.orbits.get(k_sqrta.as_slice()) {
            Some(i) => slice_to_vec(i.as_text().as_slice()),
            None => {
                return None;
            },
        };
        let e = match self.orbits.get(k_e.as_slice()) {
            Some(i) => slice_to_vec(i.as_text().as_slice()),
            None => {
                return None;
            },
        };
        let i_0 = match self.orbits.get(k_i0.as_slice()) {
            Some(i) => slice_to_vec(i.as_text().as_slice()),
            None => {
                return None;
            },
        };
        let omega = match self.orbits.get(k_omega.as_slice()) {
            Some(i) => slice_to_vec(i.as_text().as_slice()),
            None => {
                return None;
            },
        };
        let omega_0 = match self.orbits.get(k_omega0.as_slice()) {
            Some(i) => slice_to_vec(i.as_text().as_slice()),
            None => {
                return None;
            },
        };
        let m_0 = match self.orbits.get(k_m0.as_slice()) {
            Some(i) => slice_to_vec(i.as_text().as_slice()),
            None => {
                return None;
            },
        };
        let toe = match self.orbits.get(k_toe.as_slice()) {
            Some(i) => slice_to_vec(i.as_text().as_slice()),
            None => {
                return None;
            },
        };
        Some(Kepler { sqrta, e, i_0, omega_0, m_0, omega, toe })
    }

    /// The perturbation term tokens, when every one of them was decoded;
    /// one absent field yields nothing, never a partial set.
    pub fn perturbations(&self) -> (r: Option<Perturbations>)
        requires
            self.wf(),
        ensures
            r is Some <==> (self.orbits@.contains_key(cuc_key()) && self.orbits@.contains_key(
                cus_key(),
            ) && self.orbits@.contains_key(cic_key()) && self.orbits@.contains_key(cis_key())
                && self.orbits@.contains_key(crc_key()) && self.orbits@.contains_key(crs_key())
                && self.orbits@.contains_key(delta_n_key()) && self.orbits@.contains_key(idot_key())
                && self.orbits@.contains_key(omega_dot_key())),
            r is Some ==> r.unwrap().cuc@ == self.orbits@[cuc_key()] && r.unwrap().cus@
                == self.orbits@[cus_key()] && r.unwrap().cic@ == self.orbits@[cic_key()]
                && r.unwrap().cis@ == self.orbits@[cis_key()] && r.unwrap().crc@
                == self.orbits@[crc_key()] && r.unwrap().crs@ == self.orbits@[crs_key()]
                && r.unwrap().dn@ == self.orbits@[delta_n_key()] && r.unwrap().i_dot@
                == self.orbits@[idot_key()] && r.unwrap().omega_dot@
                == self.orbits@[omega_dot_key()],
    {
        let k_cuc: [u8; 3] = [99, 117, 99];
        let k_cus: [u8; 3] = [99, 117, 115];
        let k_cic: [u8; 3] = [99, 105, 99];
        let k_cis: [u8; 3] = [99, 105, 115];
        let k_crc: [u8; 3] = [99, 114, 99];
        let k_crs: [u8; 3] = [99, 114, 115];
        let k_dn: [u8; 6] = [100, 101, 108, 116, 97, 78];
        let k_idot: [u8; 4] = [105, 100, 111, 116];
        let k_odot: [u8; 8] = [111, 109, 101, 103, 97, 68, 111, 116];
        proof {
            assert(k_cuc@ =~= cuc_key());
            assert(k_cus@ =~= cus_key());
            assert(k_cic@ =~= cic_key());
            assert(k_cis@ =~= cis_key());
            assert(k_crc@ =~= crc_key());
            assert(k_crs@ =~= crs_key());
            assert(k_dn@ =~= delta_n_key());
            assert(k_idot@ =~= idot_key());
            assert(k_odot@ =~= omega_dot_key());
        }
        let cuc = match self.orbits.get(k_cuc.as_slice()) {
            Some(i) => slice_to_vec(i.as_text().as_slice()),
            None => {
                return None;
            },
        };
        let cus = match self.orbits.get(k_cus.as_slice()) {
            Some(i) => slice_to_vec(i.as_text().as_slice()),
            None => {
                return None;
            },
        };
        let cic = match self.orbits.get(k_cic.as_slice()) {
            Some(i) => slice_to_vec(i.as_text().as_slice()),
            None => {
                return None;
            },
        };
        let cis = match self.orbits.get(k_cis.as_slice()) {
            Some(i) => slice_to_vec(i.as_text().as_slice()),
            None => {
                return None;
            },
        };
        let crc = match self.orbits.get(k_crc.as_slice()) {
            Some(i) => slice_to_vec(i.as_text().as_slice()),
            None => {
                return None;
            },
        };
        let crs = match self.orbits.get(k_crs.as_slice()) {
            Some(i) => slice_to_vec(i.as_text().as_slice()),
            None => {
                return None;
            },
        };
        let dn = match self.orbits.get(k_dn.as_slice()) {
            Some(i) => slice_to_vec(i.as_text().as_slice()),
            None => {
                return None;
            },
        };
        let i_dot = match self.orbits.get(k_idot.as_slice()) {
            Some(i) => slice_to_vec(i.as_text().as_slice()),
            None => {
                return None;
            },
        };
        let omega_dot = match self.orbits.get(k_odot.as_slice()) {
            Some(i) => slice_to_vec(i.as_text().as_slice()),
            None => {
                return None;
            },
        };
        Some(Perturbations { dn, i_dot, omega_dot, cus, cuc, cis, cic, crs, crc })
    }

    /// Decodes a revision 2 or 3 message: the header line, then the orbit
    /// lines against the layout registry.
    pub fn parse_v2v3(
        registry: &OrbitLayouts,
        version: Version,
        constellation: Constellation,
        lines: &[Vec<u8>],
    ) -> (r: Result<(Epoch, Sv, Ephemeris), Error>)
        requires
            1 <= version.major <= 3,
            lines@.len() > 0 ==> lines@[0]@.len() >= prefix_len(version) + 57,
            forall|i: int| 1 <= i < lines@.len() ==> line_ok(lines@[i]@, prefix_len(version)),
        ensures
            ({
                let spec_r = parse_v2v3_spec(
                    registry.entries@,
                    version,
                    constellation,
                    lines@.map_values(|l: Vec<u8>| l@),
                );
                &&& r is Ok <==> spec_r is Ok
                &&& r is Err ==> r.unwrap_err() == spec_r->Err_0
                &&& r is Ok ==> {
                    let (ep, sv, eph) = r.unwrap();
                    let (sep, ssv, cb, cd, cdr, m) = spec_r.unwrap();
                    &&& ep == sep
                    &&& sv == ssv
                    &&& eph.clock_bias@ == cb
                    &&& eph.clock_drift@ == cd
                    &&& eph.clock_drift_rate@ == cdr
                    &&& eph.orbits@ == m
                    &&& eph.wf()
                }
            }),
    {
        let ghost lviews = lines@.map_values(|l: Vec<u8>| l@);
        if lines.len() == 0 {
            return Err(Error::MissingData);
        }
        let line: &[u8] = lines[0].as_slice();
        proof {
            assert(lviews[0] == line@);
        }
        let w: usize = if version.major < 3 {
            3
        } else {
            4
        };
        let svnn = slice_subrange(line, 0, w);
        let date = slice_subrange(line, w, w + 19);
        let ck1 = slice_subrange(line, w + 19, w + 38);
        let ck2 = slice_subrange(line, w + 38, w + 57);
        let ck3 = slice_subrange(line, w + 57, line.len());
        proof {
            assert(svnn@ =~= lviews[0].take(w as int));
            assert(date@ =~= lviews[0].subrange(w as int, w + 19));
            assert(ck1@ =~= lviews[0].subrange(w + 19, w + 38));
            assert(ck2@ =~= lviews[0].subrange(w + 38, w + 57));
            assert(ck3@ =~= lviews[0].skip(w + 57));
        }
        let ep = match crate::epoch::parse_epoch(trim(date)) {
            Ok(ep) => ep,
            Err(e) => {
                return Err(Error::EpochError(e));
            },
        };
        let sv: Sv;
        if version.major <= 2 && constellation != Constellation::Mixed {
            match crate::sv::parse_prn(trim(svnn)) {
                Some(p) => {
                    sv = Sv { constellation, prn: p };
                },
                None => {
                    return Err(Error::ParseIntError);
                },
            }
        } else {
            match crate::sv::parse_sv(svnn) {
                Ok(s) => {
                    sv = s;
                },
                Err(e) => {
                    return Err(Error::ParseSvError(e));
                },
            }
        }
        let cb = replace_d_with_e(trim(ck1));
        if !is_float_text(cb.as_slice()) {
            return Err(Error::ParseFloatError);
        }
        let cd = replace_d_with_e(trim(ck2));
        if !is_float_text(cd.as_slice()) {
            return Err(Error::ParseFloatError);
        }
        let cdr = replace_d_with_e(trim(ck3));
        if !is_float_text(cdr.as_slice()) {
            return Err(Error::ParseFloatError);
        }
        let rest = slice_subrange(lines, 1, lines.len());
        proof {
            assert(rest@.map_values(|l: Vec<u8>| l@) =~= lviews.drop_first());
        }
        let orbits = match parse_orbits(registry, version, sv.constellation, rest) {
            Ok(t) => t,
            Err(_) => {
                return Err(Error::DataBaseRevisionError);
            },
        };
        Ok(
            (
                ep,
                sv,
                Ephemeris {
                    clock_bias: cb,
                    clock_drift: cd,
                    clock_drift_rate: cdr,
                    orbits,
                },
            ),
        )
    }

    /// Decodes a revision 4 message: the identifier is always fully
    /// qualified, and the orbit layout is fixed to revision 4.0.
    pub fn parse_v4(registry: &OrbitLayouts, lines: &[Vec<u8>]) -> (r: Result<
        (Epoch, Sv, Ephemeris),
        Error,
    >)
        requires
            lines@.len() > 0 ==> lines@[0]@.len() >= 61,
            forall|i: int| 1 <= i < lines@.len() ==> line_ok(lines@[i]@, 4),
        ensures
            ({
                let spec_r = parse_v4_spec(registry.entries@, lines@.map_values(|l: Vec<u8>| l@));
                &&& r is Ok <==> spec_r is Ok
                &&& r is Err ==> r.unwrap_err() == spec_r->Err_0
                &&& r is Ok ==> {
                    let (ep, sv, eph) = r.unwrap();
                    let (sep, ssv, cb, cd, cdr, m) = spec_r.unwrap();
                    &&& ep == sep
                    &&& sv == ssv
                    &&& eph.clock_bias@ == cb
                    &&& eph.clock_drift@ == cd
                    &&& eph.clock_drift_rate@ == cdr
                    &&& eph.orbits@ == m
                    &&& eph.wf()
                }
            }),
    {
        let ghost lviews = lines@.map_values(|l: Vec<u8>| l@);
        if lines.len() == 0 {
            return Err(Error::MissingData);
        }
        let line: &[u8] = lines[0].as_slice();
        proof {
            assert(lviews[0] == line@);
        }
        let svnn = slice_subrange(line, 0, 4);
        let date = slice_subrange(line, 4, 23);
        let ck1 = slice_subrange(line, 23, 42);
        let ck2 = slice_subrange(line, 42, 61);
        let ck3 = slice_subrange(line, 61, line.len());
        proof {
            assert(svnn@ =~= lviews[0].take(4));
            assert(date@ =~= lviews[0].subrange(4, 23));
            assert(ck1@ =~= lviews[0].subrange(23, 42));
            assert(ck2@ =~= lviews[0].subrange(42, 61));
            assert(ck3@ =~= lviews[0].skip(61));
        }
        let sv = match crate::sv::parse_sv(svnn) {
            Ok(s) => s,
            Err(e) => {
                return Err(Error::ParseSvError(e));
            },
        };
        let ep = match crate::epoch::parse_epoch(trim(date)) {
            Ok(ep) => ep,
            Err(e) => {
                return Err(Error::EpochError(e));
            },
        };
        let cb = replace_d_with_e(trim(ck1));
        if !is_float_text(cb.as_slice()) {
            return Err(Error::ParseFloatError);
        }
        let cd = replace_d_with_e(trim(ck2));
        if !is_float_text(cd.as_slice()) {
            return Err(Error::ParseFloatError);
        }
        let cdr = replace_d_with_e(trim(ck3));
        if !is_float_text(cdr.as_slice()) {
            return Err(Error::ParseFloatError);
        }
        let rest = slice_subrange(lines, 1, lines.len());
        proof {
            assert(rest@.map_values(|l: Vec<u8>| l@) =~= lviews.drop_first());
        }
        let orbits = match parse_orbits(registry, Version { major: 4, minor: 0 }, sv.constellation, rest) {
            Ok(t) => t,
            Err(_) => {
                return Err(Error::DataBaseRevisionError);
            },
        };
        Ok(
            (
                ep,
                sv,
                Ephemeris {
                    clock_bias: cb,
                    clock_drift: cd,
                    clock_drift_rate: cdr,
                    orbits,
                },
            ),
        )
    }
}


/// The token a body presents at its `j`-th position, counting fixed
/// 19-column tokens from the front.
pub open spec fn body_token_at(body: Seq<u8>, j: int) -> Option<Seq<u8>>
    decreases body.len(),
{
    if body.len() == 0 {
        None
    } else {
        let w = if body.len() < 19 {
            body.len() as int
        } else {
            19
        };
        if j == 0 {
            Some(body.take(w))
        } else {
            body_token_at(body.skip(w), j - 1)
        }
    }
}

/// The token the whole orbit-line stream presents at field index `j`:
/// counting through each line's tokens and the trailing indices a short
/// line declares missing.
pub open spec fn stream_token_at(lines: Seq<Seq<u8>>, prefix: int, j: int) -> Option<Seq<u8>>
    decreases lines.len(),
{
    if lines.len() == 0 || j < 0 {
        None
    } else {
        let body = lines[0].skip(prefix);
        let adv = line_advance(body.len() as int);
        if j < adv {
            body_token_at(body, j)
        } else {
            stream_token_at(lines.drop_first(), prefix, j - adv)
        }
    }
}

/// A key no remaining field carries keeps its value across a body walk.
proof fn lemma_body_preserves(
    m: Map<Seq<u8>, Seq<u8>>,
    fields: Seq<FieldDescriptor>,
    body: Seq<u8>,
    idx: int,
    k: Seq<u8>,
)
    requires
        m.contains_key(k),
        forall|t: int| idx <= t < fields.len() ==> fields[t].name@ != k,
    ensures
        decode_body(m, fields, body, idx).contains_key(k),
        decode_body(m, fields, body, idx)[k] == m[k],
    decreases body.len(),
{
    if body.len() > 0 {
        let w = if body.len() < 19 {
            body.len() as int
        } else {
            19
        };
        let m2 = decode_step(m, fields, body.take(w), idx);
        lemma_body_preserves(m2, fields, body.skip(w), idx + 1, k);
    }
}

/// A key no field at or past `idx` carries keeps its value across the
/// whole stream walk.
proof fn lemma_lines_preserves(
    m: Map<Seq<u8>, Seq<u8>>,
    fields: Seq<FieldDescriptor>,
    lines: Seq<Seq<u8>>,
    idx: int,
    prefix: int,
    k: Seq<u8>,
)
    requires
        m.contains_key(k),
        forall|t: int| idx <= t < fields.len() ==> fields[t].name@ != k,
    ensures
        decode_lines(m, fields, lines, idx, prefix).contains_key(k),
        decode_lines(m, fields, lines, idx, prefix)[k] == m[k],
    decreases lines.len(),
{
    if lines.len() > 0 {
        let body = lines[0].skip(prefix);
        let adv = line_advance(body.len() as int);
        lemma_body_preserves(m, fields, body, idx, k);
        assert(adv >= 0) by {
            assert(body.len() >= 0);
            assert((body.len() as int + 18) / 19 >= body.len() as int / 19) by {
                vstd::arithmetic::div_mod::lemma_div_is_ordered(
                    body.len() as int,
                    body.len() as int + 18,
                    19,
                );
            }
        }
        lemma_lines_preserves(
            decode_body(m, fields, body, idx),
            fields,
            lines.drop_first(),
            idx + adv,
            prefix,
            k,
        );
    }
}

/// Within one body: the token at position `j` lands its value in the map.
proof fn lemma_body_round_trip(
    m: Map<Seq<u8>, Seq<u8>>,
    fields: Seq<FieldDescriptor>,
    body: Seq<u8>,
    idx: int,
    j: int,
)
    requires
        forall|a: int, b: int|
            0 <= a < b < fields.len() ==> (#[trigger] fields[a].name)@ != (
            #[trigger] fields[b].name)@,
        0 <= idx,
        j >= 0,
        idx + j < fields.len(),
        !is_spare(fields[idx + j].name@),
        body_token_at(body, j) is Some,
        orbit_item_of(fields[idx + j].kind@, body_token_at(body, j).unwrap()) is Some,
    ensures
        decode_body(m, fields, body, idx).contains_key(fields[idx + j].name@),
        decode_body(m, fields, body, idx)[fields[idx + j].name@] == orbit_item_of(
            fields[idx + j].kind@,
            body_token_at(body, j).unwrap(),
        ).unwrap(),
    decreases body.len(),
{
    let w = if body.len() < 19 {
        body.len() as int
    } else {
        19
    };
    let m2 = decode_step(m, fields, body.take(w), idx);
    if j == 0 {
        assert(m2 == m.insert(
            fields[idx].name@,
            orbit_item_of(fields[idx].kind@, body.take(w)).unwrap(),
        ));
        lemma_body_preserves(m2, fields, body.skip(w), idx + 1, fields[idx].name@);
    } else {
        lemma_body_round_trip(m2, fields, body.skip(w), idx + 1, j - 1);
    }
}

/// Decoding stores every well-formed, non-spare token under its field
/// name: the field index walk and the map agree, position by position.
proof fn lemma_lines_round_trip(
    m: Map<Seq<u8>, Seq<u8>>,
    fields: Seq<FieldDescriptor>,
    lines: Seq<Seq<u8>>,
    idx: int,
    prefix: int,
    j: int,
)
    requires
        forall|a: int, b: int|
            0 <= a < b < fields.len() ==> (#[trigger] fields[a].name)@ != (
            #[trigger] fields[b].name)@,
        0 <= idx,
        j >= 0,
        idx + j < fields.len(),
        !is_spare(fields[idx + j].name@),
        stream_token_at(lines, prefix, j) is Some,
        orbit_item_of(fields[idx + j].kind@, stream_token_at(lines, prefix, j).unwrap()) is Some,
    ensures
        decode_lines(m, fields, lines, idx, prefix).contains_key(fields[idx + j].name@),
        decode_lines(m, fields, lines, idx, prefix)[fields[idx + j].name@] == orbit_item_of(
            fields[idx + j].kind@,
            stream_token_at(lines, prefix, j).unwrap(),
        ).unwrap(),
    decreases lines.len(),
{
    let body = lines[0].skip(prefix);
    let adv = line_advance(body.len() as int);
    if j < adv {
        lemma_body_round_trip(m, fields, body, idx, j);
        lemma_lines_preserves(
            decode_body(m, fields, body, idx),
            fields,
            lines.drop_first(),
            idx + adv,
            prefix,
            fields[idx + j].name@,
        );
    } else {
        lemma_lines_round_trip(
            decode_body(m, fields, body, idx),
            fields,
            lines.drop_first(),
            idx + adv,
            prefix,
            j - adv,
        );
    }
}

/// Decoding well-formed orbit lines and re-querying a field by name
/// returns the exact token written for it, trimmed and with its exponent
/// marker normalized: for every layout with distinct field names, every
/// field index whose stream token is present, well formed and not spare
/// is in the decoded mapping under its name, bound to that token's
/// normalized text.
pub proof fn lemma_field_round_trip(
    fields: Seq<FieldDescriptor>,
    lines: Seq<Seq<u8>>,
    prefix: int,
    j: int,
)
    requires
        forall|a: int, b: int|
            0 <= a < b < fields.len() ==> (#[trigger] fields[a].name)@ != (
            #[trigger] fields[b].name)@,
        0 <= j < fields.len(),
        !is_spare(fields[j].name@),
        stream_token_at(lines, prefix, j) is Some,
        orbit_item_of(fields[j].kind@, stream_token_at(lines, prefix, j).unwrap()) is Some,
    ensures
        decode_lines(Map::empty(), fields, lines, 0, prefix).contains_key(fields[j].name@),
        decode_lines(Map::empty(), fields, lines, 0, prefix)[fields[j].name@] == orbit_item_of(
            fields[j].kind@,
            stream_token_at(lines, prefix, j).unwrap(),
        ).unwrap(),
{
    lemma_lines_round_trip(Map::empty(), fields, lines, 0, prefix, j);
}

/// For every layout the registry yields (its field names distinct),
/// decoding a message and re-querying any non-spare field whose stream
/// token is present and well formed returns exactly that token's
/// normalized text.
pub proof fn lemma_registry_round_trip(
    registry: Seq<RevisionLayout>,
    version: Version,
    constellation: Constellation,
    lines: Seq<Seq<u8>>,
    j: int,
)
    requires
        closest_rev(registry, constellation, version) is Some,
        ({
            let fields = layout_fields(
                registry,
                constellation,
                closest_rev(registry, constellation, version).unwrap(),
            ).unwrap();
            &&& forall|a: int, b: int|
                0 <= a < b < fields.len() ==> (#[trigger] fields[a].name)@ != (
                #[trigger] fields[b].name)@
            &&& 0 <= j < fields.len()
            &&& !is_spare(fields[j].name@)
            &&& stream_token_at(lines, prefix_len(version), j) is Some
            &&& orbit_item_of(
                fields[j].kind@,
                stream_token_at(lines, prefix_len(version), j).unwrap(),
            ) is Some
        }),
    ensures
        ({
            let fields = layout_fields(
                registry,
                constellation,
                closest_rev(registry, constellation, version).unwrap(),
            ).unwrap();
            let m = orbits_map(registry, version, constellation, lines).unwrap();
            &&& orbits_map(registry, version, constellation, lines) is Some
            &&& m.contains_key(fields[j].name@)
            &&& m[fields[j].name@] == orbit_item_of(
                fields[j].kind@,
                stream_token_at(lines, prefix_len(version), j).unwrap(),
            ).unwrap()
        }),
{
    lemma_closest_has_layout(registry, constellation, version);
    let fields = layout_fields(
        registry,
        constellation,
        closest_rev(registry, constellation, version).unwrap(),
    ).unwrap();
    lemma_field_round_trip(fields, lines, prefix_len(version), j);
}

/// A key that marks a spare field never enters a body walk.
proof fn lemma_body_no_spare(
    m: Map<Seq<u8>, Seq<u8>>,
    fields: Seq<FieldDescriptor>,
    body: Seq<u8>,
    idx: int,
    k: Seq<u8>,
)
    requires
        is_spare(k),
        !m.contains_key(k),
    ensures
        !decode_body(m, fields, body, idx).contains_key(k),
    decreases body.len(),
{
    if body.len() > 0 {
        let w = if body.len() < 19 {
            body.len() as int
        } else {
            19
        };
        lemma_body_no_spare(decode_step(m, fields, body.take(w), idx), fields, body.skip(w), idx + 1, k);
    }
}

/// A key that marks a spare field never enters a stream walk.
proof fn lemma_lines_no_spare(
    m: Map<Seq<u8>, Seq<u8>>,
    fields: Seq<FieldDescriptor>,
    lines: Seq<Seq<u8>>,
    idx: int,
    prefix: int,
    k: Seq<u8>,
)
    requires
        is_spare(k),
        !m.contains_key(k),
    ensures
        !decode_lines(m, fields, lines, idx, prefix).contains_key(k),
    decreases lines.len(),
{
    if lines.len() > 0 {
        let body = lines[0].skip(prefix);
        lemma_body_no_spare(m, fields, body, idx, k);
        lemma_lines_no_spare(
            decode_body(m, fields, body, idx),
            fields,
            lines.drop_first(),
            idx + line_advance(body.len() as int),
            prefix,
            k,
        );
    }
}

/// Spare fields never appear as keys in a decoded mapping, for any
/// registry, revision, constellation and message text.
pub proof fn lemma_no_spare_keys(
    registry: Seq<RevisionLayout>,
    version: Version,
    constellation: Constellation,
    lines: Seq<Seq<u8>>,
)
    ensures
        orbits_map(registry, version, constellation, lines) is Some ==> forall|k: Seq<u8>|
            is_spare(k) ==> !orbits_map(registry, version, constellation, lines).unwrap()
                .contains_key(k),
{
    if orbits_map(registry, version, constellation, lines) is Some {
        let v = closest_rev(registry, constellation, version).unwrap();
        let fields = layout_fields(registry, constellation, v).unwrap();
        assert forall|k: Seq<u8>| is_spare(k) implies !orbits_map(
            registry,
            version,
            constellation,
            lines,
        ).unwrap().contains_key(k) by {
            lemma_lines_no_spare(
                Map::empty(),
                fields,
                lines,
                0,
                prefix_len(version),
                k,
            );
        }
    }
}

/// How a decoded record relates to what its message text denotes.
pub open spec fn decodes_to(
    r: (Epoch, Sv, Ephemeris),
    s: (Epoch, Sv, Seq<u8>, Seq<u8>, Seq<u8>, Map<Seq<u8>, Seq<u8>>),
) -> bool {
    &&& r.0 == s.0
    &&& r.1 == s.1
    &&& r.2.clock_bias@ == s.2
    &&& r.2.clock_drift@ == s.3
    &&& r.2.clock_drift_rate@ == s.4
    &&& r.2.orbits@ == s.5
}

/// Decoding a revision 4 message is a function of the message text
/// alone: two records decoded from one and the same input are equal,
/// field for field.
pub proof fn lemma_decode_deterministic_v4(
    registry: Seq<RevisionLayout>,
    lines: Seq<Seq<u8>>,
    a: (Epoch, Sv, Ephemeris),
    b: (Epoch, Sv, Ephemeris),
)
    requires
        parse_v4_spec(registry, lines) is Ok,
        decodes_to(a, parse_v4_spec(registry, lines)->Ok_0),
        decodes_to(b, parse_v4_spec(registry, lines)->Ok_0),
    ensures
        a.0 == b.0,
        a.1 == b.1,
        a.2.clock_bias@ == b.2.clock_bias@,
        a.2.clock_drift@ == b.2.clock_drift@,
        a.2.clock_drift_rate@ == b.2.clock_drift_rate@,
        a.2.orbits@ == b.2.orbits@,
{
}

/// Decoding is a function of the message text alone: two records decoded
/// from one and the same input are equal, field for field.
pub proof fn lemma_decode_deterministic(
    registry: Seq<RevisionLayout>,
    version: Version,
    constellation: Constellation,
    lines: Seq<Seq<u8>>,
    a: (Epoch, Sv, Ephemeris),
    b: (Epoch, Sv, Ephemeris),
)
    requires
        parse_v2v3_spec(registry, version, constellation, lines) is Ok,
        decodes_to(a, parse_v2v3_spec(registry, version, constellation, lines)->Ok_0),
        decodes_to(b, parse_v2v3_spec(registry, version, constellation, lines)->Ok_0),
    ensures
        a.0 == b.0,
        a.1 == b.1,
        a.2.clock_bias@ == b.2.clock_bias@,
        a.2.clock_drift@ == b.2.clock_drift@,
        a.2.clock_drift_rate@ == b.2.clock_drift_rate@,
        a.2.orbits@ == b.2.orbits@,
{
}

} // verus!


