use rinex::constellation::Constellation;
use rinex::ephemeris::Ephemeris;
use rinex::orbits::FieldDescriptor;
use rinex::orbits::OrbitItem;
use rinex::orbits::OrbitLayouts;
use rinex::orbits::OrbitTable;
use rinex::orbits::RevisionLayout;
use rinex::version::Version;

fn descriptors(names: &[&str]) -> Vec<FieldDescriptor> {
    names
        .iter()
        .map(|n| FieldDescriptor { name: n.as_bytes().to_vec(), kind: b"f64".to_vec() })
        .collect()
}

fn registry(constellation: Constellation, major: u8, minor: u8, names: &[&str]) -> OrbitLayouts {
    OrbitLayouts {
        entries: vec![RevisionLayout {
            constellation,
            version: Version::new(major, minor),
            fields: descriptors(names),
        }],
    }
}

fn gal_registry() -> OrbitLayouts {
    registry(
        Constellation::Galileo,
        3,
        0,
        &[
            "iodnav", "crs", "deltaN", "m0", "cuc", "e", "cus", "sqrta", "toe", "cic", "omega0",
            "cis", "i0", "crc", "omega", "omegaDot", "idot", "dataSrc", "galWeek", "spare", "sisa",
            "health", "bgdE5aE1", "bgdE5bE1", "t_tm",
        ],
    )
}

fn bds_registry() -> OrbitLayouts {
    registry(
        Constellation::BeiDou,
        3,
        0,
        &[
            "aode", "crs", "deltaN", "m0", "cuc", "e", "cus", "sqrta", "toe", "cic", "omega0",
            "cis", "i0", "crc", "omega", "omegaDot", "idot", "spare", "bdtWeek", "spare",
            "svAccuracy", "satH1", "tgd1b1b3", "tgd2b2b3", "t_tm", "aodc", "spare", "spare",
        ],
    )
}

fn to_lines(content: &str) -> Vec<Vec<u8>> {
    content.lines().map(|l| l.as_bytes().to_vec()).collect()
}

fn field_f64(e: &Ephemeris, name: &str) -> Option<f64> {
    e.get_orbit_f64(name.as_bytes())
        .map(|i| std::str::from_utf8(i.as_text()).unwrap().parse::<f64>().unwrap())
}

fn wrap(orbits: OrbitTable) -> Ephemeris {
    Ephemeris {
        clock_bias: b"0".to_vec(),
        clock_drift: b"0".to_vec(),
        clock_drift_rate: b"0".to_vec(),
        orbits,
    }
}

const GAL_CONTENT: &str = "     7.500000000000e+01 1.478125000000e+01 2.945479833915e-09-3.955466341850e-01
     8.065253496170e-07 3.683507675305e-04-3.911554813385e-07 5.440603218079e+03
     3.522000000000e+05-6.519258022308e-08 2.295381450845e+00 7.450580596924e-09
     9.883726443393e-01 3.616875000000e+02 2.551413130998e-01-5.907746081337e-09
     1.839362331110e-10 2.580000000000e+02 2.111000000000e+03
     3.120000000000e+00 0.000000000000e+00-1.303851604462e-08 0.000000000000e+00
     3.555400000000e+05";

#[test]
fn gal_orbit() {
    let lines = to_lines(GAL_CONTENT);
    let orbits =
        rinex::ephemeris::parse_orbits(&gal_registry(), Version::new(3, 0), Constellation::Galileo, &lines);
    assert!(orbits.is_ok());
    let ephemeris = wrap(orbits.unwrap());
    assert_eq!(field_f64(&ephemeris, "iodnav"), Some(7.500000000000e+01));
    assert_eq!(field_f64(&ephemeris, "crs"), Some(1.478125000000e+01));
    assert_eq!(field_f64(&ephemeris, "deltaN"), Some(2.945479833915e-09));
    assert_eq!(field_f64(&ephemeris, "m0"), Some(-3.955466341850e-01));

    assert_eq!(field_f64(&ephemeris, "cuc"), Some(8.065253496170e-07));
    assert_eq!(field_f64(&ephemeris, "e"), Some(3.683507675305e-04));
    assert_eq!(field_f64(&ephemeris, "cus"), Some(-3.911554813385e-07));
    assert_eq!(field_f64(&ephemeris, "sqrta"), Some(5.440603218079e+03));

    assert_eq!(field_f64(&ephemeris, "toe"), Some(3.522000000000e+05));
    assert_eq!(field_f64(&ephemeris, "cic"), Some(-6.519258022308e-08));
    assert_eq!(field_f64(&ephemeris, "omega0"), Some(2.295381450845e+00));
    assert_eq!(field_f64(&ephemeris, "cis"), Some(7.450580596924e-09));

    assert_eq!(field_f64(&ephemeris, "i0"), Some(9.883726443393e-01));
    assert_eq!(field_f64(&ephemeris, "crc"), Some(3.616875000000e+02));
    assert_eq!(field_f64(&ephemeris, "omega"), Some(2.551413130998e-01));
    assert_eq!(field_f64(&ephemeris, "omegaDot"), Some(-5.907746081337e-09));

    assert_eq!(field_f64(&ephemeris, "idot"), Some(1.839362331110e-10));
    assert_eq!(field_f64(&ephemeris, "dataSrc"), Some(2.580000000000e+02));
    assert_eq!(ephemeris.get_weeks(), Some(2111));

    assert_eq!(field_f64(&ephemeris, "sisa"), Some(3.120000000000e+00));
    assert_eq!(field_f64(&ephemeris, "bgdE5aE1"), Some(-1.303851604462e-08));
    assert_eq!(field_f64(&ephemeris, "bgdE5bE1"), Some(0.000000000000e+00));

    assert_eq!(field_f64(&ephemeris, "t_tm"), Some(3.555400000000e+05));
}

const BDS_CONTENT: &str = "      .100000000000e+01  .118906250000e+02  .105325815814e-08 -.255139531119e+01
      .169500708580e-06  .401772442274e-03  .292365439236e-04  .649346986580e+04
      .432000000000e+06  .105705112219e-06 -.277512444499e+01 -.211410224438e-06
      .607169709798e-01 -.897671875000e+03  .154887266488e+00 -.871464871438e-10
     -.940753471872e-09  .000000000000e+00  .782000000000e+03  .000000000000e+00
      .200000000000e+01  .000000000000e+00 -.599999994133e-09 -.900000000000e-08
      .432000000000e+06  .000000000000e+00 0.000000000000e+00 0.000000000000e+00";

#[test]
fn bds_orbit() {
    let lines = to_lines(BDS_CONTENT);
    let orbits =
        rinex::ephemeris::parse_orbits(&bds_registry(), Version::new(3, 0), Constellation::BeiDou, &lines);
    assert!(orbits.is_ok());
    let ephemeris = wrap(orbits.unwrap());
    assert_eq!(field_f64(&ephemeris, "aode"), Some(1.0));
    assert_eq!(field_f64(&ephemeris, "crs"), Some(1.18906250000e+01));
    assert_eq!(field_f64(&ephemeris, "deltaN"), Some(0.105325815814e-08));
    assert_eq!(field_f64(&ephemeris, "m0"), Some(-0.255139531119e+01));

    assert_eq!(field_f64(&ephemeris, "cuc"), Some(0.169500708580e-06));
    assert_eq!(field_f64(&ephemeris, "e"), Some(0.401772442274e-03));
    assert_eq!(field_f64(&ephemeris, "cus"), Some(0.292365439236e-04));
    assert_eq!(field_f64(&ephemeris, "sqrta"), Some(0.649346986580e+04));

    assert_eq!(field_f64(&ephemeris, "toe"), Some(0.432000000000e+06));
    assert_eq!(field_f64(&ephemeris, "cic"), Some(0.105705112219e-06));
    assert_eq!(field_f64(&ephemeris, "omega0"), Some(-0.277512444499e+01));
    assert_eq!(field_f64(&ephemeris, "cis"), Some(-0.211410224438e-06));

    assert_eq!(field_f64(&ephemeris, "i0"), Some(0.607169709798e-01));
    assert_eq!(field_f64(&ephemeris, "crc"), Some(-0.897671875000e+03));
    assert_eq!(field_f64(&ephemeris, "omega"), Some(0.154887266488e+00));
    assert_eq!(field_f64(&ephemeris, "omegaDot"), Some(-0.871464871438e-10));

    assert_eq!(field_f64(&ephemeris, "idot"), Some(-0.940753471872e-09));
    assert_eq!(ephemeris.get_weeks(), Some(782));

    assert_eq!(field_f64(&ephemeris, "svAccuracy"), Some(0.200000000000e+01));
    assert_eq!(field_f64(&ephemeris, "satH1"), Some(0.0));
    assert_eq!(field_f64(&ephemeris, "tgd1b1b3"), Some(-0.599999994133e-09));
    assert_eq!(field_f64(&ephemeris, "tgd2b2b3"), Some(-0.900000000000e-08));

    assert_eq!(field_f64(&ephemeris, "t_tm"), Some(0.432000000000e+06));
    assert_eq!(field_f64(&ephemeris, "aodc"), Some(0.0));
}

#[test]
fn spare_fields_never_stored() {
    let lines = to_lines(BDS_CONTENT);
    let orbits =
        rinex::ephemeris::parse_orbits(&bds_registry(), Version::new(3, 0), Constellation::BeiDou, &lines)
            .unwrap();
    let ephemeris = wrap(orbits);
    assert_eq!(field_f64(&ephemeris, "spare"), None);
}

#[test]
fn decode_is_idempotent() {
    let lines = to_lines(GAL_CONTENT);
    let reg = gal_registry();
    let a = rinex::ephemeris::parse_orbits(&reg, Version::new(3, 0), Constellation::Galileo, &lines)
        .unwrap();
    let b = rinex::ephemeris::parse_orbits(&reg, Version::new(3, 0), Constellation::Galileo, &lines)
        .unwrap();
    assert_eq!(wrap(a), wrap(b));
}

#[test]
fn malformed_token_dropped_alone() {
    // the m0 token is ruined; every other field must still decode
    let content = "     7.500000000000e+01 1.478125000000e+01 2.945479833915e-09-3.9x5466341850e-01
     8.065253496170e-07 3.683507675305e-04-3.911554813385e-07 5.440603218079e+03";
    let lines = to_lines(content);
    let orbits =
        rinex::ephemeris::parse_orbits(&gal_registry(), Version::new(3, 0), Constellation::Galileo, &lines)
            .unwrap();
    let ephemeris = wrap(orbits);
    assert_eq!(field_f64(&ephemeris, "m0"), None);
    assert_eq!(field_f64(&ephemeris, "iodnav"), Some(75.0));
    assert_eq!(field_f64(&ephemeris, "crs"), Some(14.78125));
    assert_eq!(field_f64(&ephemeris, "deltaN"), Some(2.945479833915e-09));
    assert_eq!(field_f64(&ephemeris, "cuc"), Some(8.065253496170e-07));
    assert_eq!(field_f64(&ephemeris, "sqrta"), Some(5.440603218079e+03));
}

#[test]
fn missing_revision_is_an_error() {
    let lines = to_lines(GAL_CONTENT);
    let r = rinex::ephemeris::parse_orbits(
        &gal_registry(),
        Version::new(3, 0),
        Constellation::Gps,
        &lines,
    );
    assert_eq!(r.unwrap_err(), rinex::ephemeris::Error::DataBaseRevisionError);
    let r = rinex::ephemeris::parse_orbits(
        &gal_registry(),
        Version::new(2, 0),
        Constellation::Galileo,
        &lines,
    );
    assert!(matches!(r, Err(rinex::ephemeris::Error::DataBaseRevisionError)));
}

fn build_orbits(descriptor: Vec<(&str, &str)>) -> OrbitTable {
    let mut table = OrbitTable::new();
    for (key, value) in descriptor.iter() {
        let item = OrbitItem::new(b"f64", value.as_bytes(), Constellation::Gps).unwrap();
        table.insert(key.as_bytes(), item);
    }
    table
}

#[test]
fn kepler_needs_every_field() {
    let full = wrap(build_orbits(vec![
        ("sqrta", "5.15353571e3"),
        ("e", "4.27323824e-3"),
        ("i0", "0.97477102"),
        ("omega", "-0.88396725"),
        ("omega0", "2.29116688"),
        ("m0", "2.24295542"),
        ("toe", "410400"),
    ]));
    let k = full.kepler().unwrap();
    assert_eq!(k.sqrta, b"5.15353571e3".to_vec());
    assert_eq!(k.toe, b"410400".to_vec());

    let partial = wrap(build_orbits(vec![
        ("sqrta", "5.15353571e3"),
        ("e", "4.27323824e-3"),
        ("i0", "0.97477102"),
        ("omega", "-0.88396725"),
        ("omega0", "2.29116688"),
        ("m0", "2.24295542"),
    ]));
    assert!(partial.kepler().is_none());
}

#[test]
fn perturbations_need_every_field() {
    let mut fields = vec![
        ("deltaN", "4.3123e-9"),
        ("idot", "-4.23946e-10"),
        ("omegaDot", "-8.025691e-9"),
        ("cuc", "-6.60121440e-6"),
        ("cus", "5.31412661e-6"),
        ("cic", "9.8720193e-8"),
        ("cis", "-3.9115548e-8"),
        ("crc", "282.28125"),
        ("crs", "-132.71875"),
    ];
    let full = wrap(build_orbits(fields.clone()));
    let p = full.perturbations().unwrap();
    assert_eq!(p.i_dot, b"-4.23946e-10".to_vec());
    assert_eq!(p.crc, b"282.28125".to_vec());

    // drop idot: no perturbation set may come out
    fields.retain(|(k, _)| *k != "idot");
    let partial = wrap(build_orbits(fields));
    assert!(partial.perturbations().is_none());
}

#[test]
fn week_rounding() {
    let half_up = wrap(build_orbits(vec![("gpsWeek", "910.5")]));
    assert_eq!(half_up.get_weeks(), Some(911));
    let below = wrap(build_orbits(vec![("gpsWeek", "910.4999")]));
    assert_eq!(below.get_weeks(), Some(910));
    let scientific = wrap(build_orbits(vec![("gpsWeek", "2.111000000000e+03")]));
    assert_eq!(scientific.get_weeks(), Some(2111));
    let negative = wrap(build_orbits(vec![("gpsWeek", "-3.5")]));
    assert_eq!(negative.get_weeks(), Some(0));
    let huge = wrap(build_orbits(vec![("gpsWeek", "1e20")]));
    assert_eq!(huge.get_weeks(), Some(u32::MAX));
    let none = wrap(build_orbits(vec![("toe", "410400")]));
    assert_eq!(none.get_weeks(), None);
}

#[test]
fn week_priority_order() {
    let both = wrap(build_orbits(vec![("bdtWeek", "782"), ("gpsWeek", "910")]));
    assert_eq!(both.get_weeks(), Some(910));
    let bdt_gal = wrap(build_orbits(vec![("galWeek", "2111"), ("bdtWeek", "782")]));
    assert_eq!(bdt_gal.get_weeks(), Some(782));
    let gal = wrap(build_orbits(vec![("galWeek", "2111")]));
    assert_eq!(gal.get_weeks(), Some(2111));
}

#[test]
fn parse_v2v3_reads_header_and_orbits() {
    let header = "G01 2021 01 01 00 00 00 1.000000000000D-04-2.000000000000e-11 0.000000000000e+00";
    assert_eq!(header.len(), 80);
    let content = format!(
        "{}\n     7.500000000000e+01 1.478125000000e+01 2.945479833915e-09-3.955466341850e-01",
        header
    );
    let lines = to_lines(&content);
    let reg = registry(
        Constellation::Gps,
        3,
        0,
        &["iode", "crs", "deltaN", "m0"],
    );
    let (epoch, sv, eph) =
        rinex::ephemeris::Ephemeris::parse_v2v3(&reg, Version::new(3, 0), Constellation::Mixed, &lines)
            .unwrap();
    assert_eq!(epoch.year, 2021);
    assert_eq!(epoch.month, 1);
    assert_eq!(epoch.day, 1);
    assert_eq!(sv.constellation, Constellation::Gps);
    assert_eq!(sv.prn, 1);
    // the FORTRAN exponent marker is rewritten before the value is kept
    assert_eq!(eph.clock_bias, b"1.000000000000E-04".to_vec());
    assert_eq!(eph.clock_drift, b"-2.000000000000e-11".to_vec());
    assert_eq!(eph.clock_drift_rate, b"0.000000000000e+00".to_vec());
    assert_eq!(field_f64(&eph, "crs"), Some(14.78125));
}

#[test]
fn parse_v2v3_rejects_bad_clock() {
    let header = "G01 2021 01 01 00 00 00 1.00000000000zz-04-2.000000000000e-11 0.000000000000e+00";
    let lines = to_lines(header);
    let reg = registry(Constellation::Gps, 3, 0, &["iode"]);
    let r = rinex::ephemeris::Ephemeris::parse_v2v3(&reg, Version::new(3, 0), Constellation::Mixed, &lines);
    assert!(matches!(r, Err(rinex::ephemeris::Error::ParseFloatError)));
}

#[test]
fn parse_v2v3_missing_data() {
    let lines: Vec<Vec<u8>> = Vec::new();
    let reg = registry(Constellation::Gps, 3, 0, &["iode"]);
    let r = rinex::ephemeris::Ephemeris::parse_v2v3(&reg, Version::new(3, 0), Constellation::Mixed, &lines);
    assert!(matches!(r, Err(rinex::ephemeris::Error::MissingData)));
}

#[test]
fn parse_v2_bare_prn() {
    let header = format!(
        "{}{}{}{}{}",
        " 07",
        "21  1  1  0  0  0.0",
        " 1.000000000000e-04",
        "-2.000000000000e-11",
        " 0.000000000000e+00"
    );
    assert_eq!(header.len(), 79);
    let header = header.as_str();
    let lines = to_lines(header);
    let reg = registry(Constellation::Gps, 2, 0, &["iode"]);
    let (epoch, sv, _eph) =
        rinex::ephemeris::Ephemeris::parse_v2v3(&reg, Version::new(2, 0), Constellation::Gps, &lines)
            .unwrap();
    assert_eq!(sv.constellation, Constellation::Gps);
    assert_eq!(sv.prn, 7);
    assert_eq!(epoch.year, 2021);
}

#[test]
fn parse_v4_fixed_layout() {
    let header = "E13 2022 06 08 10 00 00 1.000000000000e-04 0.000000000000e+00 0.000000000000e+00";
    let content = format!(
        "{}\n     7.500000000000e+01 1.478125000000e+01 2.945479833915e-09-3.955466341850e-01",
        header
    );
    let lines = to_lines(&content);
    let reg = registry(
        Constellation::Galileo,
        4,
        0,
        &["iodnav", "crs", "deltaN", "m0"],
    );
    let (epoch, sv, eph) = rinex::ephemeris::Ephemeris::parse_v4(&reg, &lines).unwrap();
    assert_eq!(sv.constellation, Constellation::Galileo);
    assert_eq!(sv.prn, 13);
    assert_eq!(epoch.hour, 10);
    assert_eq!(field_f64(&eph, "deltaN"), Some(2.945479833915e-09));
    assert_eq!(field_f64(&eph, "m0"), Some(-3.955466341850e-01));
}

/// The numeric propagation of the companion layer, applied to the element
/// tokens the verified decoder hands out: the single-step eccentric
/// anomaly, second-harmonic corrections, and the rotation into ECEF.
fn propagate(eph: &Ephemeris, t_of_week_s: f64) -> (f64, f64, f64) {
    const GM: f64 = 3.986004418E14;
    const OMEGA_EARTH: f64 = 7.2921151467E-5;
    let as_f64 = |v: &Vec<u8>| -> f64 { std::str::from_utf8(v).unwrap().parse().unwrap() };
    let k = eph.kepler().unwrap();
    let p = eph.perturbations().unwrap();
    assert!(eph.get_weeks().is_some());
    let a = as_f64(&k.sqrta).powf(2.0);
    let e = as_f64(&k.e);
    let i_0 = as_f64(&k.i_0);
    let omega_0 = as_f64(&k.omega_0);
    let m_0 = as_f64(&k.m_0);
    let omega = as_f64(&k.omega);
    let toe = as_f64(&k.toe);
    let (dn, i_dot, omega_dot) = (as_f64(&p.dn), as_f64(&p.i_dot), as_f64(&p.omega_dot));
    let (cus, cuc, cis, cic, crs, crc) = (
        as_f64(&p.cus),
        as_f64(&p.cuc),
        as_f64(&p.cis),
        as_f64(&p.cic),
        as_f64(&p.crs),
        as_f64(&p.crc),
    );
    let t_k = t_of_week_s - toe;
    let n = (GM / a.powf(3.0)).sqrt() + dn;
    let m_k = m_0 + n * t_k;
    let e_k = m_k + e * m_k.sin();
    let nu_k = ((1.0 - e.powf(2.0)).sqrt() * e_k.sin()).atan2(e_k.cos() - e);
    let phi_k = nu_k + omega;
    let du_k = cuc * (2.0 * phi_k).cos() + cus * (2.0 * phi_k).sin();
    let u_k = phi_k + du_k;
    let di_k = cic * (2.0 * phi_k).cos() + cis * (2.0 * phi_k).sin();
    let i_k = i_0 + i_dot * t_k + di_k;
    let dr_k = crc * (2.0 * phi_k).cos() + crs * (2.0 * phi_k).sin();
    let r_k = a * (1.0 - e * e_k.cos()) + dr_k;
    let omega_k = omega_0 + (omega_dot - OMEGA_EARTH) * t_k - OMEGA_EARTH * toe;
    let (xp_k, yp_k) = (r_k * u_k.cos(), r_k * u_k.sin());
    (
        xp_k * omega_k.cos() - yp_k * omega_k.sin() * i_k.cos(),
        xp_k * omega_k.sin() + yp_k * omega_k.cos() * i_k.cos(),
        yp_k * i_k.sin(),
    )
}

#[test]
fn test_kepler2ecef() {
    let ephemeris = wrap(build_orbits(vec![
        ("deltaN", "4.3123e-9"),
        ("gpsWeek", "910"),
        ("toe", "410400"),
        ("e", "4.27323824e-3"),
        ("m0", "2.24295542"),
        ("i0", "0.97477102"),
        ("idot", "-4.23946e-10"),
        ("sqrta", "5.15353571e3"),
        ("cuc", "-6.60121440e-6"),
        ("cus", "5.31412661e-6"),
        ("cic", "9.8720193e-8"),
        ("cis", "-3.9115548e-8"),
        ("crc", "282.28125"),
        ("crs", "-132.71875"),
        ("omega", "-0.88396725"),
        ("omega0", "2.29116688"),
        ("omegaDot", "-8.025691e-9"),
    ]));
    assert_eq!(ephemeris.get_weeks(), Some(910));

    // the target epoch, as seconds into GPS week 910
    let t = 4.0327293e14_f64 / 1.0e9;
    let (x, y, z) = propagate(&ephemeris, t);
    assert!((x - -5678509.38584636).abs() < 1E-6);
    assert!((y - -24923975.356725316).abs() < 1E-6);
    assert!((z - 7056393.437932).abs() < 1E-6);

    // elevation and azimuth against a ground reference, in the frame of
    // the satellite's own geodetic coordinates
    let (ref_x, ref_y, ref_z) = (-5.67841101e6_f64, -2.49239629e7_f64, 7.05651887e6_f64);
    let (sv_lat, sv_lon, _) = map_3d::ecef2geodetic(x, y, z, map_3d::Ellipsoid::WGS84);
    let a_i = (x - ref_x, y - ref_y, z - ref_z);
    let norm = (a_i.0.powf(2.0) + a_i.1.powf(2.0) + a_i.2.powf(2.0)).sqrt();
    let a_i = (a_i.0 / norm, a_i.1 / norm, a_i.2 / norm);
    let east = -sv_lon.sin() * a_i.0 + sv_lon.cos() * a_i.1;
    let north = -sv_lon.cos() * sv_lat.sin() * a_i.0 - sv_lon.sin() * sv_lat.sin() * a_i.1
        + sv_lat.cos() * a_i.2;
    let up = sv_lon.cos() * sv_lat.cos() * a_i.0 + sv_lon.sin() * sv_lat.cos() * a_i.1
        + sv_lat.sin() * a_i.2;
    let elev = map_3d::rad2deg(up.asin());
    let mut azim = map_3d::rad2deg(east.atan2(north));
    if azim < 0.0 {
        azim += 360.0;
    }
    assert!(
        (elev - -0.23579324).abs() < 1E-3,
        "elev failed with {}",
        (elev - -0.23579324).abs()
    );
    assert!(
        (azim - 215.63240776).abs() < 1E-3,
        "azim failed with {}",
        (azim - 215.63240776).abs()
    );

    let ephemeris = wrap(build_orbits(vec![
        ("deltaN", "3.86730381052e-09"),
        ("gpsWeek", "2190.0"),
        ("toe", "432000.0"),
        ("e", "0.0112139617559"),
        ("m0", "-0.659513670614"),
        ("i0", "0.986440321199"),
        ("idot", "-2.98226721096e-10"),
        ("sqrta", "5153.67701149"),
        ("cuc", "-6.64032995701e-06"),
        ("cus", "7.05942511559e-06"),
        ("cic", "-9.31322574615e-09"),
        ("cis", "2.10478901863e-07"),
        ("crc", "255.375"),
        ("crs", "-126.90625"),
        ("omega", "0.883585650969"),
        ("omega0", "-1.03593017273"),
        ("omegaDot", "-7.99890464975e-09"),
    ]));
    assert_eq!(ephemeris.get_weeks(), Some(2190));
    let (x, y, z) = propagate(&ephemeris, 1324944000.0);
    assert!((x - -11840614.01333711).abs() < 1E-6);
    assert!((y - 19224209.93574417).abs() < 1E-6);
    assert!((z - 13435836.30353981).abs() < 1E-6);
}
