use modes_beam::cpr::{cpr_mod_function, cpr_n_function, cpr_nl_function, decode_cpr};

#[test]
fn test_cpr_reference_pair() {
    // Reference even/odd pair: decodes close to 52.2572 N, 3.9194 E.
    let t0: u64 = 1_000_000_000;
    let even = (93000u32, 51372u32, t0 + 2_000_000);
    let odd = (74158u32, 50194u32, t0);
    let (lat_e6, lon_e6) = decode_cpr(even, odd).expect("pair should decode");
    assert!((lat_e6 - 52_257_202).abs() < 500, "lat {}", lat_e6);
    assert!((lon_e6 - 3_919_373).abs() < 500, "lon {}", lon_e6);
}

#[test]
fn test_cpr_reference_pair_odd_recent() {
    // The same pair with the odd frame most recent reports the odd
    // latitude band.
    let even = (93000u32, 51372u32, 10);
    let odd = (74158u32, 50194u32, 20);
    let (lat_e6, _lon_e6) = decode_cpr(even, odd).expect("pair should decode");
    assert!((lat_e6 - 52_265_700).abs() < 2_000, "lat {}", lat_e6);
}

#[test]
fn test_cpr_mod_function_nonnegative() {
    assert_eq!(cpr_mod_function(-7, 60), 53);
    assert_eq!(cpr_mod_function(7, 60), 7);
    assert_eq!(cpr_mod_function(0, 59), 0);
    assert_eq!(cpr_mod_function(-120, 60), 0);
}

#[test]
fn test_cpr_nl_breakpoints() {
    assert_eq!(cpr_nl_function(0), 59);
    assert_eq!(cpr_nl_function(10_470_470), 59);
    assert_eq!(cpr_nl_function(10_470_472), 58);
    assert_eq!(cpr_nl_function(-52_000_000), 36);
    assert_eq!(cpr_nl_function(52_000_000), 36);
    assert_eq!(cpr_nl_function(86_999_999), 2);
    assert_eq!(cpr_nl_function(87_000_000), 1);
    assert_eq!(cpr_nl_function(89_000_000), 1);
}

#[test]
fn test_cpr_n_function_floors_at_one() {
    assert_eq!(cpr_n_function(89_000_000, false), 1);
    assert_eq!(cpr_n_function(89_000_000, true), 1);
    assert_eq!(cpr_n_function(0, false), 59);
    assert_eq!(cpr_n_function(0, true), 58);
}

/// Test-side reference encoder for the airborne CPR format.
fn cpr_encode(lat: f64, lon: f64, odd: bool) -> (u32, u32) {
    fn nl(lat: f64) -> f64 {
        let breaks: [(f64, f64); 58] = [
            (10.47047130, 59.0), (14.82817437, 58.0), (18.18626357, 57.0), (21.02939493, 56.0),
            (23.54504487, 55.0), (25.82924707, 54.0), (27.93898710, 53.0), (29.91135686, 52.0),
            (31.77209708, 51.0), (33.53993436, 50.0), (35.22899598, 49.0), (36.85025108, 48.0),
            (38.41241892, 47.0), (39.92256684, 46.0), (41.38651832, 45.0), (42.80914012, 44.0),
            (44.19454951, 43.0), (45.54626723, 42.0), (46.86733252, 41.0), (48.16039128, 40.0),
            (49.42776439, 39.0), (50.67150166, 38.0), (51.89342469, 37.0), (53.09516153, 36.0),
            (54.27817472, 35.0), (55.44378444, 34.0), (56.59318756, 33.0), (57.72747354, 32.0),
            (58.84763776, 31.0), (59.95459277, 30.0), (61.04917774, 29.0), (62.13216659, 28.0),
            (63.20427479, 27.0), (64.26616523, 26.0), (65.31845310, 25.0), (66.36171008, 24.0),
            (67.39646774, 23.0), (68.42322022, 22.0), (69.44242631, 21.0), (70.45451075, 20.0),
            (71.45986473, 19.0), (72.45884545, 18.0), (73.45177442, 17.0), (74.43893416, 16.0),
            (75.42056257, 15.0), (76.39684391, 14.0), (77.36789461, 13.0), (78.33374083, 12.0),
            (79.29428225, 11.0), (80.24923213, 10.0), (81.19801349, 9.0), (82.13956981, 8.0),
            (83.07199445, 7.0), (83.99173563, 6.0), (84.89166191, 5.0), (85.75541621, 4.0),
            (86.53536998, 3.0), (87.00000000, 2.0),
        ];
        let a = lat.abs();
        for &(b, n) in breaks.iter() {
            if a < b {
                return n;
            }
        }
        1.0
    }
    fn modp(a: f64, b: f64) -> f64 {
        let r = a % b;
        if r < 0.0 { r + b } else { r }
    }
    let nb: f64 = 131072.0;
    let dlat = if odd { 360.0 / 59.0 } else { 360.0 / 60.0 };
    let yz = (nb * modp(lat, dlat) / dlat + 0.5).floor();
    let rlat = dlat * (yz / nb + (lat / dlat).floor());
    let nl_here = nl(rlat) - if odd { 1.0 } else { 0.0 };
    let dlon = if nl_here < 1.0 { 360.0 } else { 360.0 / nl_here };
    let xz = (nb * modp(lon, dlon) / dlon + 0.5).floor();
    ((yz as i64 as u32) & 0x1ffff, (xz as i64 as u32) & 0x1ffff)
}

#[test]
fn test_cpr_encode_decode_round_trip() {
    // Symmetry: encoding a position as an even/odd pair and decoding
    // recovers it within 5e-4 degrees.
    let cases = [(52.2572, 3.9193), (36.1, -115.2), (-33.95, 18.6), (1.35, 103.99)];
    for &(lat, lon) in cases.iter() {
        let (ye, xe) = cpr_encode(lat, lon, false);
        let (yo, xo) = cpr_encode(lat, lon, true);
        let even = (ye, xe, 10u64);
        let odd = (yo, xo, 20u64);
        let (lat_e6, lon_e6) = decode_cpr(even, odd).expect("round trip should decode");
        let lat_ref = (lat * 1e6).round() as i64;
        let lon_ref = (lon * 1e6).round() as i64;
        assert!((lat_e6 - lat_ref).abs() <= 500, "lat {} vs {}", lat_e6, lat_ref);
        assert!((lon_e6 - lon_ref).abs() <= 500, "lon {} vs {}", lon_e6, lon_ref);
    }
}

#[test]
fn test_cpr_nl_mismatch_rejected() {
    // A pair whose even and odd latitudes straddle an NL breakpoint
    // (51.8934 degrees) disagrees on the zone count: no fix.
    assert!(decode_cpr((84760, 0, 10), (66727, 0, 20)).is_none());
}
