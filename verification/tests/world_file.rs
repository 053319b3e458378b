use world_image_file::Dec;
use world_image_file::Error;
use world_image_file::Rat;
use world_image_file::WorldFile;

fn whole(n: i128) -> Rat {
    Rat::from_int(n)
}

#[test]
fn test_simple() {
    let test = "32.0\n0.0\n0.0\n-32.0\n691200.0\n4576000.0\n";
    let w = WorldFile::from_string(&test).unwrap();
    let (wx, wy) = w.image_to_world((whole(171), whole(343))).unwrap();
    assert!(wx.same_value(&whole(696672)).unwrap());
    assert!(wy.same_value(&whole(4565024)).unwrap());
    let (px, py) = w.world_to_image((whole(696672), whole(4565024))).unwrap();
    assert!(px.same_value(&whole(171)).unwrap());
    assert!(py.same_value(&whole(343)).unwrap());
    let p = (whole(100), whole(200));
    let q = w.world_to_image(p).unwrap();
    let r = w.image_to_world(q).unwrap();
    assert!(r.0.same_value(&p.0).unwrap());
    assert!(r.1.same_value(&p.1).unwrap());
}

#[test]
fn round_trip_text() {
    let test = "32.0\n0.0\n0.0\n-32.0\n691200.0\n4576000.0\n";
    let w = WorldFile::from_string(&test).unwrap();
    assert_eq!(w.to_string(), test);
    assert_eq!(WorldFile::from_string(&w.to_string()).unwrap(), w);
}

#[test]
fn round_trip_fractions() {
    let test = "0.5\n0\n0\n-0.25\n1\n2\n";
    let w = WorldFile::from_string(&test).unwrap();
    assert_eq!(w.to_string(), test);
    assert_eq!(WorldFile::from_string(&w.to_string()).unwrap(), w);
    let (wx, wy) = w.image_to_world((whole(1), whole(1))).unwrap();
    assert!(wx.same_value(&Rat::new(3, 2).unwrap()).unwrap());
    assert!(wy.same_value(&Rat::new(7, 4).unwrap()).unwrap());
}

#[test]
fn crlf_lines_accepted() {
    let test = "32.0\r\n0.0\r\n0.0\r\n-32.0\r\n691200.0\r\n4576000.0\r\n";
    let plain = "32.0\n0.0\n0.0\n-32.0\n691200.0\n4576000.0\n";
    assert_eq!(
        WorldFile::from_string(&test).unwrap(),
        WorldFile::from_string(&plain).unwrap()
    );
}

#[test]
fn extra_lines_ignored() {
    let test = "32.0\n0.0\n0.0\n-32.0\n691200.0\n4576000.0\nextra metadata\n99\n";
    let plain = "32.0\n0.0\n0.0\n-32.0\n691200.0\n4576000.0\n";
    assert_eq!(
        WorldFile::from_string(&test).unwrap(),
        WorldFile::from_string(&plain).unwrap()
    );
}

#[test]
fn fewer_than_six_lines_rejected() {
    assert_eq!(WorldFile::from_string(""), Err(Error::Parse));
    assert_eq!(WorldFile::from_string("1.0\n2.0\n3.0"), Err(Error::Parse));
    assert_eq!(
        WorldFile::from_string("1.0\n2.0\n3.0\n4.0\n5.0\n"),
        Err(Error::Parse)
    );
}

#[test]
fn non_numeric_line_rejected() {
    assert_eq!(
        WorldFile::from_string("32.0\nabc\n0.0\n-32.0\n1.0\n2.0\n"),
        Err(Error::Parse)
    );
    assert_eq!(
        WorldFile::from_string("32.0\n1.2.3\n0.0\n-32.0\n1.0\n2.0\n"),
        Err(Error::Parse)
    );
    assert_eq!(
        WorldFile::from_string("32.0\n\n0.0\n-32.0\n1.0\n2.0\n"),
        Err(Error::Parse)
    );
}

#[test]
fn oversized_number_rejected() {
    // One digit more than the largest mantissa the crate holds exactly.
    let test = "10000000000000000000000000000000\n0\n0\n-32.0\n0\n0\n";
    assert_eq!(WorldFile::from_string(&test), Err(Error::Parse));
}

#[test]
fn zero_x_scale_rejected() {
    assert_eq!(
        WorldFile::from_string("0.0\n0.0\n0.0\n-32.0\n0.0\n0.0\n"),
        Err(Error::Validation)
    );
}

#[test]
fn zero_y_scale_rejected() {
    assert_eq!(
        WorldFile::from_string("32.0\n0.0\n0.0\n0.0\n0.0\n0.0\n"),
        Err(Error::Validation)
    );
}

#[test]
fn singular_inverse_rejected() {
    let one = Dec::new(1, 0).unwrap();
    let zero = Dec::new(0, 0).unwrap();
    let w = WorldFile {
        x_scale: one,
        y_scale: one,
        x_skew: one,
        y_skew: one,
        x_coord: zero,
        y_coord: zero,
    };
    assert!(w.is_wf());
    assert!(matches!(w.world_to_image((whole(5), whole(7))), Err(Error::Domain)));
}

#[test]
fn forward_overflow_reported() {
    let huge = Dec::new(1_000_000_000_000_000_000_000_000_000_000, 0).unwrap();
    let zero = Dec::new(0, 0).unwrap();
    let w = WorldFile {
        x_scale: huge,
        y_scale: huge,
        x_skew: zero,
        y_skew: zero,
        x_coord: zero,
        y_coord: zero,
    };
    let p = (whole(1_000_000_000_000_000_000_000_000_000_000), whole(0));
    assert!(matches!(w.image_to_world(p), Err(Error::Overflow)));
}

#[test]
fn constructors_check_bounds() {
    assert!(Dec::new(5, 31).is_none());
    assert!(Dec::new(1_000_000_000_000_000_000_000_000_000_001, 0).is_none());
    assert!(Dec::new(-320, 1).is_some());
    assert!(Rat::new(1, 0).is_none());
    assert!(Rat::new(1, -2).is_none());
    assert!(Rat::new(-3, 2).is_some());
}

#[test]
fn leading_dot_and_signs_parse() {
    let test = ".5\n+0\n-0\n5.\n-691200.25\n4576000\n";
    let w = WorldFile::from_string(&test).unwrap();
    assert_eq!(w.x_scale, Dec::new(5, 1).unwrap());
    assert_eq!(w.y_skew, Dec::new(0, 0).unwrap());
    assert_eq!(w.x_skew, Dec::new(0, 0).unwrap());
    assert_eq!(w.y_scale, Dec::new(5, 0).unwrap());
    assert_eq!(w.x_coord, Dec::new(-69120025, 2).unwrap());
    assert_eq!(w.y_coord, Dec::new(4576000, 0).unwrap());
}
