use dragon_curve::angle::{
    is_white_space, join_arcseconds, split_arcseconds, Angle, ParseAngleError, DEGREE_MARK,
    DEGREE_SIGN,
};

fn text(magnitude: &str) -> String {
    magnitude.to_string()
}

fn whole_arcseconds(degrees: f64) -> i64 {
    (degrees * 3600.0).trunc() as i64
}

fn degrees_of(arcseconds: i64) -> f64 {
    arcseconds as f64 / 3600.0
}

fn read(text: &str) -> Result<Angle<f64>, ParseAngleError> {
    let framed = Angle::parse(text)?;
    let number = match &framed {
        Angle::Degrees(magnitude) | Angle::Radians(magnitude) => magnitude.parse::<f64>(),
    };
    framed.with_magnitude(number)
}

fn to_dms(angle: Angle<f64>) -> (i32, u32, u32) {
    angle.to_dms(f64::to_degrees, whole_arcseconds)
}

fn from_dms(theta: (i32, u32, u32)) -> Angle<f64> {
    Angle::from_dms(theta, degrees_of)
}

#[test]
fn the_magnitude_comes_out_whatever_the_unit() {
    assert_eq!(Angle::Degrees(45.0).unwrap(), 45.0);
    assert_eq!(Angle::Radians(0.5).unwrap(), 0.5);
    assert_eq!(Angle::Degrees(text("45")).unwrap(), "45");
}

#[test]
fn the_unit_is_one_of_two() {
    assert!(Angle::Degrees(1).is_degrees());
    assert!(!Angle::Degrees(1).is_radians());
    assert!(Angle::Radians(1).is_radians());
    assert!(!Angle::Radians(1).is_degrees());
}

#[test]
fn an_angle_in_the_unit_asked_for_is_returned_as_it_is() {
    let never = |_: f64| -> f64 { panic!("an angle in the unit asked for is not converted") };
    assert_eq!(Angle::Degrees(45.0).to_degrees(never), Angle::Degrees(45.0));
    assert_eq!(Angle::Radians(0.5).to_radians(never), Angle::Radians(0.5));
}

#[test]
fn an_angle_in_the_other_unit_is_converted_and_tagged() {
    let quarter = std::f64::consts::FRAC_PI_4;
    assert_eq!(Angle::Radians(quarter).to_degrees(f64::to_degrees), Angle::Degrees(45.0));
    assert_eq!(Angle::Degrees(45.0).to_radians(f64::to_radians), Angle::Radians(quarter));
    assert_eq!(Angle::Radians(3).to_degrees(|rad| rad * 57), Angle::Degrees(171));
    assert_eq!(Angle::Degrees(171).to_radians(|deg| deg / 57), Angle::Radians(3));
}

#[test]
fn converting_twice_is_converting_once() {
    let once = Angle::Radians(1.25).to_degrees(f64::to_degrees);
    assert_eq!(once.to_degrees(f64::to_degrees), once);
    let back = Angle::Degrees(1.25).to_radians(f64::to_radians);
    assert_eq!(back.to_radians(f64::to_radians), back);
}

#[test]
fn degrees_are_read_by_their_mark() {
    assert_eq!(Angle::parse("45\u{ba}"), Ok(Angle::Degrees(text("45"))));
    let magnitude: f64 = Angle::parse("45\u{ba}").unwrap().unwrap().parse().unwrap();
    assert_eq!(magnitude, 45.0);
}

#[test]
fn radians_are_read_by_their_mark() {
    let parsed = Angle::parse("0.7853981633974483 rad.");
    assert_eq!(parsed, Ok(Angle::Radians(text("0.7853981633974483"))));
    let angle = parsed.unwrap();
    assert!(angle.is_radians());
    let magnitude: f64 = angle.unwrap().parse().unwrap();
    let converted = Angle::Radians(magnitude).to_degrees(f64::to_degrees);
    assert!(converted.is_degrees());
    assert!((converted.unwrap() - 45.0).abs() < 1e-9);
}

#[test]
fn white_space_before_the_mark_is_no_part_of_the_magnitude() {
    assert_eq!(Angle::parse("45 \u{ba}"), Ok(Angle::Degrees(text("45"))));
    assert_eq!(Angle::parse("45 \t\u{a0}\u{3000}\u{ba}"), Ok(Angle::Degrees(text("45"))));
    assert_eq!(Angle::parse("1.5rad."), Ok(Angle::Radians(text("1.5"))));
    assert_eq!(Angle::parse(" 1.5 \n rad."), Ok(Angle::Radians(text(" 1.5"))));
}

#[test]
fn only_the_last_mark_is_taken_off() {
    assert_eq!(Angle::parse("45\u{ba}\u{ba}"), Ok(Angle::Degrees(text("45\u{ba}"))));
    assert_eq!(Angle::parse("45\u{ba}\u{ba}\u{ba}"), Ok(Angle::Degrees(text("45\u{ba}\u{ba}"))));
    assert_eq!(Angle::parse("2rad.rad."), Ok(Angle::Radians(text("2rad."))));
    assert_eq!(Angle::parse("2 rad. rad."), Ok(Angle::Radians(text("2 rad."))));
    assert_eq!(Angle::parse("90\u{ba} \u{ba}"), Ok(Angle::Degrees(text("90\u{ba}"))));
    assert_eq!(Angle::parse("3rad.\u{ba}"), Ok(Angle::Degrees(text("3rad."))));
    assert_eq!(Angle::parse("3\u{ba}rad."), Ok(Angle::Radians(text("3\u{ba}"))));
}

#[test]
fn a_mark_alone_leaves_an_empty_magnitude() {
    assert_eq!(Angle::parse("\u{ba}"), Ok(Angle::Degrees(text(""))));
    assert_eq!(Angle::parse("rad."), Ok(Angle::Radians(text(""))));
    assert_eq!(Angle::parse("  rad."), Ok(Angle::Radians(text(""))));
    assert_eq!(Angle::parse("  rad.rad."), Ok(Angle::Radians(text("  rad."))));
}

#[test]
fn a_repeated_mark_is_no_number() {
    let invalid = "45\u{ba}".parse::<f64>().unwrap_err();
    assert_eq!(read("45\u{ba}\u{ba}"), Err(ParseAngleError::ParseFloatError(invalid.clone())));
    assert_eq!(read("2rad.rad."), Err(ParseAngleError::ParseFloatError(invalid)));
}

#[test]
fn the_unit_stays_when_the_magnitude_is_read() {
    assert_eq!(Angle::Degrees(text("45")).with_magnitude(Ok(45.0)), Ok(Angle::Degrees(45.0)));
    assert_eq!(Angle::Radians(text("45")).with_magnitude(Ok(0.5)), Ok(Angle::Radians(0.5)));
    assert_eq!(Angle::Radians(text("")).with_magnitude(Ok(7u8)), Ok(Angle::Radians(7u8)));
}

#[test]
fn a_failed_read_of_the_magnitude_is_kept_as_the_cause() {
    let invalid = "abc".parse::<f64>().unwrap_err();
    let empty = "".parse::<f64>().unwrap_err();
    assert_ne!(invalid, empty);
    assert_eq!(
        Angle::Degrees(text("abc")).with_magnitude::<f64>(Err(invalid.clone())),
        Err(ParseAngleError::ParseFloatError(invalid.clone()))
    );
    assert_eq!(
        Angle::Radians(text("")).with_magnitude::<f64>(Err(empty.clone())),
        Err(ParseAngleError::ParseFloatError(empty.clone()))
    );
    assert_eq!(read("abc\u{ba}"), Err(ParseAngleError::ParseFloatError(invalid.clone())));
    assert_eq!(read("abc rad."), Err(ParseAngleError::ParseFloatError(invalid.clone())));
    assert_eq!(read("4 5\u{ba}"), Err(ParseAngleError::ParseFloatError(invalid.clone())));
    assert_eq!(read(" 45\u{ba}"), Err(ParseAngleError::ParseFloatError(invalid)));
    assert_eq!(read("\u{ba}"), Err(ParseAngleError::ParseFloatError(empty.clone())));
    assert_eq!(read("  rad."), Err(ParseAngleError::ParseFloatError(empty)));
}

#[test]
fn text_is_read_as_an_angle_or_as_one_of_two_errors() {
    assert_eq!(read("45\u{ba}"), Ok(Angle::Degrees(45.0)));
    assert_eq!(read("45 \u{ba}"), Ok(Angle::Degrees(45.0)));
    assert_eq!(read("-1.5e2\t\u{ba}"), Ok(Angle::Degrees(-150.0)));
    assert_eq!(read("0.7853981633974483 rad."), Ok(Angle::Radians(0.7853981633974483)));
    assert_eq!(read("1rad."), Ok(Angle::Radians(1.0)));
    assert_eq!(read("45"), Err(ParseAngleError::UnrecognizedUnit));
    assert_eq!(read("abc"), Err(ParseAngleError::UnrecognizedUnit));
    assert!(matches!(read("abc rad."), Err(ParseAngleError::ParseFloatError(_))));
}

#[test]
fn text_without_a_mark_has_no_unit() {
    for input in ["", "45", "45 deg", "45rad", "rad", "ad.", "45\u{b0}", "45\u{ba} ", "1 RAD."] {
        assert_eq!(Angle::parse(input), Err(ParseAngleError::UnrecognizedUnit), "{:?}", input);
    }
}

#[test]
fn angles_are_written_with_the_sign_of_their_unit() {
    assert_eq!(Angle::Degrees(text("45")).format(), "45\u{b0}");
    assert_eq!(Angle::Radians(text("0.5")).format(), "0.5 rad.");
    assert_eq!(Angle::Degrees(text("")).format(), "\u{b0}");
    assert_eq!(Angle::Radians(text("")).format(), " rad.");
}

#[test]
fn radians_read_back_as_written() {
    for value in [0.0, 0.7853981633974483, -3.5, 1e300, -1e-300, f64::MAX, f64::MIN_POSITIVE] {
        let written = Angle::Radians(value.to_string()).format();
        let read = Angle::parse(&written).unwrap();
        assert!(read.is_radians());
        let magnitude: f64 = read.unwrap().parse().unwrap();
        assert_eq!(magnitude, value);
    }
}

#[test]
fn degrees_are_not_read_back_as_written() {
    assert_ne!(DEGREE_MARK, DEGREE_SIGN);
    let written = Angle::Degrees(text("45")).format();
    assert_eq!(Angle::parse(&written), Err(ParseAngleError::UnrecognizedUnit));
}

#[test]
fn white_space_is_what_the_standard_library_says() {
    for code in 0..=0x10ffffu32 {
        if let Some(c) = char::from_u32(code) {
            assert_eq!(is_white_space(c), c.is_whitespace(), "U+{:04X}", code);
        }
    }
}

#[test]
fn an_unrecognized_unit_says_so_and_has_no_cause() {
    let error = ParseAngleError::UnrecognizedUnit;
    assert_eq!(
        error.message(),
        "Could not determine if the angle is in degrees or radians"
    );
    assert_eq!(error.source(), None);
}

#[test]
fn a_bad_number_says_what_its_cause_says() {
    let cause = "4x5".parse::<f64>().unwrap_err();
    let error = ParseAngleError::ParseFloatError(cause.clone());
    assert_eq!(error.message(), cause.to_string());
    assert_eq!(error.message(), "invalid float literal");
    assert_eq!(error.source(), Some(&cause));
    let empty = "".parse::<f64>().unwrap_err();
    assert_eq!(ParseAngleError::ParseFloatError(empty).message(), "cannot parse float from empty string");
}

#[test]
fn a_copied_error_equals_the_error() {
    let cause = "4x5".parse::<f64>().unwrap_err();
    let error = ParseAngleError::ParseFloatError(cause);
    assert_eq!(error.clone(), error);
    assert_ne!(error, ParseAngleError::UnrecognizedUnit);
    assert_eq!(ParseAngleError::UnrecognizedUnit.clone(), ParseAngleError::UnrecognizedUnit);
}

#[test]
fn arc_seconds_split_into_degrees_minutes_and_seconds() {
    assert_eq!(split_arcseconds(0), (0, 0, 0));
    assert_eq!(split_arcseconds(59), (0, 0, 59));
    assert_eq!(split_arcseconds(60), (0, 1, 0));
    assert_eq!(split_arcseconds(3599), (0, 59, 59));
    assert_eq!(split_arcseconds(3600), (1, 0, 0));
    assert_eq!(split_arcseconds(5400), (1, 30, 0));
    assert_eq!(split_arcseconds(162_000), (45, 0, 0));
    assert_eq!(split_arcseconds(4139), (1, 8, 59));
    assert_eq!(split_arcseconds(445_445), (123, 44, 5));
}

#[test]
fn below_zero_only_the_whole_degrees_are_kept() {
    assert_eq!(split_arcseconds(-1), (0, 0, 0));
    assert_eq!(split_arcseconds(-3599), (0, 0, 0));
    assert_eq!(split_arcseconds(-3600), (-1, 0, 0));
    assert_eq!(split_arcseconds(-5400), (-1, 0, 0));
    assert_eq!(split_arcseconds(-7200), (-2, 0, 0));
    assert_eq!(split_arcseconds(-445_445), (-123, 0, 0));
}

#[test]
fn degrees_that_do_not_fit_are_the_nearest_that_do() {
    let most = 3600 * i64::from(i32::MAX);
    assert_eq!(split_arcseconds(most), (i32::MAX, 0, 0));
    assert_eq!(split_arcseconds(most + 3600), (i32::MAX, 0, 0));
    assert_eq!(split_arcseconds(most + 3661), (i32::MAX, 1, 1));
    assert_eq!(split_arcseconds(i64::MAX), (i32::MAX, 30, 7));
    let least = 3600 * i64::from(i32::MIN);
    assert_eq!(split_arcseconds(least + 3600), (i32::MIN + 1, 0, 0));
    assert_eq!(split_arcseconds(least), (i32::MIN, 0, 0));
    assert_eq!(split_arcseconds(least - 1), (i32::MIN, 0, 0));
    assert_eq!(split_arcseconds(i64::MIN), (i32::MIN, 0, 0));
}

#[test]
fn degrees_minutes_and_seconds_add_up_to_arc_seconds() {
    assert_eq!(join_arcseconds((0, 0, 0)), 0);
    assert_eq!(join_arcseconds((1, 30, 0)), 5400);
    assert_eq!(join_arcseconds((123, 44, 5)), 445_445);
    assert_eq!(join_arcseconds((-1, 30, 0)), -1800);
    assert_eq!(join_arcseconds((0, 61, 61)), 3721);
    assert_eq!(
        join_arcseconds((i32::MAX, u32::MAX, u32::MAX)),
        3600 * 2_147_483_647 + 61 * 4_294_967_295
    );
    assert_eq!(join_arcseconds((i32::MIN, 0, 0)), -3600 * 2_147_483_648);
}

#[test]
fn splitting_adding_up_and_splitting_again_changes_nothing() {
    let mut total = i64::MIN;
    for step in 0..4000i64 {
        let dms = split_arcseconds(total);
        assert!(dms.1 < 60 && dms.2 < 60);
        assert_eq!(split_arcseconds(join_arcseconds(dms)), dms);
        total = total.saturating_add(0x0010_0000_0000_0000 + 997 * step);
    }
    for total in -8000..8000i64 {
        let dms = split_arcseconds(total);
        assert!(dms.1 < 60 && dms.2 < 60);
        assert_eq!(split_arcseconds(join_arcseconds(dms)), dms);
        if total >= 0 {
            assert_eq!(join_arcseconds(dms), total);
        }
    }
}

#[test]
fn an_angle_has_degrees_minutes_and_seconds() {
    assert_eq!(to_dms(Angle::Degrees(1.5)), (1, 30, 0));
    assert_eq!(to_dms(Angle::Degrees(45.0)), (45, 0, 0));
    assert_eq!(to_dms(Angle::Degrees(0.0)), (0, 0, 0));
    assert_eq!(to_dms(Angle::Degrees(-1.5)), (-1, 0, 0));
    assert_eq!(to_dms(Angle::Degrees(123.734_722_222_3)), (123, 44, 5));
    assert_eq!(to_dms(Angle::Radians(std::f64::consts::FRAC_PI_4)), (45, 0, 0));
    assert_eq!(to_dms(Angle::Radians(std::f64::consts::PI)), (180, 0, 0));
}

#[test]
fn degrees_minutes_and_seconds_make_an_angle_in_degrees() {
    assert_eq!(from_dms((1, 30, 0)), Angle::Degrees(1.5));
    assert_eq!(from_dms((45, 0, 0)), Angle::Degrees(45.0));
    assert_eq!(from_dms((0, 0, 36)), Angle::Degrees(0.01));
    assert_eq!(from_dms((-2, 0, 0)), Angle::Degrees(-2.0));
    assert!(from_dms((i32::MIN, 0, 0)).is_degrees());
}

#[test]
fn an_angle_made_of_its_own_parts_has_the_same_parts() {
    // eighths of a degree are whole arc-seconds and exact in binary
    let mut degrees = -400.0;
    while degrees < 400.0 {
        let dms = to_dms(Angle::Degrees(degrees));
        assert!(dms.1 < 60 && dms.2 < 60);
        assert_eq!(to_dms(from_dms(dms)), dms);
        degrees += 0.125;
    }
    for degrees in [1e9, -1e9, 2_147_483_647.9, -2_147_483_648.9, 1e300, -1e300, f64::NAN] {
        let dms = to_dms(Angle::Degrees(degrees));
        assert!(dms.1 < 60 && dms.2 < 60);
        assert_eq!(dms.0, degrees as i32);
        assert_eq!(to_dms(from_dms(dms)), dms);
    }
}

#[test]
fn an_angle_counted_in_arc_seconds_keeps_its_parts_exactly() {
    let same = |arcseconds: i64| arcseconds;
    for total in (-100_000..100_000i64).step_by(7) {
        let dms = Angle::Degrees(total).to_dms(same, same);
        assert_eq!(dms, split_arcseconds(total));
        let again = Angle::from_dms(dms, same);
        assert!(again.is_degrees());
        assert_eq!(again.to_dms(same, same), dms);
        if total >= 0 {
            assert_eq!(again, Angle::Degrees(total));
        }
    }
}
