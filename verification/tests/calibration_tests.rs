use sensor_link::calibration::Calibration;

#[test]
fn reference_points_are_reproduced() {
    let c = Calibration::reference();
    assert_eq!(c.convert(2100), 0);
    assert_eq!(c.convert(1558), 5000);
}

#[test]
fn reference_is_the_line_through_its_points() {
    assert_eq!(Some(Calibration::reference()), Calibration::new(2100, 0, 1558, 5000));
}

#[test]
fn reference_midpoint() {
    assert_eq!(Calibration::reference().convert(1829), 2500);
}

#[test]
fn reference_rounds_to_the_nearest_hundredth() {
    let c = Calibration::reference();
    // (2100 - 1838) * 5000 / 542 = 2416.97...
    assert_eq!(c.convert(1838), 2417);
    // (2100 - 2099) * 5000 / 542 = 9.22...
    assert_eq!(c.convert(2099), 9);
    // (2100 - 0) * 5000 / 542 = 19372.69...
    assert_eq!(c.convert(0), 19373);
}

#[test]
fn readings_outside_the_points_are_extrapolated() {
    let c = Calibration::reference();
    // (2100 - 2101) * 5000 / 542 = -9.22...
    assert_eq!(c.convert(2101), -9);
    // (2100 - 4095) * 5000 / 542 = -18404.05...
    assert_eq!(c.convert(4095), -18404);
    // (2100 - 65535) * 5000 / 542 = -585193.72...
    assert_eq!(c.convert(u16::MAX), -585194);
}

#[test]
fn reference_slope_is_downward() {
    let c = Calibration::reference();
    let mut previous = c.convert(0);
    let mut reading: u16 = 1;
    while reading <= 4095 {
        let value = c.convert(reading);
        assert!(value < previous);
        previous = value;
        reading += 1;
    }
}

#[test]
fn upward_slope_keeps_the_order() {
    let c = Calibration::new(100, -4000, 900, 12000).unwrap();
    assert_eq!(c.convert(100), -4000);
    assert_eq!(c.convert(900), 12000);
    assert_eq!(c.convert(500), 4000);
    assert!(c.convert(499) < c.convert(500));
    assert!(c.convert(0) < c.convert(100));
}

#[test]
fn half_a_hundredth_rounds_upward() {
    let rising = Calibration::new(0, 0, 2, 1).unwrap();
    assert_eq!(rising.convert(1), 1);
    assert_eq!(rising.convert(3), 2);
    let falling = Calibration::new(0, 0, 2, -1).unwrap();
    assert_eq!(falling.convert(1), 0);
    assert_eq!(falling.convert(3), -1);
}

#[test]
fn flat_line_is_constant() {
    let c = Calibration::new(10, 77, 20, 77).unwrap();
    assert_eq!(c.convert(0), 77);
    assert_eq!(c.convert(15), 77);
    assert_eq!(c.convert(u16::MAX), 77);
}

#[test]
fn points_may_come_in_either_order() {
    let one = Calibration::new(2100, 0, 1558, 5000).unwrap();
    let other = Calibration::new(1558, 5000, 2100, 0).unwrap();
    let mut reading: u16 = 0;
    while reading < 4000 {
        assert_eq!(one.convert(reading), other.convert(reading));
        reading += 7;
    }
}

#[test]
fn widest_calibration_does_not_overflow() {
    let c = Calibration::new(0, i32::MIN, 1, i32::MAX).unwrap();
    assert_eq!(c.convert(0), i32::MIN as i64);
    assert_eq!(c.convert(1), i32::MAX as i64);
    assert_eq!(c.convert(u16::MAX), i32::MIN as i64 + 65535 * (u32::MAX as i64));
}

#[test]
fn equal_readings_make_no_calibration() {
    assert_eq!(Calibration::new(5, 0, 5, 100), None);
    assert_eq!(Calibration::new(5, 0, 5, 0), None);
}
