use sensor_link::telemetry::{format_record, push_fixed2, TelemetryRecord};

fn line(remaining: u64, value_hundredths: i64, uptime_ms: u128) -> String {
    format_record(&TelemetryRecord { remaining, value_hundredths, uptime_ms })
}

#[test]
fn line_has_three_fields() {
    assert_eq!(line(3, 2417, 105321), "3,24.17,105321");
}

#[test]
fn line_of_zeros() {
    assert_eq!(line(0, 0, 0), "0,0.00,0");
}

#[test]
fn value_below_one_keeps_its_zero() {
    assert_eq!(line(1, 5, 2), "1,0.05,2");
    assert_eq!(line(1, 50, 2), "1,0.50,2");
}

#[test]
fn negative_value_has_a_minus_sign() {
    assert_eq!(line(7, -9, 1), "7,-0.09,1");
    assert_eq!(line(7, -18404, 1), "7,-184.04,1");
}

#[test]
fn widest_numbers() {
    assert_eq!(
        line(u64::MAX, i64::MAX, u128::MAX),
        "18446744073709551615,92233720368547758.07,340282366920938463463374607431768211455"
    );
    assert_eq!(line(0, i64::MIN, 0), "0,-92233720368547758.08,0");
}

#[test]
fn fixed_point_writing() {
    let mut out = String::from(">");
    push_fixed2(&mut out, 12345);
    assert_eq!(out, ">123.45");
    push_fixed2(&mut out, -100);
    assert_eq!(out, ">123.45-1.00");
}

#[test]
fn fields_read_back() {
    let records = vec![
        TelemetryRecord { remaining: 3, value_hundredths: 2417, uptime_ms: 105321 },
        TelemetryRecord { remaining: 0, value_hundredths: -7, uptime_ms: 0 },
        TelemetryRecord { remaining: u64::MAX, value_hundredths: 19373, uptime_ms: u128::MAX },
    ];
    for record in records {
        let text = format_record(&record);
        let fields: Vec<&str> = text.split(',').collect();
        assert_eq!(fields.len(), 3);
        assert_eq!(fields[0].parse::<u64>(), Ok(record.remaining));
        assert_eq!(fields[2].parse::<u128>(), Ok(record.uptime_ms));
        let value: f64 = fields[1].parse().unwrap();
        assert!((value - record.value_hundredths as f64 / 100.0).abs() < 0.01);
    }
}

#[test]
fn value_reads_back_close_to_the_quantity_it_was_rounded_from() {
    let quantities: Vec<f32> = vec![24.17, 0.0, -0.094, 193.7269, 49.995];
    for quantity in quantities {
        let value_hundredths = (quantity as f64 * 100.0).round() as i64;
        let text = line(1, value_hundredths, 1);
        let fields: Vec<&str> = text.split(',').collect();
        let value: f32 = fields[1].parse().unwrap();
        assert!((value - quantity).abs() < 0.01);
    }
}
