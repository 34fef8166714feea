use fsum::format::decimal_string;
use fsum::format::format_large;

/// The rendering the original double-precision pipeline produces.
fn reference_lines(n: u128) -> Vec<String> {
    let mut lines = vec![format!("{}", n)];
    let table: [(u128, usize, &str); 8] = [
        (1 << 10, 0, "KiB"),
        (1 << 20, 2, "MiB"),
        (1 << 30, 2, "GiB"),
        (1 << 40, 2, "TiB"),
        (1 << 50, 2, "PiB"),
        (1 << 60, 2, "EiB"),
        (1 << 70, 2, "ZiB"),
        (1 << 80, 2, "YiB"),
    ];
    for &(power, digits, letter) in table.iter() {
        if n >= power {
            lines.push(format!("{:.*} {}", digits, n as f64 / power as f64, letter));
        }
    }
    lines
}

#[test]
fn small_totals_print_only_the_raw_count() {
    assert_eq!(format_large(0), vec!["0".to_string()]);
    assert_eq!(format_large(60), vec!["60".to_string()]);
    assert_eq!(format_large(1023), vec!["1023".to_string()]);
}

#[test]
fn two_kib_file() {
    assert_eq!(format_large(2048), vec!["2048".to_string(), "2 KiB".to_string()]);
}

#[test]
fn one_gib_file_prints_every_met_threshold() {
    assert_eq!(
        format_large(1073741824),
        vec![
            "1073741824".to_string(),
            "1048576 KiB".to_string(),
            "1024.00 MiB".to_string(),
            "1.00 GiB".to_string(),
        ]
    );
}

#[test]
fn kib_line_rounds_ties_to_even() {
    // 1536 / 1024 = 1.5 and 2560 / 1024 = 2.5: both round to 2.
    assert_eq!(format_large(1536)[1], "2 KiB".to_string());
    assert_eq!(format_large(2560)[1], "2 KiB".to_string());
}

#[test]
fn mib_line_rounds_ties_to_even() {
    // 3276800 / 2^20 = 3.125: two decimal places round to 3.12.
    assert_eq!(format_large(3276800)[2], "3.12 MiB".to_string());
}

#[test]
fn matches_double_precision_rendering() {
    let samples: [u128; 22] = [
        0,
        1,
        1023,
        1024,
        1025,
        1536,
        2048,
        2560,
        1048575,
        1048576,
        3276800,
        1073741824,
        1099511627775,
        1234567890123,
        9007199254740993,
        9007199254740995,
        18446744073709551615,
        18446744073709551616,
        170141183460469231731687303715884105727,
        340282366920938463463374607431768211455,
        1208925819614629174706176,
        36893488147419103232,
    ];
    for &n in samples.iter() {
        assert_eq!(format_large(n), reference_lines(n), "mismatch for {}", n);
    }
}

#[test]
fn decimal_rendering_is_plain() {
    assert_eq!(decimal_string(0), "0".to_string());
    assert_eq!(decimal_string(12345), "12345".to_string());
    assert_eq!(
        decimal_string(340282366920938463463374607431768211455),
        "340282366920938463463374607431768211455".to_string()
    );
}
