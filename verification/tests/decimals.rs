use fly_sim_core::ieee::Float32;
use fly_sim_core::number::{read_number, write_number};

fn g(x: f32) -> Float32 {
    Float32::from_bits(x.to_bits())
}

fn read(text: &str) -> Option<Float32> {
    let chars: Vec<char> = text.chars().collect();
    read_number(&chars)
}

/// Bit patterns all over the scale.
fn samples() -> Vec<f32> {
    let mut out = vec![
        0.0,
        -0.0,
        1.0,
        -1.0,
        0.1,
        9.999_999_5,
        -0.000_000_4,
        0.5e-6,
        0.007_812_5,
        0.023_437_5,
        123_456.79,
        f32::MAX,
        f32::MIN_POSITIVE,
        f32::from_bits(1),
        f32::from_bits(0x007F_FFFF),
        1.0e27,
    ];
    let mut x: u32 = 0x9E37_79B9;
    for _ in 0..20_000 {
        x ^= x << 13;
        x ^= x >> 17;
        x ^= x << 5;
        let y = f32::from_bits(x);
        if y.is_finite() {
            out.push(y);
        }
        out.push((x as f32 - 2.0e9) * 1.0e-7);
        out.push((x % 2048) as f32 / 1024.0);
    }
    out
}

#[test]
fn numbers_are_written_as_std_prints_them() {
    for x in samples() {
        for d in [0, 1, 3, 6, 9] {
            assert_eq!(write_number(g(x), d), format!("{:.*}", d, x));
        }
    }
    assert_eq!(write_number(g(f32::NAN), 6), format!("{:.6}", f32::NAN));
    assert_eq!(write_number(g(f32::INFINITY), 6), "inf");
    assert_eq!(write_number(g(f32::NEG_INFINITY), 6), "-inf");
    assert_eq!(write_number(g(-0.0), 2), "-0.00");
    assert_eq!(write_number(g(0.007_812_5), 6), "0.007812");
    assert_eq!(write_number(g(0.023_437_5), 6), "0.023438");
}

#[test]
fn numbers_are_read_as_std_parses_them() {
    for x in samples() {
        for d in [1, 6, 9, 20] {
            let text = format!("{:.*}", d, x);
            if let Some(y) = read(&text) {
                assert_eq!(y, g(text.parse::<f32>().unwrap()), "{text}");
            } else {
                assert!(text.len() > 38, "{text}");
            }
        }
    }
}

#[test]
fn of_equally_near_numbers_the_even_one_is_read() {
    assert_eq!(read("16777217.0"), Some(g(16_777_216.0)));
    assert_eq!(read("16777219.0"), Some(g(16_777_220.0)));
    assert_eq!(read("33554431.9"), Some(g(33_554_432.0)));
    assert_eq!(read("-0.0"), Some(g(-0.0)));
}

#[test]
fn only_plain_decimal_is_read() {
    for text in ["", "-", "1", "1.", ".5", "+1.0", "1e3", "1.0e3", "1.2.3", "--1.0", "NaN", "inf", "1.0 "] {
        assert_eq!(read(text), None, "{text}");
    }
    assert_eq!(read(&format!("1.{}", "0".repeat(31))), None);
    assert_eq!(read(&format!("{}.0", "9".repeat(37))), None);
    assert_eq!(read(&format!("{}.0", "9".repeat(36))), Some(g(1.0e36)));
}

#[test]
fn a_written_number_is_read_to_the_last_place() {
    for x in samples() {
        if x.abs() >= 2f32.powi(90) {
            continue;
        }
        for d in [1, 6, 9] {
            let back = read(&write_number(g(x), d)).unwrap();
            let gap = (f32::from_bits(back.to_bits()) as f64 - x as f64).abs();
            assert!(gap <= 10f64.powi(-(d as i32)), "{x}: {gap}");
        }
    }
}
