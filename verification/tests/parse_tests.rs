use mandelbrot::complex::{parse_complex, Complex};
use mandelbrot::dec::Dec;
use mandelbrot::parse::{parse_pair, FromText};

#[test]
fn test_parse_pair() {
    assert_eq!(parse_pair::<i32>("", ','), None);
    assert_eq!(parse_pair::<i32>("10,", ','), None);
    assert_eq!(parse_pair::<i32>("10,10", ','), Some((10, 10)));
    assert_eq!(parse_pair::<i32>("10x10", 'x'), Some((10, 10)));
    assert_eq!(
        parse_pair::<Dec>("10x10", 'x'),
        Some((
            Dec { neg: false, mant: 10, frac: 0 },
            Dec { neg: false, mant: 10, frac: 0 },
        ))
    );
    assert_eq!(
        parse_pair::<Dec>("1.05x1.05", 'x'),
        Some((
            Dec { neg: false, mant: 105, frac: 2 },
            Dec { neg: false, mant: 105, frac: 2 },
        ))
    );
}

#[test]
fn test_parse_complex() {
    assert_eq!(parse_complex(""), None);
    assert_eq!(
        parse_complex("10,10"),
        Some(Complex {
            re: Dec { neg: false, mant: 10, frac: 0 },
            im: Dec { neg: false, mant: 10, frac: 0 },
        })
    );
    assert_eq!(
        parse_complex("21.1,-35.2"),
        Some(Complex {
            re: Dec { neg: false, mant: 211, frac: 1 },
            im: Dec { neg: true, mant: 352, frac: 1 },
        })
    );
}

#[test]
fn test_parse_pair_rejects_malformed() {
    assert_eq!(parse_pair::<i32>(",10", ','), None);
    assert_eq!(parse_pair::<i32>("10", ','), None);
    assert_eq!(parse_pair::<i32>("10,10xy", ','), None);
    assert_eq!(parse_pair::<usize>("ax10", 'x'), None);
    assert_eq!(parse_pair::<Dec>("0.5x", 'x'), None);
}

#[test]
fn test_parse_pair_round_trip_values() {
    assert_eq!(parse_pair::<i32>("42,-7", ','), Some((42, -7)));
    assert_eq!(parse_pair::<usize>("3x9", 'x'), Some((3, 9)));
}

#[test]
fn test_parse_i32_range() {
    assert_eq!(<i32 as FromText>::from_text("2147483647"), Some(2147483647));
    assert_eq!(<i32 as FromText>::from_text("2147483648"), None);
    assert_eq!(<i32 as FromText>::from_text("-2147483648"), Some(-2147483648));
    assert_eq!(<i32 as FromText>::from_text("-2147483649"), None);
    assert_eq!(<i32 as FromText>::from_text("+10"), Some(10));
    assert_eq!(<i32 as FromText>::from_text("0012"), Some(12));
    assert_eq!(<i32 as FromText>::from_text(""), None);
    assert_eq!(<i32 as FromText>::from_text("-"), None);
    assert_eq!(<i32 as FromText>::from_text("1 2"), None);
}

#[test]
fn test_parse_usize_grammar() {
    assert_eq!(<usize as FromText>::from_text("+7"), Some(7));
    assert_eq!(<usize as FromText>::from_text("-7"), None);
    assert_eq!(<usize as FromText>::from_text("1000"), Some(1000));
    assert_eq!(<usize as FromText>::from_text("12a"), None);
}

#[test]
fn test_parse_dec_grammar() {
    assert_eq!(
        <Dec as FromText>::from_text("+5"),
        Some(Dec { neg: false, mant: 5, frac: 0 })
    );
    assert_eq!(
        <Dec as FromText>::from_text("-0"),
        Some(Dec { neg: false, mant: 0, frac: 0 })
    );
    assert_eq!(
        <Dec as FromText>::from_text("-0.0"),
        Some(Dec { neg: false, mant: 0, frac: 1 })
    );
    assert_eq!(
        <Dec as FromText>::from_text("1."),
        Some(Dec { neg: false, mant: 1, frac: 0 })
    );
    assert_eq!(
        <Dec as FromText>::from_text(".5"),
        Some(Dec { neg: false, mant: 5, frac: 1 })
    );
    assert_eq!(<Dec as FromText>::from_text("."), None);
    assert_eq!(<Dec as FromText>::from_text("1.0.5"), None);
    assert_eq!(
        <Dec as FromText>::from_text("-1.20"),
        Some(Dec { neg: true, mant: 120, frac: 2 })
    );
}

#[test]
fn test_parse_dec_limits() {
    // One digit past what a 64-bit mantissa can hold.
    assert_eq!(<Dec as FromText>::from_text("99999999999999999999"), None);
    assert_eq!(
        <Dec as FromText>::from_text("18446744073709551615"),
        Some(Dec { neg: false, mant: 18446744073709551615, frac: 0 })
    );
    // Eighteen fraction digits are accepted, nineteen are not.
    assert_eq!(
        <Dec as FromText>::from_text("0.000000000000000001"),
        Some(Dec { neg: false, mant: 1, frac: 18 })
    );
    assert_eq!(<Dec as FromText>::from_text("0.0000000000000000001"), None);
}

#[test]
fn test_parse_dec_exponent() {
    assert_eq!(
        <Dec as FromText>::from_text("1e3"),
        Some(Dec { neg: false, mant: 1000, frac: 0 })
    );
    assert_eq!(
        <Dec as FromText>::from_text("1.5e2"),
        Some(Dec { neg: false, mant: 150, frac: 0 })
    );
    assert_eq!(
        <Dec as FromText>::from_text("2e-3"),
        Some(Dec { neg: false, mant: 2, frac: 3 })
    );
    assert_eq!(
        <Dec as FromText>::from_text("1E2"),
        Some(Dec { neg: false, mant: 100, frac: 0 })
    );
    assert_eq!(
        <Dec as FromText>::from_text("1e+2"),
        Some(Dec { neg: false, mant: 100, frac: 0 })
    );
    assert_eq!(
        <Dec as FromText>::from_text("-2.5e1"),
        Some(Dec { neg: true, mant: 25, frac: 0 })
    );
    assert_eq!(<Dec as FromText>::from_text("e3"), None);
    assert_eq!(<Dec as FromText>::from_text("1e"), None);
    assert_eq!(<Dec as FromText>::from_text(".e3"), None);
    assert_eq!(<Dec as FromText>::from_text("1e3e4"), None);
}

#[test]
fn test_parse_dec_exponent_limits() {
    // The exponent magnitude is capped at 1000 by the grammar.
    assert_eq!(<Dec as FromText>::from_text("1e1001"), None);
    assert_eq!(
        <Dec as FromText>::from_text("0e1000"),
        Some(Dec { neg: false, mant: 0, frac: 0 })
    );
    // Scaling must keep the mantissa inside a 64-bit word.
    assert_eq!(<Dec as FromText>::from_text("1e20"), None);
    assert_eq!(
        <Dec as FromText>::from_text("18e18"),
        Some(Dec { neg: false, mant: 18000000000000000000, frac: 0 })
    );
    assert_eq!(<Dec as FromText>::from_text("19e18"), None);
    // And the net fraction count inside eighteen digits.
    assert_eq!(
        <Dec as FromText>::from_text("0.5e-17"),
        Some(Dec { neg: false, mant: 5, frac: 18 })
    );
    assert_eq!(<Dec as FromText>::from_text("0.5e-18"), None);
    assert_eq!(<Dec as FromText>::from_text("0e-100"), None);
}
