use mandelbrot::complex::parse_complex;
use mandelbrot::dec::{dec_lt, Dec};
use mandelbrot::geometry::{pixel_to_point, rat_eq, Bounds, Rat, Viewport};

#[test]
fn test_pixel_to_point() {
    let bounds = Bounds::new(100, 100).unwrap();
    let viewport = Viewport {
        upper_left: parse_complex("-1.0,1.0").unwrap(),
        lower_right: parse_complex("1.0,-1.0").unwrap(),
    };
    assert!(viewport.is_valid());
    assert!(viewport.check_limits());
    let point = pixel_to_point(&bounds, (25, 75), &viewport);
    // Exactly (-0.5, -0.5).
    assert!(rat_eq(&point.0, &Rat { num: -1, den: 2 }));
    assert!(rat_eq(&point.1, &Rat { num: -1, den: 2 }));
}

#[test]
fn test_pixel_to_point_corners() {
    let bounds = Bounds::new(10, 20).unwrap();
    let viewport = Viewport {
        upper_left: parse_complex("-2.5,1.25").unwrap(),
        lower_right: parse_complex("0.5,-1.75").unwrap(),
    };
    assert!(viewport.is_valid());
    // The pixel origin maps to the upper left corner exactly.
    let origin = pixel_to_point(&bounds, (0, 0), &viewport);
    assert!(rat_eq(&origin.0, &Rat { num: -25, den: 10 }));
    assert!(rat_eq(&origin.1, &Rat { num: 125, den: 100 }));
    // The far corner maps to the lower right corner exactly.
    let far = pixel_to_point(&bounds, (10, 20), &viewport);
    assert!(rat_eq(&far.0, &Rat { num: 5, den: 10 }));
    assert!(rat_eq(&far.1, &Rat { num: -175, den: 100 }));
}

#[test]
fn test_bounds_rejects_zero() {
    assert!(Bounds::new(0, 10).is_none());
    assert!(Bounds::new(10, 0).is_none());
    assert!(Bounds::new(10, 10).is_some());
}

#[test]
fn test_viewport_orientation() {
    let flipped = Viewport {
        upper_left: parse_complex("1.0,-1.0").unwrap(),
        lower_right: parse_complex("-1.0,1.0").unwrap(),
    };
    assert!(!flipped.is_valid());
    let collapsed = Viewport {
        upper_left: parse_complex("0,0").unwrap(),
        lower_right: parse_complex("0,0").unwrap(),
    };
    assert!(!collapsed.is_valid());
}

#[test]
fn test_dec_value_order() {
    let minus_two = Dec { neg: true, mant: 2, frac: 0 };
    let tenth = Dec { neg: false, mant: 1, frac: 1 };
    let one_point_five = Dec { neg: false, mant: 15, frac: 1 };
    assert!(dec_lt(&minus_two, &tenth));
    assert!(dec_lt(&tenth, &one_point_five));
    assert!(!dec_lt(&one_point_five, &tenth));
    // Equal values written at different scales are not ordered either way.
    let one = Dec { neg: false, mant: 1, frac: 0 };
    let one_scaled = Dec { neg: false, mant: 100, frac: 2 };
    assert!(!dec_lt(&one, &one_scaled));
    assert!(!dec_lt(&one_scaled, &one));
}
