use newton_fractal::complex8::Complex8;
use newton_fractal::scalar::Scalar;
use num::complex::Complex;

/// The numbers of the tests: 64-bit floats, with the complex arithmetic of
/// the `num` crate.
#[derive(Clone, Copy, Debug, PartialEq)]
struct F(f64);

fn complex(z: (F, F)) -> Complex<f64> {
    Complex::new(z.0 .0, z.1 .0)
}

fn pair(z: Complex<f64>) -> (F, F) {
    (F(z.re), F(z.im))
}

fn c(re: f64, im: f64) -> (F, F) {
    (F(re), F(im))
}

impl Scalar for F {
    fn zero() -> Self {
        F(0.0)
    }

    fn one() -> Self {
        F(1.0)
    }

    fn nonzero(self) -> bool {
        self.0 != 0.0
    }

    fn equal(self, other: Self) -> bool {
        self.0 == other.0
    }

    fn less(self, other: Self) -> bool {
        self.0 < other.0
    }

    fn sum(self, other: Self) -> Self {
        F(self.0 + other.0)
    }

    fn difference(self, other: Self) -> Self {
        F(self.0 - other.0)
    }

    fn product(self, other: Self) -> Self {
        F(self.0 * other.0)
    }

    fn quotient(self, other: Self) -> Self {
        F(self.0 / other.0)
    }

    fn half(self) -> Self {
        F(self.0 / 2.0)
    }

    fn plus(a: (Self, Self), b: (Self, Self)) -> (Self, Self) {
        pair(complex(a) + complex(b))
    }

    fn minus(a: (Self, Self), b: (Self, Self)) -> (Self, Self) {
        pair(complex(a) - complex(b))
    }

    fn times(a: (Self, Self), b: (Self, Self)) -> (Self, Self) {
        pair(complex(a) * complex(b))
    }

    fn over(a: (Self, Self), b: (Self, Self)) -> (Self, Self) {
        pair(complex(a) / complex(b))
    }

    fn scale(a: (Self, Self), by: Self) -> (Self, Self) {
        pair(complex(a) * by.0)
    }

    fn unscale(a: (Self, Self), by: Self) -> (Self, Self) {
        pair(complex(a) / by.0)
    }

    fn magnify(a: (Self, Self), by: usize) -> (Self, Self) {
        pair(by as f64 * complex(a))
    }

    fn norm_sqr(a: (Self, Self)) -> Self {
        F(complex(a).norm_sqr())
    }
}

fn times(a: (f64, f64), b: (f64, f64)) -> (f64, f64) {
    let product = Complex::new(a.0, a.1) * Complex::new(b.0, b.1);
    (product.re, product.im)
}

fn left() -> [(F, F); 8] {
    [
        c(1.0, 2.0),
        c(-3.0, 0.5),
        c(0.0, 0.0),
        c(7.25, -8.0),
        c(1.0e10, 1.0e-10),
        c(0.1, 0.2),
        c(-1.0, -1.0),
        c(2.0, 0.0),
    ]
}

fn right() -> [(F, F); 8] {
    [
        c(0.5, 0.5),
        c(2.0, -2.0),
        c(9.0, 9.0),
        c(0.0, 1.0),
        c(1.0, 1.0),
        c(0.3, -0.4),
        c(-1.0, 1.0),
        c(0.0, 2.0),
    ]
}

fn lanes(batch: Complex8<F>) -> [(F, F); 8] {
    batch.into()
}

#[test]
fn test_from_complex8() {
    let arr = [
        (1.0, 2.0),
        (3.0, 4.0),
        (5.0, 6.0),
        (7.0, 8.0),
        (9.0, 10.0),
        (11.0, 12.0),
        (13.0, 14.0),
        (15.0, 16.0),
    ];
    let combined = Complex8::from(arr.clone());
    assert_eq!(combined.re, [1.0, 3.0, 5.0, 7.0, 9.0, 11.0, 13.0, 15.0]);
    assert_eq!(combined.im, [2.0, 4.0, 6.0, 8.0, 10.0, 12.0, 14.0, 16.0]);
    let arr2: [(f64, f64); 8] = combined.into();
    assert_eq!(arr2, arr);
}

#[test]
fn round_trip_keeps_values_and_order() {
    let arr = [
        (0.5, -0.25),
        (-1.0e300, 1.0e-300),
        (0.0, -0.0),
        (3.25, 7.0),
        (-2.0, -2.0),
        (1.0, 0.0),
        (0.0, 1.0),
        (123456.789, -0.001),
    ];
    let back: [(f64, f64); 8] = Complex8::from(arr).into();
    for lane in 0..8 {
        assert_eq!(back[lane].0.to_bits(), arr[lane].0.to_bits());
        assert_eq!(back[lane].1.to_bits(), arr[lane].1.to_bits());
    }
}

#[test]
fn round_trip_works_for_any_lane_type() {
    let arr = [(1u8, 2u8), (3, 4), (5, 6), (7, 8), (9, 10), (11, 12), (13, 14), (15, 16)];
    let batch = Complex8::from(arr);
    assert_eq!(batch.re, [1, 3, 5, 7, 9, 11, 13, 15]);
    assert_eq!(batch.im, [2, 4, 6, 8, 10, 12, 14, 16]);
    let back: [(u8, u8); 8] = batch.into();
    assert_eq!(back, arr);
}

#[test]
fn from_complex_fills_every_lane() {
    let batch = Complex8::from_complex((1.5, -0.5));
    assert_eq!(batch.re, [1.5; 8]);
    assert_eq!(batch.im, [-0.5; 8]);
}

#[test]
fn map_works_on_each_lane_by_itself() {
    let arr = [
        (1.0, 2.0),
        (3.0, 4.0),
        (5.0, 6.0),
        (7.0, 8.0),
        (9.0, 10.0),
        (11.0, 12.0),
        (13.0, 14.0),
        (15.0, 16.0),
    ];
    let doubled = Complex8::from(arr).map(|z: (f64, f64)| (z.0 * 2.0, z.1 * 2.0));
    assert_eq!(doubled.re, [2.0, 6.0, 10.0, 14.0, 18.0, 22.0, 26.0, 30.0]);
    assert_eq!(doubled.im, [4.0, 8.0, 12.0, 16.0, 20.0, 24.0, 28.0, 32.0]);
}

#[test]
fn zip_with_agrees_with_eight_single_products() {
    let left = [
        (1.0, 2.0),
        (-3.0, 0.5),
        (0.0, 0.0),
        (7.25, -8.0),
        (1.0e10, 1.0e-10),
        (0.1, 0.2),
        (-1.0, -1.0),
        (2.0, 0.0),
    ];
    let right = [
        (0.5, 0.5),
        (2.0, -2.0),
        (9.0, 9.0),
        (0.0, 1.0),
        (1.0, 1.0),
        (0.3, -0.4),
        (-1.0, 1.0),
        (0.0, 2.0),
    ];
    let product = Complex8::from(left).zip_with(Complex8::from(right), times);
    let values: [(f64, f64); 8] = product.into();
    for lane in 0..8 {
        assert_eq!(values[lane], times(left[lane], right[lane]));
    }
    assert_eq!(values[0], (-0.5, 1.5));
    assert_eq!(values[7], (0.0, 4.0));
}

#[test]
fn zip_with_a_broadcast_value_scales_every_lane() {
    let arr = [(1.0, 0.0), (0.0, 1.0), (2.0, 2.0), (3.0, -1.0), (0.0, 0.0), (-1.0, 0.0), (0.5, 0.5), (4.0, 4.0)];
    let turned = Complex8::from(arr).zip_with(Complex8::from_complex((0.0, 1.0)), times);
    let values: [(f64, f64); 8] = turned.into();
    assert_eq!(values[0], (0.0, 1.0));
    assert_eq!(values[1], (-1.0, 0.0));
    assert_eq!(values[2], (-2.0, 2.0));
    assert_eq!(values[3], (1.0, 3.0));
}

#[test]
fn batch_arithmetic_is_the_arithmetic_of_each_lane() {
    let a = Complex8::from(left());
    let b = Complex8::from(right());
    for lane in 0..8 {
        assert_eq!(lanes(a.plus(b))[lane], F::plus(left()[lane], right()[lane]));
        assert_eq!(lanes(a.minus(b))[lane], F::minus(left()[lane], right()[lane]));
        assert_eq!(lanes(a.times(b))[lane], F::times(left()[lane], right()[lane]));
        assert_eq!(lanes(a.over(b))[lane], F::over(left()[lane], right()[lane]));
        assert_eq!(lanes(a.scale(F(2.5)))[lane], F::scale(left()[lane], F(2.5)));
        assert_eq!(lanes(a.unscale(F(2.5)))[lane], F::unscale(left()[lane], F(2.5)));
        assert_eq!(a.norm()[lane], F::norm_sqr(left()[lane]));
    }
}

#[test]
fn batch_arithmetic_uses_the_complex_formulas() {
    let a = Complex8::from(left());
    let b = Complex8::from(right());
    assert_eq!(lanes(a.plus(b))[0], c(1.5, 2.5));
    assert_eq!(lanes(a.minus(b))[0], c(0.5, 1.5));
    // (1 + 2i)(0.5 + 0.5i) = -0.5 + 1.5i
    assert_eq!(lanes(a.times(b))[0], c(-0.5, 1.5));
    // (1 + 2i) / (0.5 + 0.5i) = 3 + i
    assert_eq!(lanes(a.over(b))[0], c(3.0, 1.0));
    // (7.25 - 8i) / i = -8 - 7.25i
    assert_eq!(lanes(a.over(b))[3], c(-8.0, -7.25));
    assert_eq!(lanes(a.scale(F(2.0)))[3], c(14.5, -16.0));
    assert_eq!(lanes(a.unscale(F(2.0)))[3], c(3.625, -4.0));
    assert_eq!(a.norm()[0], F(5.0));
    assert_eq!(a.norm()[6], F(2.0));
}

#[test]
fn division_by_zero_follows_the_floats() {
    let a = Complex8::from(left());
    let zero = Complex8::from_complex(c(0.0, 0.0));
    let quotient = lanes(a.over(zero));
    for lane in 0..8 {
        assert!(!quotient[lane].0 .0.is_finite());
        assert!(!quotient[lane].1 .0.is_finite());
    }
}

#[test]
fn norm_lt_compares_the_squared_magnitude() {
    let a = Complex8::from(left());
    // The squared magnitudes are 5, 9.25, 0, 116.5625, 1e20, 0.05, 2 and 4.
    assert_eq!(a.norm_lt(F(4.0)), [false, false, true, false, false, true, true, false]);
    assert_eq!(a.norm_lt(F(0.0)), [false; 8]);
    assert_eq!(a.norm_lt(F(f64::NAN)), [false; 8]);
    assert_eq!(a.norm_lt(F(f64::INFINITY)), [true; 8]);
}
