use newton_fractal::scalar::Scalar;
use newton_fractal::stencil::{
    blur_window, difference_stencil, discrete_nabla, gaussian_blur, Stencil, Window,
};
use num::complex::Complex;

/// The numbers of the tests: 64-bit floats, with the complex arithmetic of
/// the `num` crate.
#[derive(Clone, Copy, Debug, PartialEq)]
struct F(f64);

fn complex(z: (F, F)) -> Complex<f64> {
    Complex::new(z.0 .0, z.1 .0)
}

fn pair(z: Complex<f64>) -> (F, F) {
    (F(z.re), F(z.im))
}

fn c(re: f64, im: f64) -> (F, F) {
    (F(re), F(im))
}

impl Scalar for F {
    fn zero() -> Self {
        F(0.0)
    }

    fn one() -> Self {
        F(1.0)
    }

    fn nonzero(self) -> bool {
        self.0 != 0.0
    }

    fn equal(self, other: Self) -> bool {
        self.0 == other.0
    }

    fn less(self, other: Self) -> bool {
        self.0 < other.0
    }

    fn sum(self, other: Self) -> Self {
        F(self.0 + other.0)
    }

    fn difference(self, other: Self) -> Self {
        F(self.0 - other.0)
    }

    fn product(self, other: Self) -> Self {
        F(self.0 * other.0)
    }

    fn quotient(self, other: Self) -> Self {
        F(self.0 / other.0)
    }

    fn half(self) -> Self {
        F(self.0 / 2.0)
    }

    fn plus(a: (Self, Self), b: (Self, Self)) -> (Self, Self) {
        pair(complex(a) + complex(b))
    }

    fn minus(a: (Self, Self), b: (Self, Self)) -> (Self, Self) {
        pair(complex(a) - complex(b))
    }

    fn times(a: (Self, Self), b: (Self, Self)) -> (Self, Self) {
        pair(complex(a) * complex(b))
    }

    fn over(a: (Self, Self), b: (Self, Self)) -> (Self, Self) {
        pair(complex(a) / complex(b))
    }

    fn scale(a: (Self, Self), by: Self) -> (Self, Self) {
        pair(complex(a) * by.0)
    }

    fn unscale(a: (Self, Self), by: Self) -> (Self, Self) {
        pair(complex(a) / by.0)
    }

    fn magnify(a: (Self, Self), by: usize) -> (Self, Self) {
        pair(by as f64 * complex(a))
    }

    fn norm_sqr(a: (Self, Self)) -> Self {
        F(complex(a).norm_sqr())
    }
}

fn field(values: &[f64]) -> Vec<F> {
    values.iter().map(|&v| F(v)).collect()
}

fn values(field: &[F]) -> Vec<f64> {
    field.iter().map(|v| v.0).collect()
}


#[test]
fn first_cell_takes_a_forward_difference() {
    assert_eq!(difference_stencil(0, 5), Some(Stencil { minus: 0, plus: 1, halved: false }));
    assert_eq!(difference_stencil(0, 2), Some(Stencil { minus: 0, plus: 1, halved: false }));
}

#[test]
fn last_cell_takes_a_backward_difference() {
    assert_eq!(difference_stencil(4, 5), Some(Stencil { minus: 3, plus: 4, halved: false }));
    assert_eq!(difference_stencil(1, 2), Some(Stencil { minus: 0, plus: 1, halved: false }));
}

#[test]
fn inner_cells_take_a_centred_difference() {
    assert_eq!(difference_stencil(1, 5), Some(Stencil { minus: 0, plus: 2, halved: true }));
    assert_eq!(difference_stencil(3, 5), Some(Stencil { minus: 2, plus: 4, halved: true }));
}

#[test]
fn no_stencil_without_a_second_cell_or_outside_the_axis() {
    assert_eq!(difference_stencil(0, 0), None);
    assert_eq!(difference_stencil(0, 1), None);
    assert_eq!(difference_stencil(5, 5), None);
    assert_eq!(difference_stencil(usize::MAX, 5), None);
    assert_eq!(difference_stencil(usize::MAX, usize::MAX), None);
}

#[test]
fn window_in_the_middle_uses_every_tap() {
    assert_eq!(blur_window(10, 30, 4), Window { first_tap: 0, last_tap: 8, first_cell: 6 });
    assert_eq!(blur_window(4, 9, 4), Window { first_tap: 0, last_tap: 8, first_cell: 0 });
}

#[test]
fn window_is_cut_at_the_ends_of_the_axis() {
    assert_eq!(blur_window(0, 30, 4), Window { first_tap: 4, last_tap: 8, first_cell: 0 });
    assert_eq!(blur_window(1, 30, 4), Window { first_tap: 3, last_tap: 8, first_cell: 0 });
    assert_eq!(blur_window(29, 30, 4), Window { first_tap: 0, last_tap: 4, first_cell: 25 });
    assert_eq!(blur_window(27, 30, 4), Window { first_tap: 0, last_tap: 6, first_cell: 23 });
    assert_eq!(blur_window(1, 3, 4), Window { first_tap: 3, last_tap: 5, first_cell: 0 });
    assert_eq!(blur_window(0, 1, 255), Window { first_tap: 255, last_tap: 255, first_cell: 0 });
}

#[test]
fn window_of_radius_zero_is_the_cell_itself() {
    assert_eq!(blur_window(7, 9, 0), Window { first_tap: 0, last_tap: 0, first_cell: 7 });
}

#[test]
fn window_holds_exactly_the_taps_over_the_axis() {
    for n in 1..12usize {
        for i in 0..n {
            for radius in 0..6u8 {
                let window = blur_window(i, n, radius);
                let r = radius as isize;
                for tap in 0..=2 * r {
                    let cell = i as isize + tap - r;
                    let over = 0 <= cell && cell < n as isize;
                    let used = window.first_tap as isize <= tap && tap <= window.last_tap as isize;
                    assert_eq!(over, used);
                }
                assert_eq!(window.first_cell as isize, i as isize + window.first_tap as isize - r);
            }
        }
    }
}

#[test]
fn nabla_takes_one_sided_differences_at_the_borders() {
    // The value in column x of row y is x * x + 10 * y.
    let f = field(&[0.0, 1.0, 4.0, 10.0, 11.0, 14.0, 20.0, 21.0, 24.0]);
    assert_eq!(discrete_nabla(&f, 3, 3, 0, 0), Some((F(1.0), F(10.0))));
    assert_eq!(discrete_nabla(&f, 3, 3, 2, 0), Some((F(3.0), F(10.0))));
    assert_eq!(discrete_nabla(&f, 3, 3, 0, 2), Some((F(1.0), F(10.0))));
    assert_eq!(discrete_nabla(&f, 3, 3, 2, 2), Some((F(3.0), F(10.0))));
}

#[test]
fn nabla_takes_centred_differences_inside() {
    let f = field(&[0.0, 1.0, 4.0, 10.0, 11.0, 14.0, 20.0, 21.0, 24.0]);
    assert_eq!(discrete_nabla(&f, 3, 3, 1, 1), Some((F(2.0), F(10.0))));
    assert_eq!(discrete_nabla(&f, 3, 3, 1, 0), Some((F(2.0), F(10.0))));
    assert_eq!(discrete_nabla(&f, 3, 3, 0, 1), Some((F(1.0), F(10.0))));
    let ramp = field(&[0.0, 1.0, 4.0, 9.0, 0.0, 3.0, 12.0, 27.0]);
    assert_eq!(discrete_nabla(&ramp, 4, 2, 2, 0), Some((F(4.0), F(8.0))));
    assert_eq!(discrete_nabla(&ramp, 4, 2, 1, 1), Some((F(6.0), F(2.0))));
}

#[test]
fn there_is_no_nabla_outside_the_field_or_on_a_thin_field() {
    let f = field(&[0.0, 1.0, 4.0, 10.0, 11.0, 14.0]);
    assert_eq!(discrete_nabla(&f, 3, 2, 3, 0), None);
    assert_eq!(discrete_nabla(&f, 3, 2, 0, 2), None);
    assert_eq!(discrete_nabla(&f, 6, 1, 2, 0), None);
    assert_eq!(discrete_nabla(&f, 1, 6, 0, 2), None);
    assert_eq!(discrete_nabla(&[] as &[F], 0, 0, 0, 0), None);
    assert!(discrete_nabla(&f, 3, 2, 2, 1).is_some());
}

#[test]
fn blur_takes_the_mean_over_the_weights_that_lie_over_the_field() {
    let kernel = field(&[1.0, 2.0, 1.0]);
    let mut row = field(&[0.0, 4.0, 8.0]);
    gaussian_blur(&mut row, 3, 1, &kernel, 1);
    // Along the row the ends use two weights; along the column only the
    // middle weight lies over the field.
    let first = (0.0 * 2.0 + 4.0 * 1.0) / (2.0 + 1.0);
    let last = (4.0 * 1.0 + 8.0 * 2.0) / (1.0 + 2.0);
    assert_eq!(values(&row), vec![first * 2.0 / 2.0, 4.0, last * 2.0 / 2.0]);

    let mut column = field(&[0.0, 4.0, 8.0]);
    gaussian_blur(&mut column, 1, 3, &kernel, 1);
    assert_eq!(values(&column), vec![first, 4.0, last]);
}

#[test]
fn blur_spreads_a_point_along_rows_and_columns() {
    let kernel = field(&[1.0, 2.0, 1.0]);
    let mut map = field(&[0.0; 25]);
    map[12] = F(1.0);
    gaussian_blur(&mut map, 5, 5, &kernel, 1);
    let expected = vec![
        0.0, 0.0, 0.0, 0.0, 0.0, //
        0.0, 0.0625, 0.125, 0.0625, 0.0, //
        0.0, 0.125, 0.25, 0.125, 0.0, //
        0.0, 0.0625, 0.125, 0.0625, 0.0, //
        0.0, 0.0, 0.0, 0.0, 0.0,
    ];
    assert_eq!(values(&map), expected);
}

#[test]
fn blur_keeps_a_level_field_level() {
    let kernel = field(&[0.25, 1.0, 4.0, 1.0, 0.25]);
    let mut map = field(&[3.0; 12]);
    gaussian_blur(&mut map, 4, 3, &kernel, 2);
    assert_eq!(values(&map), vec![3.0; 12]);
    let mut empty: Vec<F> = Vec::new();
    gaussian_blur(&mut empty, 0, 7, &kernel, 2);
    assert!(empty.is_empty());
}

#[test]
fn blur_of_radius_zero_changes_nothing() {
    let mut map = field(&[1.0, 2.0, 3.0, 4.0]);
    gaussian_blur(&mut map, 2, 2, &field(&[5.0]), 0);
    assert_eq!(values(&map), vec![1.0, 2.0, 3.0, 4.0]);
}

#[test]
fn blur_runs_the_rows_before_the_columns() {
    // With a kernel that is not symmetric the order of the passes shows at
    // the borders.
    let kernel = field(&[1.0, 1.0, 0.0]);
    let mut map = field(&[1.0, 2.0, 3.0, 4.0]);
    gaussian_blur(&mut map, 2, 2, &kernel, 1);
    // Rows: [1, 1.5, 3, 3.5]; then columns: [1, 1.5, 2, 2.5].
    assert_eq!(values(&map), vec![1.0, 1.5, 2.0, 2.5]);
}
