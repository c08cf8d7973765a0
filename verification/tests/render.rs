use newton_fractal::complex8::Complex8;
use newton_fractal::config::RenderSettings;
use newton_fractal::polynomial::Polynomial;
use newton_fractal::row::calc_row;
use newton_fractal::scalar::Scalar;
use newton_fractal::solver::{PolyInfo, Solver};
use newton_fractal::table::commit_row;
use num::complex::Complex;

/// The numbers of the tests: 64-bit floats, with the complex arithmetic of
/// the `num` crate.
#[derive(Clone, Copy, Debug, PartialEq)]
struct F(f64);

fn complex(z: (F, F)) -> Complex<f64> {
    Complex::new(z.0 .0, z.1 .0)
}

fn pair(z: Complex<f64>) -> (F, F) {
    (F(z.re), F(z.im))
}

fn c(re: f64, im: f64) -> (F, F) {
    (F(re), F(im))
}

impl Scalar for F {
    fn zero() -> Self {
        F(0.0)
    }

    fn one() -> Self {
        F(1.0)
    }

    fn nonzero(self) -> bool {
        self.0 != 0.0
    }

    fn equal(self, other: Self) -> bool {
        self.0 == other.0
    }

    fn less(self, other: Self) -> bool {
        self.0 < other.0
    }

    fn sum(self, other: Self) -> Self {
        F(self.0 + other.0)
    }

    fn difference(self, other: Self) -> Self {
        F(self.0 - other.0)
    }

    fn product(self, other: Self) -> Self {
        F(self.0 * other.0)
    }

    fn quotient(self, other: Self) -> Self {
        F(self.0 / other.0)
    }

    fn half(self) -> Self {
        F(self.0 / 2.0)
    }

    fn plus(a: (Self, Self), b: (Self, Self)) -> (Self, Self) {
        pair(complex(a) + complex(b))
    }

    fn minus(a: (Self, Self), b: (Self, Self)) -> (Self, Self) {
        pair(complex(a) - complex(b))
    }

    fn times(a: (Self, Self), b: (Self, Self)) -> (Self, Self) {
        pair(complex(a) * complex(b))
    }

    fn over(a: (Self, Self), b: (Self, Self)) -> (Self, Self) {
        pair(complex(a) / complex(b))
    }

    fn scale(a: (Self, Self), by: Self) -> (Self, Self) {
        pair(complex(a) * by.0)
    }

    fn unscale(a: (Self, Self), by: Self) -> (Self, Self) {
        pair(complex(a) / by.0)
    }

    fn magnify(a: (Self, Self), by: usize) -> (Self, Self) {
        pair(by as f64 * complex(a))
    }

    fn norm_sqr(a: (Self, Self)) -> Self {
        F(complex(a).norm_sqr())
    }
}

struct Scene {
    settings: RenderSettings,
    scale: f64,
    center: Complex<f64>,
    info: PolyInfo<F>,
    solver: Solver<F>,
}

fn scene(width: usize, height: usize, batched: bool) -> Scene {
    let roots = vec![c(1.0, 0.0), c(-1.0, 0.0), c(0.0, 1.0), c(0.0, -1.0)];
    let settings = RenderSettings {
        width,
        height,
        roots: roots.len(),
        iterations: 1000,
        stride: 10,
        workers: 1,
        blur_radius: 4,
        batched,
    };
    assert_eq!(settings.check(), Ok(()));
    let f = Polynomial::from_roots(&roots);
    let df = f.diff();
    let solver = Solver {
        iterations: settings.iterations,
        stride: settings.stride,
        damping: F(1.0),
        epsilon: F(0.02),
    };
    Scene {
        settings,
        scale: 2.0,
        center: Complex::new(0.0, 0.0),
        info: PolyInfo { f, df, roots },
        solver,
    }
}

fn point(scene: &Scene, x: usize, y: usize) -> (F, F) {
    let width = scene.settings.width;
    let height = scene.settings.height;
    pair(
        Complex::new(x as f64 - width as f64 / 2.0, y as f64 - height as f64 / 2.0)
            / width.max(height) as f64
            * 2.0
            * scene.scale
            + scene.center,
    )
}

fn row(scene: &Scene, y: usize) -> Vec<usize> {
    let mut row = vec![usize::MAX; scene.settings.width];
    calc_row(&mut row, &scene.info, &scene.solver, scene.settings.batched, |x: usize| {
        point(scene, x, y)
    });
    row
}

fn render(scene: &Scene, order: &[usize]) -> Vec<usize> {
    let width = scene.settings.width;
    let height = scene.settings.height;
    let mut table = vec![usize::MAX; scene.settings.cells()];
    for &y in order {
        commit_row(&mut table, y, &row(scene, y), width, height);
    }
    table
}

fn in_order(height: usize) -> Vec<usize> {
    (0..height).collect()
}

#[test]
fn four_roots_on_a_grid_of_sixteen_by_sixteen() {
    let scene = scene(16, 16, false);
    let table = render(&scene, &in_order(16));
    assert!(table.iter().all(|&color| color <= 4));
    // The two corners off the diagonals reach a root.
    assert_eq!(table[15], 1);
    assert_eq!(table[15 * 16], 3);
    // The two corners on the diagonals start on the border between two
    // basins and stay on it.
    assert_eq!(table[0], 4);
    assert_eq!(table[15 * 16 + 15], 4);
    let top: Vec<usize> = table[..16].to_vec();
    assert_eq!(top, vec![4, 0, 3, 3, 3, 3, 3, 3, 3, 3, 3, 3, 3, 3, 3, 1]);
    let middle: Vec<usize> = table[8 * 16..9 * 16].to_vec();
    assert_eq!(middle, vec![1, 1, 1, 1, 1, 1, 1, 1, 4, 0, 0, 0, 0, 0, 0, 0]);
}

#[test]
fn the_picture_of_four_roots_turns_into_itself() {
    let scene = scene(16, 16, false);
    let table = render(&scene, &in_order(16));
    // A quarter turn takes the root 1 to i, i to -1, -1 to -i and -i to 1.
    let turned = [2usize, 3, 1, 0, 4];
    for y in 1..16usize {
        for x in 1..16usize {
            let color = table[y * 16 + x];
            assert_eq!(table[x * 16 + (16 - y)], turned[color]);
        }
    }
}

#[test]
fn batches_and_single_pixels_give_the_same_picture() {
    for (width, height) in [(16usize, 16usize), (20, 12)] {
        let single = render(&scene(width, height, false), &in_order(height));
        let batched = render(&scene(width, height, true), &in_order(height));
        assert_eq!(single, batched);
    }
}

#[test]
fn the_order_of_the_rows_does_not_change_the_picture() {
    let scene = scene(12, 10, false);
    let forward = render(&scene, &in_order(10));
    let backward = render(&scene, &[9, 8, 7, 6, 5, 4, 3, 2, 1, 0]);
    let mixed = render(&scene, &[4, 9, 0, 7, 2, 5, 1, 8, 3, 6]);
    assert_eq!(forward, backward);
    assert_eq!(forward, mixed);
    assert!(forward.iter().all(|&color| color <= 4));
}

#[test]
fn calc_row_asks_for_the_start_of_each_pixel_it_takes() {
    let scene = scene(20, 1, true);
    let asked = std::cell::RefCell::new(Vec::new());
    let mut row = vec![usize::MAX; 20];
    calc_row(&mut row, &scene.info, &scene.solver, true, |x: usize| {
        asked.borrow_mut().push(x);
        c(1.0, 0.0)
    });
    // Two batches, then the single pixels from column 9 on.
    let mut expected: Vec<usize> = (0..16).collect();
    expected.extend(9..20);
    assert_eq!(*asked.borrow(), expected);
    assert_eq!(row, vec![0; 20]);

    let mut narrow = vec![usize::MAX; 7];
    calc_row(&mut narrow, &scene.info, &scene.solver, true, |x: usize| {
        if x % 2 == 0 {
            c(0.0, 1.0)
        } else {
            c(-1.0, 0.0)
        }
    });
    assert_eq!(narrow, vec![2, 1, 2, 1, 2, 1, 2]);

    let empty: &mut [usize] = &mut [];
    calc_row(empty, &scene.info, &scene.solver, true, |_| c(0.0, 0.0));
}

#[test]
fn single_pixels_write_over_the_columns_of_the_last_batch() {
    // The start depends on whether the column is asked for the first or the
    // second time: the first time it lies at the root 1, then at the root i.
    let scene = scene(8, 1, true);
    let asked = std::cell::RefCell::new(vec![0usize; 8]);
    let mut row = vec![usize::MAX; 8];
    calc_row(&mut row, &scene.info, &scene.solver, true, |x: usize| {
        asked.borrow_mut()[x] += 1;
        if asked.borrow()[x] == 1 {
            c(1.0, 0.0)
        } else {
            c(0.0, 1.0)
        }
    });
    assert_eq!(row, vec![0, 2, 2, 2, 2, 2, 2, 2]);
}

#[test]
fn batched_evaluation_agrees_with_eight_single_evaluations() {
    let p = Polynomial::new(&[c(-1.0, 0.5), c(0.25, 0.0), c(0.0, -3.0), c(2.0, 2.0), c(1.0, 0.0)]);
    let points = [
        c(0.0, 0.0),
        c(1.0, 0.0),
        c(0.0, 1.0),
        c(-1.5, 0.75),
        c(0.3, -0.4),
        c(1.0e3, -1.0e3),
        c(1.0e-3, 2.0e-3),
        c(-2.0, -2.0),
    ];
    let batch: [(F, F); 8] = p.eval8(Complex8::from(points)).into();
    for lane in 0..8 {
        let single = p.eval(points[lane]);
        assert_eq!(batch[lane], single);
        let tolerance = 1.0e-9 * complex(single).norm().max(1.0);
        assert!((complex(batch[lane]) - complex(single)).norm() <= tolerance);
    }
    assert_eq!(batch[0], c(-1.0, 0.5));
    // 1 - 1 + 0.25 + 2 = 2.25 and 0.5 - 3 + 2 = -0.5
    assert_eq!(batch[1], c(2.25, -0.5));
}
