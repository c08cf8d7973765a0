use distance_transform::dt2d;
use newton_fractal::edge::{edge_map, is_edge};

#[test]
fn uniform_table_has_no_edge() {
    let table = vec![3usize; 12];
    for y in 0..3 {
        for x in 0..4 {
            assert!(!is_edge(x, y, &table, 4, 3));
        }
    }
}

#[test]
fn single_cell_has_no_edge() {
    assert!(!is_edge(0, 0, &[5], 1, 1));
}

#[test]
fn each_of_the_eight_neighbours_makes_an_edge() {
    for ny in 0..3usize {
        for nx in 0..3usize {
            let mut table = vec![0usize; 9];
            table[ny * 3 + nx] = 1;
            assert!(is_edge(1, 1, &table, 3, 3), "neighbour {} {}", nx, ny);
        }
    }
}

#[test]
fn a_cell_two_steps_away_makes_no_edge() {
    let mut table = vec![0usize; 25];
    table[0] = 1;
    assert!(!is_edge(2, 2, &table, 5, 5));
    assert!(!is_edge(2, 0, &table, 5, 5));
    assert!(!is_edge(0, 2, &table, 5, 5));
    assert!(is_edge(1, 1, &table, 5, 5));
}

#[test]
fn border_cells_look_at_cells_inside_the_grid_only() {
    let rows = vec![7, 7, 7, 9, 9, 9];
    let wide = vec![7, 7, 9, 7, 7, 9];
    for x in 0..3 {
        assert!(is_edge(x, 0, &rows, 3, 2));
        assert!(is_edge(x, 1, &rows, 3, 2));
    }
    // The last cell of a row and the first cell of the next row lie side by
    // side in the table and are no neighbours in the grid.
    assert!(!is_edge(0, 0, &wide, 3, 2));
    assert!(!is_edge(0, 1, &wide, 3, 2));
    assert!(is_edge(1, 0, &wide, 3, 2));
    assert!(is_edge(2, 1, &wide, 3, 2));
    let column = vec![4, 4, 5, 5];
    assert!(!is_edge(0, 0, &column, 1, 4));
    assert!(is_edge(0, 1, &column, 1, 4));
    assert!(is_edge(0, 2, &column, 1, 4));
    assert!(!is_edge(0, 3, &column, 1, 4));
}

#[test]
fn edge_map_has_the_sides_of_the_table() {
    let table = vec![0usize; 15];
    let edges = edge_map(&table, 5, 3);
    assert_eq!(edges.width(), 5);
    assert_eq!(edges.height(), 3);
    assert_eq!(edges.to_vec(), vec![false; 15]);
}

#[test]
fn edge_map_of_an_empty_table_is_empty() {
    let edges = edge_map(&[], 0, 4);
    assert_eq!(edges.width(), 0);
    assert_eq!(edges.height(), 4);
    assert!(edges.to_vec().is_empty());
}

#[test]
fn edge_map_marks_the_ring_around_a_lone_pixel() {
    let mut table = vec![0usize; 49];
    table[3 * 7 + 3] = 1;
    let edges = edge_map(&table, 7, 7);
    for y in 0..7usize {
        for x in 0..7usize {
            let near = (2..=4).contains(&x) && (2..=4).contains(&y);
            assert_eq!(*edges.get(x, y).unwrap(), near);
            assert_eq!(is_edge(x, y, &table, 7, 7), near);
        }
    }
}

#[test]
fn edge_map_agrees_with_is_edge_on_a_grid_that_is_not_square() {
    let width = 5usize;
    let height = 3usize;
    let table: Vec<usize> = (0..width * height).map(|i| (i * 7 / 4) % 3).collect();
    let edges = edge_map(&table, width, height);
    for y in 0..height {
        for x in 0..width {
            assert_eq!(*edges.get(x, y).unwrap(), is_edge(x, y, &table, width, height));
        }
    }
}

#[test]
fn lone_pixel_in_a_corner_has_three_edge_neighbours() {
    let mut table = vec![2usize; 16];
    table[0] = 0;
    let edges = edge_map(&table, 4, 4);
    let mut marked = Vec::new();
    for y in 0..4usize {
        for x in 0..4usize {
            if *edges.get(x, y).unwrap() {
                marked.push((x, y));
            }
        }
    }
    assert_eq!(marked, vec![(0, 0), (1, 0), (0, 1), (1, 1)]);
}

#[test]
fn distance_is_zero_at_a_lone_pixel_and_grows_away_from_it() {
    let size = 11usize;
    let mut table = vec![0usize; size * size];
    table[5 * size + 5] = 1;
    let edges = edge_map(&table, size, size);
    let distance = dt2d(&edges);
    assert_eq!(*distance.get(5, 5).unwrap(), 0.0);
    // The ring of neighbours is made of edges too; beyond it the squared
    // distance grows with every step.
    let along_row: Vec<f64> = (5..size).map(|x| *distance.get(x, 5).unwrap()).collect();
    assert_eq!(along_row, vec![0.0, 0.0, 1.0, 4.0, 9.0, 16.0]);
    let along_column: Vec<f64> = (0..=5).rev().map(|y| *distance.get(5, y).unwrap()).collect();
    assert_eq!(along_column, vec![0.0, 0.0, 1.0, 4.0, 9.0, 16.0]);
    let along_diagonal: Vec<f64> = (5..size).map(|k| *distance.get(k, k).unwrap()).collect();
    assert_eq!(along_diagonal, vec![0.0, 0.0, 2.0, 8.0, 18.0, 32.0]);
    for step in 1..5 {
        assert!(along_row[step] < along_row[step + 1]);
        assert!(along_column[step] < along_column[step + 1]);
        assert!(along_diagonal[step] < along_diagonal[step + 1]);
    }
}
