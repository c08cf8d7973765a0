use newton_fractal::config::{RenderSettings, SettingsError};

fn sample() -> RenderSettings {
    RenderSettings {
        width: 3240,
        height: 4050,
        roots: 9,
        iterations: 1000,
        stride: 10,
        workers: 16,
        blur_radius: 4,
        batched: false,
    }
}

#[test]
fn good_settings_pass() {
    assert_eq!(sample().check(), Ok(()));
    assert_eq!(sample().cells(), 13_122_000);
    let small = RenderSettings { width: 1, height: 1, roots: 1, iterations: 1, stride: 1, workers: 1, blur_radius: 0, batched: true };
    assert_eq!(small.check(), Ok(()));
    assert_eq!(small.cells(), 1);
}

#[test]
fn a_grid_without_columns_is_refused() {
    assert_eq!(RenderSettings { width: 0, ..sample() }.check(), Err(SettingsError::NoColumns));
}

#[test]
fn a_grid_without_rows_is_refused() {
    assert_eq!(RenderSettings { height: 0, ..sample() }.check(), Err(SettingsError::NoRows));
}

#[test]
fn a_grid_with_too_many_cells_is_refused() {
    let huge = RenderSettings { width: usize::MAX, height: 2, ..sample() };
    assert_eq!(huge.check(), Err(SettingsError::TooManyCells));
    let largest = RenderSettings { width: usize::MAX, height: 1, ..sample() };
    assert_eq!(largest.check(), Ok(()));
    assert_eq!(largest.cells(), usize::MAX);
}

#[test]
fn an_empty_list_of_roots_is_refused() {
    assert_eq!(RenderSettings { roots: 0, ..sample() }.check(), Err(SettingsError::NoRoots));
}

#[test]
fn a_cap_of_zero_is_refused() {
    assert_eq!(RenderSettings { iterations: 0, ..sample() }.check(), Err(SettingsError::NoIterations));
}

#[test]
fn a_stride_of_zero_is_refused() {
    assert_eq!(RenderSettings { stride: 0, ..sample() }.check(), Err(SettingsError::NoStride));
}

#[test]
fn a_pool_without_workers_is_refused() {
    assert_eq!(RenderSettings { workers: 0, ..sample() }.check(), Err(SettingsError::NoWorkers));
}

#[test]
fn the_first_fault_is_named() {
    let all_wrong = RenderSettings {
        width: 0,
        height: 0,
        roots: 0,
        iterations: 0,
        stride: 0,
        workers: 0,
        blur_radius: 0,
        batched: false,
    };
    assert_eq!(all_wrong.check(), Err(SettingsError::NoColumns));
    assert_eq!(RenderSettings { width: 2, ..all_wrong }.check(), Err(SettingsError::NoRows));
    assert_eq!(
        RenderSettings { width: 2, height: 2, ..all_wrong }.check(),
        Err(SettingsError::NoRoots)
    );
    assert_eq!(
        RenderSettings { width: 2, height: 2, roots: 1, ..all_wrong }.check(),
        Err(SettingsError::NoIterations)
    );
    assert_eq!(
        RenderSettings { width: 2, height: 2, roots: 1, iterations: 5, ..all_wrong }.check(),
        Err(SettingsError::NoStride)
    );
    assert_eq!(
        RenderSettings { width: 2, height: 2, roots: 1, iterations: 5, stride: 1, ..all_wrong }
            .check(),
        Err(SettingsError::NoWorkers)
    );
}
