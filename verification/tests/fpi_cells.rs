use tso_engine::fpi::FpiConfig;
use tso_engine::grid_cells::GridCells;

fn cell_id(gc: &GridCells, x: usize, y: usize) -> f64 {
    let (n, d) = gc.cell_fraction(x, y);
    n as f64 / d as f64
}

#[test]
fn fpi_default_runs_ten_iterations() {
    assert_eq!(FpiConfig::default().num_iter, 10);
}

#[test]
fn test_cell_id_within_bounds() {
    let gc = GridCells::new(5, 5);
    let id = cell_id(&gc, 2, 3);
    assert!(id >= 0.0 && id <= 1.0, "cell_id={id} should be in [0,1]");
}

#[test]
fn test_cell_id_out_of_bounds() {
    let gc = GridCells::new(5, 5);
    assert_eq!(cell_id(&gc, 10, 10), 0.0);
}

#[test]
fn test_cell_ids_are_unique() {
    let gc = GridCells::new(5, 5);
    let mut ids: Vec<f64> = Vec::new();
    for x in 0..5 {
        for y in 0..5 {
            ids.push(cell_id(&gc, x, y));
        }
    }
    ids.sort_by(|a, b| a.partial_cmp(b).unwrap());
    ids.dedup();
    assert_eq!(ids.len(), 25, "should have 25 unique cell_ids");
}

#[test]
fn test_extra_dim_auto_configure() {
    let mut gc = GridCells::new(5, 5);
    assert_eq!(gc.extra_dim(), 0, "5×5=25 ≤ 36, no cells needed");
    gc.auto_configure(7, 7);
    assert_eq!(gc.extra_dim(), 1, "7×7=49 > 36, cells needed");
}

#[test]
fn test_force_on_off() {
    let mut gc = GridCells::new(5, 5);
    assert_eq!(gc.extra_dim(), 0);
    gc.force_on(5, 5);
    assert_eq!(gc.extra_dim(), 1);
    gc.force_off();
    assert_eq!(gc.extra_dim(), 0);
}

#[test]
fn test_auto_configure_recalculates() {
    let mut gc = GridCells::new(7, 7);
    assert_eq!(gc.extra_dim(), 1);
    gc.auto_configure(3, 3);
    assert_eq!(gc.extra_dim(), 0, "3×3=9 ≤ 36");
    let id = cell_id(&gc, 1, 1);
    let expected = (1.0 * 3.0 + 1.0) / 9.0;
    assert!((id - expected).abs() < 0.001, "cell_id at (1,1) in 3×3 should be ~{expected:.3} (got {id})");
}

#[test]
fn cell_fraction_is_exact() {
    let mut gc = GridCells::new(7, 7);
    gc.force_on(7, 7);
    assert_eq!(gc.cell_fraction(3, 4), (25, 49));
    assert_eq!(gc.cell_fraction(0, 0), (0, 49));
    assert_eq!(gc.cell_fraction(6, 6), (48, 49));
    assert_eq!(gc.cell_fraction(7, 0), (0, 1));
}

#[test]
fn dim_with_cells_adds_active_dims() {
    let mut gc = GridCells::new(7, 7);
    assert_eq!(gc.dim_with_cells(4), 5);
    gc.force_off();
    assert_eq!(gc.dim_with_cells(4), 4);
}

#[test]
fn threshold_is_strictly_above_36() {
    assert_eq!(GridCells::new(6, 6).extra_dim(), 0);
    assert_eq!(GridCells::new(1, 37).extra_dim(), 1);
}
