use gridmap::grid::Grid;
use gridmap::grid1::Grid1;

#[test]
fn test_iter_mut() {
    let grid: Grid1<u32> = Grid1::with_size(100, 100);

    let mut it = grid.iter_mut();
    let mut idx: usize = 0;
    while let Some((x, y)) = it.next() {
        assert_eq!(y * 100 + x, idx);
        it.write(idx as u32);
        idx += 1;
    }
    let grid = it.into_grid();

    assert_eq!(*grid.get(0, 0), 0);
    assert_eq!(*grid.get(99, 0), 99);
    assert_eq!(*grid.get(0, 2), 200);
    assert_eq!(*grid.get(99, 99), 9999);
}

#[test]
fn test_iter() {
    let mut grid: Grid1<u32> = Grid1::with_size(100, 100);

    let mut idx = 0;
    for y in 0..100 {
        for x in 0..100 {
            grid.set(x, y, idx);
            idx += 1;
        }
    }

    let mut sum = 0;
    let mut it = grid.iter();
    while let Some((x, y, i)) = it.next() {
        assert_eq!(y * 100 + x, *i as usize);
        sum += i;
    }

    assert_eq!(sum, (100 * 100 / 2) * ((100 * 100) - 1));
}

#[test]
fn iteration_yields_width_times_height() {
    let grid: Grid1<u32> = Grid1::with_size(3, 4);
    let mut it = grid.iter();
    let mut count = 0;
    while let Some(_) = it.next() {
        count += 1;
    }
    assert_eq!(count, 12);

    let mut it = grid.iter_mut();
    let mut count = 0;
    while let Some(_) = it.next() {
        count += 1;
    }
    assert_eq!(count, 12);
}

#[test]
fn degenerate_grids_yield_nothing() {
    let empty_width: Grid1<u32> = Grid1::with_size(0, 5);
    let mut it = empty_width.iter();
    assert!(it.next().is_none());

    let empty_height: Grid1<u32> = Grid1::with_size(5, 0);
    let mut it = empty_height.iter();
    assert!(it.next().is_none());
    let mut it = empty_height.iter_mut();
    assert!(it.next().is_none());
}

#[test]
fn iteration_is_row_major_and_restartable() {
    let mut grid: Grid1<u32> = Grid1::with_size(2, 2);
    grid.set(0, 0, 10);
    grid.set(1, 0, 11);
    grid.set(0, 1, 12);
    grid.set(1, 1, 13);

    for _round in 0..2 {
        let mut it = grid.iter();
        assert_eq!(it.next().map(|(x, y, v)| (x, y, *v)), Some((0, 0, 10)));
        assert_eq!(it.next().map(|(x, y, v)| (x, y, *v)), Some((1, 0, 11)));
        assert_eq!(it.next().map(|(x, y, v)| (x, y, *v)), Some((0, 1, 12)));
        assert_eq!(it.next().map(|(x, y, v)| (x, y, *v)), Some((1, 1, 13)));
        assert!(it.next().is_none());
        assert!(it.next().is_none());
    }
}

#[test]
fn get_mut_writes_one_cell() {
    let mut grid: Grid1<u32> = Grid1::with_size(4, 3);
    *grid.get_mut(2, 1) = 42;
    assert_eq!(*grid.get(2, 1), 42);
    assert_eq!(*grid.get(1, 2), 0);
    assert_eq!(*grid.get(2, 0), 0);
    assert_eq!(*grid.get(3, 2), 0);
}

#[test]
fn with_size_reports_dimensions_and_defaults() {
    let grid: Grid1<u32> = Grid1::with_size(7, 5);
    assert_eq!(grid.width(), 7);
    assert_eq!(grid.height(), 5);
    for y in 0..5 {
        for x in 0..7 {
            assert_eq!(*grid.get(x, y), 0);
        }
    }
}

#[test]
fn mutable_iteration_reads_back_writes() {
    let grid: Grid1<u32> = Grid1::with_size(2, 3);
    let mut it = grid.iter_mut();
    while let Some((x, y)) = it.next() {
        it.write((x + 10 * y) as u32);
        assert_eq!(*it.read(), (x + 10 * y) as u32);
    }
    let grid = it.into_grid();
    assert_eq!(*grid.get(1, 2), 21);
}
