use ahash::AHashSet;
use gridpath::regions;
use gridpath::regions::PerimeterRule;
use gridpath::regions::RegionError;

#[test]
fn five_regions_by_edges() {
    // regions A, B, C, D, E with areas 4, 4, 4, 1, 3 and edge perimeters
    // 10, 8, 10, 4, 8
    let input = "AAAA\nBBCD\nBBCC\nEEEC";
    assert_eq!(regions::part1(input), Ok(140));
}

#[test]
fn five_regions_by_corners() {
    let input = "AAAA\nBBCD\nBBCC\nEEEC";
    assert_eq!(regions::part2(input), Ok(80));
}

#[test]
fn larger_field_both_rules() {
    let input = "RRRRIICCFF\nRRRRIICCCF\nVVRRRCCFFF\nVVRCCCJFFF\nVVVVCJJCFE\nVVIVCCJJEE\nVVIIICJJEE\nMIIIIIJJEE\nMIIISIJEEE\nMMMISSJEEE";
    assert_eq!(regions::part1(input), Ok(1930));
    assert_eq!(regions::part2(input), Ok(1206));
}

#[test]
fn enclosed_rectangle_has_four_corners() {
    // a single fully-enclosed 2 x 3 rectangle: raw edge perimeter
    // 2 * (2 + 3) = 10, corner count 4
    let input = "OOOOO\nOIIIO\nOIIIO\nOOOOO";
    let grid = regions::parse(input).unwrap();
    let mut seen: AHashSet<(usize, usize)> = AHashSet::new();
    let (perimeter, area) =
        regions::calc_perimeter_and_area(&grid, &mut seen, (1, 1), 'I', PerimeterRule::Edges)
            .unwrap();
    assert_eq!(area, 6);
    assert_eq!(perimeter, 10);
    let mut seen2: AHashSet<(usize, usize)> = AHashSet::new();
    let (corners, area2) =
        regions::calc_perimeter_and_area(&grid, &mut seen2, (1, 1), 'I', PerimeterRule::Corners)
            .unwrap();
    assert_eq!(area2, 6);
    assert_eq!(corners, 4);
}

#[test]
fn single_cell_region() {
    let grid = regions::parse("A").unwrap();
    let mut seen: AHashSet<(usize, usize)> = AHashSet::new();
    let (perimeter, area) =
        regions::calc_perimeter_and_area(&grid, &mut seen, (0, 0), 'A', PerimeterRule::Edges)
            .unwrap();
    assert_eq!((perimeter, area), (4, 1));
    let mut seen2: AHashSet<(usize, usize)> = AHashSet::new();
    let (corners, _) =
        regions::calc_perimeter_and_area(&grid, &mut seen2, (0, 0), 'A', PerimeterRule::Corners)
            .unwrap();
    assert_eq!(corners, 4);
}

#[test]
fn a_seen_start_yields_nothing() {
    let grid = regions::parse("AA").unwrap();
    let mut seen: AHashSet<(usize, usize)> = AHashSet::new();
    let first =
        regions::calc_perimeter_and_area(&grid, &mut seen, (0, 0), 'A', PerimeterRule::Edges)
            .unwrap();
    assert_eq!(first, (6, 2));
    let again =
        regions::calc_perimeter_and_area(&grid, &mut seen, (0, 1), 'A', PerimeterRule::Edges)
            .unwrap();
    assert_eq!(again, (0, 0));
}

#[test]
fn flood_region_collects_the_component() {
    let grid = regions::parse("AAB\nABB").unwrap();
    let mut seen: AHashSet<(usize, usize)> = AHashSet::new();
    let region = regions::flood_region(&grid, (0, 0), 'A', &mut seen);
    let mut cells = region.clone();
    cells.sort();
    assert_eq!(cells, vec![(0, 0), (0, 1), (1, 0)]);
}

#[test]
fn diagonal_contact_does_not_join_regions() {
    // the two 'A' cells touch only diagonally and stay separate regions
    let input = "AB\nBA";
    let grid = regions::parse(input).unwrap();
    let mut seen: AHashSet<(usize, usize)> = AHashSet::new();
    let region = regions::flood_region(&grid, (0, 0), 'A', &mut seen);
    assert_eq!(region, vec![(0, 0)]);
    // four one-cell regions, each area 1 and edge perimeter 4
    assert_eq!(regions::part1(input), Ok(16));
}

#[test]
fn ragged_region_input_is_rejected() {
    assert_eq!(regions::part1("AA\nA"), Err(RegionError::Ragged));
    assert_eq!(regions::part2("AA\nAAA"), Err(RegionError::Ragged));
}
