use std::collections::{HashSet, VecDeque};

use mazecore::generators::{
    AldousBroder, BinaryTree, GeneratorType, HuntAndKill, NoneGenerator, RecursiveBacktracker,
    Sidewinder, Wilsons,
};
use mazecore::pattern::MaskError;
use mazecore::solvers::Djikstra;
use mazecore::{distances, CellHandle, Distances, Grid, Mask};
use rand::rngs::StdRng;
use rand::SeedableRng;

fn rng(seed: u64) -> StdRng {
    StdRng::seed_from_u64(seed)
}

fn links_of(grid: &Grid, h: CellHandle) -> Vec<CellHandle> {
    grid.get(h.row, h.col).unwrap().links.clone()
}

fn edges(grid: &Grid) -> HashSet<(CellHandle, CellHandle)> {
    let mut set = HashSet::new();
    for h in grid.handles() {
        for l in links_of(grid, h) {
            let pair = if (h.row, h.col) < (l.row, l.col) { (h, l) } else { (l, h) };
            set.insert(pair);
        }
    }
    set
}

fn reachable(grid: &Grid, root: CellHandle) -> HashSet<CellHandle> {
    let mut seen = HashSet::new();
    let mut queue = VecDeque::new();
    seen.insert(root);
    queue.push_back(root);
    while let Some(h) = queue.pop_front() {
        for l in links_of(grid, h) {
            if seen.insert(l) {
                queue.push_back(l);
            }
        }
    }
    seen
}

fn assert_perfect(grid: &Grid) {
    let cells = grid.handles();
    let n = cells.len();
    assert_eq!(edges(grid).len(), n - 1);
    assert_eq!(reachable(grid, cells[0]).len(), n);
    if n > 1 {
        for h in &cells {
            assert!(!links_of(grid, *h).is_empty());
        }
    }
    // links are symmetric and join neighbours
    for h in &cells {
        let cell = grid.get(h.row, h.col).unwrap();
        for l in links_of(grid, *h) {
            assert!(links_of(grid, l).contains(h));
            assert!([cell.north, cell.south, cell.east, cell.west].contains(&Some(l)));
        }
    }
}

const SIZES: [(usize, usize); 6] = [(1, 1), (1, 5), (5, 1), (2, 2), (4, 7), (9, 6)];

#[test]
fn cell_handle_new_and_unpack() {
    let h = CellHandle::new(3, 4);
    assert_eq!(h.row, 3);
    assert_eq!(h.col, 4);
    assert_eq!(h.unpack(), (3, 4));
}

#[test]
fn new_grid_wires_neighbours() {
    let grid = Grid::new(3, 4);
    assert_eq!(grid.rows(), 3);
    assert_eq!(grid.columns(), 4);
    assert_eq!(grid.size(), 12);
    assert_eq!(grid.enabled_count(), 12);
    assert_eq!(grid.handles().len(), 12);
    assert!(!grid.has_orphans());
    let corner = grid.get(0, 0).unwrap();
    assert_eq!(corner.north, None);
    assert_eq!(corner.west, None);
    assert_eq!(corner.east, Some(CellHandle::new(0, 1)));
    assert_eq!(corner.south, Some(CellHandle::new(1, 0)));
    let middle = grid.get(1, 1).unwrap();
    assert_eq!(middle.neighbors().len(), 4);
    assert!(grid.get(3, 0).is_none());
    assert!(grid.get(0, 4).is_none());
}

#[test]
fn link_and_unlink_cells_are_symmetric() {
    let mut grid = Grid::new(2, 2);
    let a = CellHandle::new(0, 0);
    let b = CellHandle::new(0, 1);
    grid.link_cells(a, b);
    assert!(grid.get(0, 0).unwrap().is_linked(b));
    assert!(grid.get(0, 1).unwrap().is_linked(a));
    grid.link_cells(a, b);
    assert_eq!(links_of(&grid, a).len(), 1);
    grid.unlink_cells(a, b);
    assert!(!grid.get(0, 0).unwrap().has_links());
    assert!(!grid.get(0, 1).unwrap().has_links());
}

#[test]
fn one_by_one_grid() {
    let mut grid = Grid::new(1, 1);
    assert_eq!(grid.handles().len(), 1);
    assert!(grid.get(0, 0).unwrap().is_orphaned());
    HuntAndKill.run(&mut grid, &mut rng(1));
    assert!(grid.get(0, 0).unwrap().links.is_empty());
    assert!(grid.get_dead_ends().is_empty());
    assert_eq!(grid.longest_path(), ((0, 0), (0, 0)));
    assert_eq!(grid.render_ascii(), "+--+\n|  |\n+--+\n");
}

#[test]
fn every_generator_carves_a_perfect_maze() {
    for (seed, &(rows, cols)) in SIZES.iter().enumerate() {
        let seed = seed as u64;
        let mut g = Grid::new(rows, cols);
        BinaryTree.run(&mut g, &mut rng(seed));
        assert_perfect(&g);
        let mut g = Grid::new(rows, cols);
        Sidewinder.run(&mut g, &mut rng(seed));
        assert_perfect(&g);
        let mut g = Grid::new(rows, cols);
        AldousBroder.run(&mut g, &mut rng(seed));
        assert_perfect(&g);
        let mut g = Grid::new(rows, cols);
        Wilsons.run(&mut g, &mut rng(seed));
        assert_perfect(&g);
        let mut g = Grid::new(rows, cols);
        HuntAndKill.run(&mut g, &mut rng(seed));
        assert_perfect(&g);
        let mut g = Grid::new(rows, cols);
        RecursiveBacktracker.run(&mut g, &mut rng(seed));
        assert_perfect(&g);
    }
}

#[test]
fn binary_tree_corridors() {
    let mut grid = Grid::new(6, 5);
    BinaryTree.run(&mut grid, &mut rng(7));
    for c in 0..4 {
        assert!(grid.get(0, c).unwrap().is_linked(CellHandle::new(0, c + 1)));
    }
    for r in 1..6 {
        assert!(grid.get(r, 4).unwrap().is_linked(CellHandle::new(r - 1, 4)));
    }
    // each cell below the top row and left of the east column carved north or east
    for r in 1..6 {
        for c in 0..4 {
            let cell = grid.get(r, c).unwrap();
            assert!(
                cell.is_linked(CellHandle::new(r - 1, c)) || cell.is_linked(CellHandle::new(r, c + 1))
            );
        }
    }
}

#[test]
fn binary_tree_two_by_two_with_fixed_seed() {
    let mut first = Grid::new(2, 2);
    BinaryTree.run(&mut first, &mut rng(42));
    let mut second = Grid::new(2, 2);
    BinaryTree.run(&mut second, &mut rng(42));
    let links = edges(&first);
    assert_eq!(links, edges(&second));
    assert_eq!(links.len(), 3);
    let mut listed: Vec<_> = links.iter().map(|(a, b)| (a.unpack(), b.unpack())).collect();
    listed.sort();
    assert_eq!(listed, vec![((0, 0), (0, 1)), ((0, 1), (1, 1)), ((1, 0), (1, 1))]);
    let h = CellHandle::new;
    assert!(links.contains(&(h(0, 0), h(0, 1))));
    assert!(links.contains(&(h(0, 1), h(1, 1))));
    assert!(links.contains(&(h(0, 0), h(1, 0))) || links.contains(&(h(1, 0), h(1, 1))));
}

#[test]
fn sidewinder_top_row_is_one_corridor() {
    let mut grid = Grid::new(5, 8);
    Sidewinder.run(&mut grid, &mut rng(3));
    for c in 0..7 {
        assert!(grid.get(0, c).unwrap().is_linked(CellHandle::new(0, c + 1)));
    }
    for c in 0..8 {
        let cell = grid.get(0, c).unwrap();
        assert_eq!(cell.north, None);
    }
}

#[test]
fn wilsons_avoids_a_disabled_cell() {
    let mut mask = Mask::new(5, 5);
    mask.set(2, 2, false);
    let mut grid = Grid::from_mask(mask);
    assert!(grid.get(2, 2).is_none());
    assert_eq!(grid.enabled_count(), 24);
    Wilsons.run(&mut grid, &mut rng(11));
    let hole = CellHandle::new(2, 2);
    for h in grid.handles() {
        assert!(!links_of(&grid, h).contains(&hole));
    }
    assert_perfect(&grid);
    assert_eq!(grid.handles().len(), 24);
}

#[test]
fn masked_generators_stay_inside_the_mask() {
    let text = "# a ring\n.....\n.XXX.\n.....\n";
    let mask = Mask::parse(text).unwrap();
    let mut grid = Grid::from_mask(mask);
    RecursiveBacktracker.run(&mut grid, &mut rng(5));
    assert_perfect(&grid);
    let mask = Mask::parse(text).unwrap();
    let mut grid = Grid::from_mask(mask);
    AldousBroder.run(&mut grid, &mut rng(5));
    assert_perfect(&grid);
    let mask = Mask::parse(text).unwrap();
    let mut grid = Grid::from_mask(mask);
    HuntAndKill.run(&mut grid, &mut rng(5));
    assert_perfect(&grid);
}

#[test]
fn distances_from_root() {
    let mut grid = Grid::new(6, 6);
    RecursiveBacktracker.run(&mut grid, &mut rng(9));
    let root = CellHandle::new(2, 3);
    let d = distances(&grid, root);
    assert_eq!(d.get_distance(&root), Some(0));
    for h in grid.handles() {
        let dh = d.get_distance(&h).unwrap();
        if h == root {
            continue;
        }
        let closer: Vec<_> = links_of(&grid, h)
            .into_iter()
            .filter(|l| d.get_distance(l).unwrap() < dh)
            .collect();
        assert_eq!(closer.len(), 1);
        assert_eq!(d.get_distance(&closer[0]).unwrap() + 1, dh);
        let min = links_of(&grid, h).iter().map(|l| d.get_distance(l).unwrap()).min().unwrap();
        assert_eq!(dh, min + 1);
    }
}

#[test]
fn distances_map_operations() {
    let root = CellHandle::new(1, 1);
    let mut d = Distances::new(root);
    assert!(d.contains(&root));
    assert_eq!(d.get_distance(&root), Some(0));
    assert_eq!(d.max_distance(), (root, 0));
    let far = CellHandle::new(4, 2);
    assert!(!d.contains(&far));
    assert_eq!(d.get_distance(&far), None);
    d.set_distance(far, 7);
    d.set_distance(CellHandle::new(0, 0), 3);
    assert_eq!(d.get_distance(&far), Some(7));
    assert_eq!(d.max_distance(), (far, 7));
    d.set_distance(far, 2);
    assert_eq!(d.max_distance(), (CellHandle::new(0, 0), 3));
}

#[test]
fn longest_path_is_at_least_any_farthest_distance() {
    let mut grid = Grid::new(8, 9);
    Wilsons.run(&mut grid, &mut rng(21));
    let (a, b) = grid.longest_path();
    let a = CellHandle::new(a.0, a.1);
    let b = CellHandle::new(b.0, b.1);
    let diameter = distances(&grid, a).get_distance(&b).unwrap();
    for h in grid.handles() {
        let (_, far) = distances(&grid, h).max_distance();
        assert!(diameter >= far);
    }
}

#[test]
fn dead_ends_have_one_link() {
    let mut grid = Grid::new(7, 7);
    HuntAndKill.run(&mut grid, &mut rng(4));
    let dead = grid.get_dead_ends();
    assert!(!dead.is_empty());
    for h in grid.handles() {
        assert_eq!(dead.contains(&h), links_of(&grid, h).len() == 1);
    }
}

#[test]
fn mask_round_trip() {
    let mut mask = Mask::new(3, 4);
    mask.set(0, 1, false);
    mask.set(2, 3, false);
    let text = mask.to_text();
    assert_eq!(text, ".X..\n....\n...X\n");
    let back = Mask::parse(&text).unwrap();
    assert_eq!(back.rows, 3);
    assert_eq!(back.cols, 4);
    for r in 0..3 {
        for c in 0..4 {
            assert_eq!(back.get(r, c), mask.get(r, c));
        }
    }
}

#[test]
fn mask_parse_skips_comments_and_blanks() {
    let mask = Mask::parse("# heading\n\n  x.x  \n\t...\n# end\n").unwrap();
    assert_eq!((mask.rows, mask.cols), (2, 3));
    assert!(!mask.get(0, 0));
    assert!(mask.get(0, 1));
    assert!(!mask.get(0, 2));
    assert!(mask.get(1, 1));
    assert_eq!(mask.count(), 4);
}

#[test]
fn mask_parse_errors() {
    assert_eq!(Mask::parse("").unwrap_err(), MaskError::NoRows);
    assert_eq!(Mask::parse("# only\n\n").unwrap_err(), MaskError::NoRows);
    assert_eq!(Mask::parse("...\n..\n").unwrap_err(), MaskError::ColumnMismatch);
}

#[test]
fn mask_queries() {
    let mut mask = Mask::new(2, 3);
    assert_eq!(mask.size(), 6);
    assert_eq!(mask.count(), 6);
    mask.set(0, 0, false);
    mask.set(0, 1, false);
    assert_eq!(mask.count(), 4);
    assert_eq!(mask.get_first_enabled(), Some((0, 2)));
    for seed in 0..20 {
        let (r, c) = mask.get_random(&mut rng(seed));
        assert!(mask.get(r, c));
    }
    for r in 0..2 {
        for c in 0..3 {
            mask.set(r, c, false);
        }
    }
    assert_eq!(mask.get_first_enabled(), None);
}

#[test]
fn render_ascii_walls_and_passages() {
    let mut grid = Grid::new(1, 2);
    assert_eq!(grid.render_ascii(), "+---+---+\n|   |   |\n+---+---+\n");
    grid.link_cells(CellHandle::new(0, 0), CellHandle::new(0, 1));
    assert_eq!(grid.render_ascii(), "+---+---+\n|       |\n+---+---+\n");
    let mut tall = Grid::new(2, 1);
    tall.link_cells(CellHandle::new(0, 0), CellHandle::new(1, 0));
    assert_eq!(tall.render_ascii(), "+---+\n|   |\n+   +\n|   |\n+---+\n");
}

#[test]
fn solver_labels_the_way_in_base_36() {
    let mut grid = Grid::new(1, 11);
    for c in 0..10 {
        grid.link_cells(CellHandle::new(0, c), CellHandle::new(0, c + 1));
    }
    let mut solver = Djikstra::new(grid, 0, 0);
    assert_eq!(solver.cell_contents(0, 3), " ");
    solver.solve(0, 10);
    assert_eq!(solver.cell_contents(0, 0), "0");
    assert_eq!(solver.cell_contents(0, 9), "9");
    assert_eq!(solver.cell_contents(0, 10), "a");
    let text = solver.render_ascii();
    assert!(text.contains("| 0   1   2   3   4   5   6   7   8   9   a |"));
}

#[test]
fn solver_path_follows_the_maze() {
    let mut grid = Grid::new(5, 5);
    Sidewinder.run(&mut grid, &mut rng(8));
    let (root, goal) = grid.longest_path();
    let mut solver = Djikstra::new(grid, root.0, root.1);
    solver.solve(goal.0, goal.1);
    let d = distances(solver.grid(), CellHandle::new(root.0, root.1));
    let goal_distance = d.get_distance(&CellHandle::new(goal.0, goal.1)).unwrap();
    let mut on_path = 0;
    for h in solver.grid().handles() {
        if solver.cell_contents(h.row, h.col).trim() != "" {
            on_path += 1;
        }
    }
    assert_eq!(on_path, goal_distance + 1);
}

#[test]
fn random_cells_are_enabled() {
    let mut mask = Mask::new(4, 4);
    mask.set(1, 1, false);
    mask.set(3, 0, false);
    let grid = Grid::from_mask(mask);
    for seed in 0..30 {
        let cell = grid.get_random(&mut rng(seed));
        assert!(grid.get(cell.row(), cell.col()).is_some());
        let n = cell.get_random_neighbor(&mut rng(seed));
        assert!(grid.get(n.row, n.col).is_some());
    }
}

#[test]
fn generate_builds_a_fresh_maze() {
    let grid = BinaryTree.generate(4, 4, &mut rng(2));
    assert_perfect(&grid);
    assert_eq!(BinaryTree.name(), "Binary Tree");
    assert_eq!(Wilsons.name(), "Wilson's Algorithm");
}

#[test]
fn orphan_removes_a_cell_from_its_neighbours() {
    let mut grid = Grid::new(3, 3);
    let centre = CellHandle::new(1, 1);
    grid.link_cells(centre, CellHandle::new(0, 1));
    grid.link_cells(CellHandle::new(0, 0), CellHandle::new(0, 1));
    grid.orphan(1, 1);
    let cell = grid.get(1, 1).unwrap();
    assert!(cell.is_orphaned());
    assert!(cell.links.is_empty());
    assert!(grid.has_orphans());
    assert_eq!(grid.get(0, 1).unwrap().south, None);
    assert_eq!(grid.get(2, 1).unwrap().north, None);
    assert_eq!(grid.get(1, 0).unwrap().east, None);
    assert_eq!(grid.get(1, 2).unwrap().west, None);
    assert_eq!(links_of(&grid, CellHandle::new(0, 1)), vec![CellHandle::new(0, 0)]);
    // orphaning outside the grid changes nothing
    grid.orphan(5, 5);
    assert_eq!(edges(&grid).len(), 1);
}

#[test]
fn generator_types_dispatch() {
    let kinds = [
        GeneratorType::BinaryTree,
        GeneratorType::Sidewinder,
        GeneratorType::AldousBroder,
        GeneratorType::Wilsons,
        GeneratorType::HuntAndKill,
        GeneratorType::RecursiveBacktracker,
    ];
    for (i, kind) in kinds.iter().enumerate() {
        let mut grid = Grid::new(5, 4);
        kind.run(&mut grid, &mut rng(i as u64));
        assert_perfect(&grid);
    }
    let mut grid = Grid::new(2, 2);
    GeneratorType::Blank.run(&mut grid, &mut rng(0));
    NoneGenerator.run(&mut grid, &mut rng(0));
    assert!(edges(&grid).is_empty());
    assert_eq!(GeneratorType::Blank.name(), "None");
    assert_eq!(GeneratorType::HuntAndKill.name(), "Hunt-and-Kill");
}

#[test]
fn image_draws_walls() {
    let mut grid = Grid::new(1, 2);
    grid.link_cells(CellHandle::new(0, 0), CellHandle::new(0, 1));
    let (width, height, data) = mazecore::image::generate_image(&grid, 4, None);
    assert_eq!((width, height), (10, 6));
    assert_eq!(data.len(), 10 * 6 * 4);
    let pixel = |x: usize, y: usize| {
        let i = (y * width + x) * 4;
        (data[i], data[i + 1], data[i + 2], data[i + 3])
    };
    // the east wall of the second cell is black, the open side between the cells is white
    assert_eq!(pixel(8, 2), (0, 0, 0, 255));
    assert_eq!(pixel(4, 2), (255, 255, 255, 255));
    // the outer walls are black
    assert_eq!(pixel(2, 4), (0, 0, 0, 255));
    assert_eq!(pixel(2, 1), (0, 0, 0, 255));
    assert_eq!(pixel(1, 2), (0, 0, 0, 255));
}

#[test]
fn solver_shades_by_distance_from_centre() {
    let mut grid = Grid::new(1, 3);
    grid.link_cells(CellHandle::new(0, 0), CellHandle::new(0, 1));
    grid.link_cells(CellHandle::new(0, 1), CellHandle::new(0, 2));
    let mut solver = Djikstra::new(grid, 0, 0);
    let white = mazecore::image::Color::new(255, 255, 255, 255);
    assert_eq!(solver.cell_background(0, 1), white);
    solver.solve(0, 2);
    // the centre is (0, 1); the ends are one away, the farthest
    assert_eq!(solver.cell_background(0, 1), mazecore::image::Color::new(255, 255, 255, 255));
    assert_eq!(solver.cell_background(0, 0), mazecore::image::Color::new(0, 128, 0, 255));
    let (_, _, data) = mazecore::image::generate_image(solver.grid(), 4, Some(&solver));
    // the inside of the first cell carries its shade
    let i = (2 * 14 + 2) * 4;
    assert_eq!(&data[i..i + 4], &[0, 128, 0, 255]);
}

#[test]
fn mask_from_rgba_image() {
    // a 3 by 2 image; the middle pixel of the top row is transparent
    let mut data = vec![255u8; 3 * 2 * 4];
    data[(0 * 3 + 1) * 4 + 3] = 0;
    data[(1 * 3 + 2) * 4 + 3] = 254;
    let mask = Mask::from_rgba(3, 2, &data).unwrap();
    assert_eq!((mask.rows, mask.cols), (2, 3));
    assert!(mask.get(0, 0));
    assert!(!mask.get(0, 1));
    assert!(!mask.get(1, 2));
    assert_eq!(mask.count(), 4);
    assert_eq!(Mask::from_rgba(0, 2, &data).unwrap_err(), MaskError::NoRows);
    assert_eq!(Mask::from_rgba(3, 3, &data).unwrap_err(), MaskError::BadImage);
}

#[test]
fn orders_are_row_major_and_compass() {
    let mut grid = Grid::new(3, 3);
    let hs = grid.handles();
    let expected: Vec<CellHandle> = (0..3).flat_map(|r| (0..3).map(move |c| CellHandle::new(r, c))).collect();
    assert_eq!(hs, expected);
    assert_eq!(
        grid.get(1, 1).unwrap().neighbors(),
        vec![CellHandle::new(0, 1), CellHandle::new(2, 1), CellHandle::new(1, 2), CellHandle::new(1, 0)]
    );
    grid.link_cells(CellHandle::new(2, 2), CellHandle::new(2, 1));
    grid.link_cells(CellHandle::new(0, 0), CellHandle::new(0, 1));
    assert_eq!(
        grid.get_dead_ends(),
        vec![CellHandle::new(0, 0), CellHandle::new(0, 1), CellHandle::new(2, 1), CellHandle::new(2, 2)]
    );
}

#[test]
fn path_holds_one_cell_per_step() {
    let mut grid = Grid::new(4, 4);
    HuntAndKill.run(&mut grid, &mut rng(13));
    let root = CellHandle::new(0, 0);
    let mut solver = Djikstra::new(grid, 0, 0);
    let d = distances(solver.grid(), root);
    let goal = CellHandle::new(3, 3);
    let way = solver.path_to(goal, &d);
    let steps = d.get_distance(&goal).unwrap();
    let on_way = solver.grid().handles().into_iter().filter(|h| way.contains(h)).count();
    assert_eq!(on_way, steps + 1);
    solver.solve(3, 3);
    assert_eq!(d.max_distance().1 >= steps, true);
    let lone = Distances::new(root);
    assert_eq!(lone.max_distance(), (root, 0));
}

#[test]
fn image_with_cells_of_no_size_is_the_margin() {
    let grid = Grid::new(2, 3);
    let (width, height, data) = mazecore::image::generate_image(&grid, 0, None);
    assert_eq!((width, height), (2, 2));
    assert_eq!(data.len(), 16);
}

#[test]
fn mask_parse_gives_ok_on_a_valid_text() {
    let mask = Mask::parse("# comment\n..\n.x\n").unwrap();
    assert_eq!((mask.rows, mask.cols), (2, 2));
    assert!(!mask.get(1, 1));
    assert_eq!(mask.count(), 3);
}
