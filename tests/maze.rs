use maze_solver::{marked_pixels, run, Algorithm, Error, Graph, Node, NodeType, Palette, Path, Rgb};

const ALL: [Algorithm; 4] = [Algorithm::Dijkstra, Algorithm::AStar, Algorithm::Dfs, Algorithm::Bfs];

/// Pixels of a maze drawn with one character per pixel: `#` wall, `S` start,
/// `G` goal, `.` road, `?` a colour outside the palette.
fn pixels(rows: &[&str]) -> (u32, u32, Vec<Rgb>) {
    let p = Palette::default();
    let mut out = Vec::new();
    for row in rows {
        for ch in row.chars() {
            out.push(match ch {
                '#' => p.wall,
                'S' => p.start,
                'G' => p.goal,
                '.' => p.road,
                '?' => Rgb::new(12, 34, 56),
                _ => panic!("unknown cell"),
            });
        }
    }
    (rows[0].len() as u32, rows.len() as u32, out)
}

fn graph(rows: &[&str]) -> Graph {
    let (w, h, px) = pixels(rows);
    Graph::from_pixels(w, h, &px, &Palette::default()).unwrap()
}

fn solve(rows: &[&str], alg: Algorithm) -> Path {
    let g = graph(rows);
    alg.execute(&g, g.start).unwrap()
}

fn route(p: &Path) -> Vec<(u32, u32)> {
    match p {
        Path::Found(v) => v.clone(),
        Path::NotFound => panic!("no route"),
    }
}

/// Checks that `r` is a route over open pixels of `rows` from `from` to `to`.
fn assert_route(rows: &[&str], r: &[(u32, u32)], from: (u32, u32), to: (u32, u32)) {
    assert_eq!(r[0], from);
    assert_eq!(*r.last().unwrap(), to);
    for &(x, y) in r {
        assert_ne!(rows[y as usize].as_bytes()[x as usize], b'#');
    }
    for pair in r.windows(2) {
        let (a, b) = (pair[0], pair[1]);
        assert_eq!(a.0.abs_diff(b.0) + a.1.abs_diff(b.1), 1);
    }
    let mut seen = r.to_vec();
    seen.sort();
    seen.dedup();
    assert_eq!(seen.len(), r.len());
}

const OPEN3: [&str; 3] = ["S..", "...", "..G"];

const MAZE: [&str; 7] = [
    "S..#.....",
    ".#.#.###.",
    ".#...#...",
    ".####.#.#",
    "...#..#..",
    "##.#.##.#",
    "....#...G",
];

#[test]
fn open_grid_shortest_routes_have_four_steps() {
    for alg in [Algorithm::Dijkstra, Algorithm::AStar, Algorithm::Bfs] {
        let r = route(&solve(&OPEN3, alg));
        assert_eq!(r.len(), 5);
        assert_route(&OPEN3, &r, (0, 0), (2, 2));
    }
}

#[test]
fn open_grid_depth_first_route_is_at_least_four_steps() {
    let r = route(&solve(&OPEN3, Algorithm::Dfs));
    assert!(r.len() >= 5);
    assert!(r.len() <= 9);
    assert_route(&OPEN3, &r, (0, 0), (2, 2));
}

#[test]
fn wall_barrier_gives_not_found_for_all() {
    let rows = ["S#.", ".#.", ".#G"];
    for alg in ALL {
        assert_eq!(solve(&rows, alg), Path::NotFound);
    }
}

#[test]
fn root_at_goal_gives_single_pixel_route() {
    let g = graph(&OPEN3);
    for alg in ALL {
        assert_eq!(alg.execute(&g, g.goal).unwrap(), Path::Found(vec![(2, 2)]));
    }
}

#[test]
fn breadth_first_uniform_cost_and_a_star_agree_on_length() {
    let b = route(&solve(&MAZE, Algorithm::Bfs));
    let d = route(&solve(&MAZE, Algorithm::Dijkstra));
    let a = route(&solve(&MAZE, Algorithm::AStar));
    assert_eq!(b.len(), d.len());
    assert_eq!(a.len(), d.len());
    assert_eq!(b.len(), 21);
    for r in [&a, &b, &d] {
        assert_route(&MAZE, r, (0, 0), (8, 6));
    }
}

#[test]
fn depth_first_finds_a_route_no_shorter_than_the_others() {
    let b = route(&solve(&MAZE, Algorithm::Bfs));
    let f = route(&solve(&MAZE, Algorithm::Dfs));
    assert!(f.len() >= b.len());
    assert_route(&MAZE, &f, (0, 0), (8, 6));
}

#[test]
fn rerunning_on_a_rebuilt_graph_gives_the_same_path() {
    for alg in ALL {
        assert_eq!(solve(&MAZE, alg), solve(&MAZE, alg));
    }
}

#[test]
fn edges_are_symmetric_and_orthogonal() {
    let g = graph(&MAZE);
    for (i, n) in g.nodes.iter().enumerate() {
        for &j in &n.edges {
            let m = &g.nodes[j];
            assert!(m.edges.contains(&i));
            assert_eq!(n.coords.0.abs_diff(m.coords.0) + n.coords.1.abs_diff(m.coords.1), 1);
        }
    }
    let centre = g.lookup[1 * 9 + 1];
    assert!(centre.is_none());
    let g = graph(&OPEN3);
    assert_eq!(g.nodes[g.lookup[4].unwrap()].edges, vec![5, 3, 7, 1]);
    assert_eq!(g.nodes[0].edges, vec![1, 3]);
    assert_eq!(g.nodes[8].edges, vec![7, 5]);
    assert_eq!(g.nodes[g.start].edges.len(), 2);
}

#[test]
fn enclosed_start_gives_not_found_for_all() {
    let rows = ["...", ".#.", "#S#", ".#G"];
    for alg in ALL {
        assert_eq!(solve(&rows, alg), Path::NotFound);
    }
}

#[test]
fn missing_start_is_an_error() {
    let (w, h, px) = pixels(&["...", "..G"]);
    assert_eq!(Graph::from_pixels(w, h, &px, &Palette::default()).unwrap_err(), Error::MissingStart);
}

#[test]
fn missing_goal_is_an_error() {
    let (w, h, px) = pixels(&["S..", "..."]);
    assert_eq!(Graph::from_pixels(w, h, &px, &Palette::default()).unwrap_err(), Error::MissingGoal);
    let (w, h, px) = pixels(&["...", "..."]);
    assert_eq!(Graph::from_pixels(w, h, &px, &Palette::default()).unwrap_err(), Error::MissingGoal);
}

#[test]
fn run_reports_missing_cells_before_searching() {
    let (w, h, px) = pixels(&["#.", ".."]);
    let res = run(w, h, &px, &Palette::default(), Algorithm::Bfs, false);
    assert_eq!(res.unwrap_err(), Error::MissingGoal);
}

#[test]
fn unknown_colours_are_road() {
    let rows = ["S??", "###", "..G"];
    assert_eq!(solve(&rows, Algorithm::Bfs), Path::NotFound);
    let rows = ["S?G"];
    assert_eq!(route(&solve(&rows, Algorithm::Bfs)), vec![(0, 0), (1, 0), (2, 0)]);
    let p = Palette::default();
    assert_eq!(p.classify(Rgb::new(12, 34, 56)), NodeType::Road);
    assert_eq!(p.classify(p.wall), NodeType::Wall);
    assert_eq!(p.classify(p.start), NodeType::Start);
    assert_eq!(p.classify(p.goal), NodeType::End);
    assert_eq!(p.classify(p.road), NodeType::Road);
}

#[test]
fn first_goal_in_row_order_is_the_goal() {
    let g = graph(&["..G", "S.G"]);
    assert_eq!(g.nodes[g.goal].coords, (2, 0));
    assert_eq!(g.nodes[g.start].coords, (0, 1));
    assert!(g.nodes[g.goal].is_end());
    assert!(g.nodes[g.start].is_start());
}

#[test]
fn custom_palette_is_honoured() {
    let start = Rgb::new(1, 1, 1);
    let goal = Rgb::new(2, 2, 2);
    let wall = Rgb::new(3, 3, 3);
    let road = Rgb::new(4, 4, 4);
    let pal = Palette::new(start, goal, wall, road, Rgb::new(5, 5, 5));
    let px = vec![start, wall, goal, road, road, road];
    let g = Graph::from_pixels(3, 2, &px, &pal).unwrap();
    assert_eq!(g.nodes.len(), 5);
    let r = route(&Algorithm::AStar.execute(&g, g.start).unwrap());
    assert_eq!(r, vec![(0, 0), (0, 1), (1, 1), (2, 1), (2, 0)]);
}

#[test]
fn heuristic_is_manhattan_distance_to_goal() {
    let g = graph(&MAZE);
    for n in &g.nodes {
        let want = (n.coords.0.abs_diff(8) + n.coords.1.abs_diff(6)) as u64;
        assert_eq!(n.heuristic, want);
    }
    let mut n = Node::new(Rgb::new(0, 0, 0), (3, 7), NodeType::Road);
    assert_eq!(n.heuristic, u64::MAX);
    n.set_heuristic_distance_from((10, 2));
    assert_eq!(n.heuristic, 12);
    assert!(!n.is_start());
    assert!(!n.is_end());
}

#[test]
fn neighbouring_coords_respect_the_u32_range() {
    assert_eq!(Node::neighbouring_coords((5, 5)), vec![(6, 5), (4, 5), (5, 6), (5, 4)]);
    assert_eq!(Node::neighbouring_coords((0, 0)), vec![(1, 0), (0, 1)]);
    assert_eq!(Node::neighbouring_coords((u32::MAX, u32::MAX)), vec![(u32::MAX - 1, u32::MAX), (u32::MAX, u32::MAX - 1)]);
    assert_eq!(
        Node::neighbouring_coords((u32::MAX - 1, u32::MAX - 1)),
        vec![(u32::MAX - 2, u32::MAX - 1), (u32::MAX - 1, u32::MAX - 2)]
    );
    assert_eq!(Node::neighbouring_coords((u32::MAX - 2, 0)), vec![(u32::MAX - 1, 0), (u32::MAX - 3, 0), (u32::MAX - 2, 1)]);
}

#[test]
fn marked_pixels_cover_route_and_open_neighbours_when_wide() {
    let rows = ["S.G", "#.#"];
    let g = graph(&rows);
    let p = Algorithm::Bfs.execute(&g, g.start).unwrap();
    let mut narrow = marked_pixels(&g, &p, false);
    narrow.sort();
    narrow.dedup();
    assert_eq!(narrow, vec![(0, 0), (1, 0), (2, 0)]);
    let mut wide = marked_pixels(&g, &p, true);
    wide.sort();
    wide.dedup();
    assert_eq!(wide, vec![(0, 0), (1, 0), (1, 1), (2, 0)]);
    assert!(marked_pixels(&g, &Path::NotFound, true).is_empty());
}

#[test]
fn run_solves_and_marks() {
    let (w, h, px) = pixels(&OPEN3);
    let s = run(w, h, &px, &Palette::default(), Algorithm::Dijkstra, false).unwrap();
    let r = route(&s.path);
    assert_eq!(r.len(), 5);
    let mut m = s.marked.clone();
    m.sort();
    let mut r2 = r.clone();
    r2.sort();
    assert_eq!(m, r2);
    assert_eq!(s.graph.nodes.len(), 9);
}

#[test]
fn default_palette_colours() {
    let p = Palette::default();
    assert_eq!(p.start, Rgb::new(0, 255, 0));
    assert_eq!(p.goal, Rgb::new(255, 0, 0));
    assert_eq!(p.wall, Rgb::new(0, 0, 0));
    assert_eq!(p.road, Rgb::new(255, 255, 255));
    assert_eq!(p.path, Rgb::new(255, 91, 0));
}

#[test]
fn error_messages() {
    assert_eq!(Error::IOError("disk".to_string()).message(), "disk");
    assert!(Error::MissingStart.message().contains("starting"));
    assert!(Error::MissingGoal.message().contains("ending"));
}
