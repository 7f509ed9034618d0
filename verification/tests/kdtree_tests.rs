use kdtree::kdtree::KDTree;
use kdtree::point::Point;

fn pts(coords: &[(i32, i32)]) -> Vec<Point> {
    let mut v = Vec::new();
    for &(x, y) in coords {
        v.push(Point { x, y });
    }
    v
}

fn dist2(a: &Point, b: &Point) -> i128 {
    let dx = a.x as i128 - b.x as i128;
    let dy = a.y as i128 - b.y as i128;
    dx * dx + dy * dy
}

/// The distances to `target` of the `k` nearest points, by linear scan.
fn brute_force_dists(points: &[Point], target: &Point, k: usize) -> Vec<i128> {
    let mut ds: Vec<i128> = points.iter().map(|p| dist2(p, target)).collect();
    ds.sort();
    ds.truncate(k);
    ds
}

fn seven() -> Vec<Point> {
    pts(&[
        (615, 40),
        (207, 313),
        (751, 177),
        (479, 449),
        (70, 721),
        (343, 858),
        (888, 585),
    ])
}

fn twenty() -> Vec<Point> {
    pts(&[
        (272, 59),
        (481, 144),
        (915, 157),
        (259, 189),
        (913, 276),
        (139, 310),
        (821, 386),
        (622, 410),
        (281, 467),
        (43, 480),
        (445, 585),
        (136, 615),
        (749, 683),
        (260, 685),
        (592, 715),
        (662, 798),
        (879, 810),
        (163, 826),
        (438, 828),
        (571, 839),
    ])
}

#[test]
fn test_kdtree_new() {
    let data = seven();
    let tree = KDTree::new(data);
    let all = tree.find_k_nearest_neighbors(&Point { x: 0, y: 0 }, 7);
    assert_eq!(all.len(), 7);
}

#[test]
fn test_kdtree_find_k_nearest_neighbors_1() {
    let data = twenty();
    let tree = KDTree::new(data);
    let neighbors = tree.find_k_nearest_neighbors(&Point { x: 782, y: 780 }, 1);
    assert_eq!(neighbors, pts(&[(879, 810)]));
}

#[test]
fn test_kdtree_find_k_nearest_neighbors_2() {
    let data = twenty();
    let tree = KDTree::new(data);
    let neighbors = tree.find_k_nearest_neighbors(&Point { x: 260, y: 585 }, 5);
    assert_eq!(
        neighbors,
        pts(&[(260, 685), (281, 467), (136, 615), (445, 585), (43, 480)])
    );
}

#[test]
fn nearest_of_seven_is_unique_closest() {
    let tree = KDTree::new(seven());
    let neighbors = tree.find_k_nearest_neighbors(&Point { x: 782, y: 780 }, 1);
    assert_eq!(neighbors, pts(&[(888, 585)]));
}

#[test]
fn full_query_returns_every_point_sorted() {
    let data = twenty();
    let target = Point { x: 300, y: 400 };
    let tree = KDTree::new(data.clone());
    let all = tree.find_k_nearest_neighbors(&target, data.len());
    assert_eq!(all.len(), data.len());
    let mut expected: Vec<i128> = data.iter().map(|p| dist2(p, &target)).collect();
    expected.sort();
    let got: Vec<i128> = all.iter().map(|p| dist2(p, &target)).collect();
    assert_eq!(got, expected);
    // each point of the input occurs exactly once
    let mut seen = data.clone();
    for p in &all {
        let pos = seen.iter().position(|q| q == p).expect("point not from the input");
        seen.remove(pos);
    }
    assert!(seen.is_empty());
}

fn lcg_next(state: &mut u64) -> u64 {
    *state = state
        .wrapping_mul(6364136223846793005)
        .wrapping_add(1442695040888963407);
    *state
}

#[test]
fn matches_brute_force_on_generated_sets() {
    let mut state: u64 = 12345;
    for n in [0usize, 1, 2, 3, 7, 25, 60, 200] {
        let mut data = Vec::new();
        for _ in 0..n {
            let x = (lcg_next(&mut state) % 1000) as i32;
            let y = (lcg_next(&mut state) % 1000) as i32;
            data.push(Point { x, y });
        }
        let target = Point {
            x: (lcg_next(&mut state) % 1000) as i32,
            y: (lcg_next(&mut state) % 1000) as i32,
        };
        let k = if n == 0 { 0 } else { (lcg_next(&mut state) % (n as u64 + 1)) as usize };
        let tree = KDTree::new(data.clone());
        let got = tree.find_k_nearest_neighbors(&target, k);
        let got_dists: Vec<i128> = got.iter().map(|p| dist2(p, &target)).collect();
        assert_eq!(got_dists, brute_force_dists(&data, &target, k));
    }
}

#[test]
fn building_twice_gives_the_same_tree() {
    let tree_a = KDTree::new(twenty());
    let tree_b = KDTree::new(twenty());
    assert!(tree_a == tree_b);
}

#[test]
fn empty_build_and_query() {
    let tree = KDTree::new(Vec::new());
    for k in [0usize, 1, 5] {
        let res = tree.find_k_nearest_neighbors(&Point { x: 1, y: 2 }, k);
        assert!(res.is_empty());
    }
}

#[test]
fn zero_k_returns_empty() {
    let tree = KDTree::new(twenty());
    let res = tree.find_k_nearest_neighbors(&Point { x: 260, y: 585 }, 0);
    assert!(res.is_empty());
}

#[test]
fn k_larger_than_tree_returns_all() {
    let data = seven();
    let tree = KDTree::new(data.clone());
    let res = tree.find_k_nearest_neighbors(&Point { x: 500, y: 500 }, 100);
    assert_eq!(res.len(), data.len());
}

#[test]
fn duplicate_points_are_each_returned() {
    let data = pts(&[(5, 5), (5, 5), (5, 5), (9, 9)]);
    let tree = KDTree::new(data);
    let res = tree.find_k_nearest_neighbors(&Point { x: 5, y: 5 }, 4);
    assert_eq!(res, pts(&[(5, 5), (5, 5), (5, 5), (9, 9)]));
    let res3 = tree.find_k_nearest_neighbors(&Point { x: 5, y: 5 }, 3);
    assert_eq!(res3, pts(&[(5, 5), (5, 5), (5, 5)]));
}

#[test]
fn single_point_tree() {
    let tree = KDTree::new(pts(&[(3, 4)]));
    let res = tree.find_k_nearest_neighbors(&Point { x: 0, y: 0 }, 2);
    assert_eq!(res, pts(&[(3, 4)]));
}

#[test]
fn extreme_coordinates() {
    let data = pts(&[
        (i32::MIN, i32::MIN),
        (i32::MAX, i32::MAX),
        (0, 0),
        (i32::MIN, i32::MAX),
    ]);
    let target = Point { x: i32::MAX, y: i32::MIN };
    let tree = KDTree::new(data.clone());
    let got = tree.find_k_nearest_neighbors(&target, 4);
    let got_dists: Vec<i128> = got.iter().map(|p| dist2(p, &target)).collect();
    assert_eq!(got_dists, brute_force_dists(&data, &target, 4));
}
