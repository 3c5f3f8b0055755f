use imgal::image::Image;
use imgal::overlay::grid_2d_mut;
use imgal::spatial::kd_tree::{KDTree, Node};
use imgal::spatial::roi::roi_map;

#[test]
fn roi_map_collects_the_points_of_every_label() {
    let labels = Image::from_plane(3, 4, vec![0, 1, 1, 0, 2, 0, 1, 0, 2, 2, 0, 7]).unwrap();
    let rois = roi_map(&labels);
    assert_eq!(rois.len(), 3);
    assert_eq!(rois[&1], vec![vec![0, 0, 1], vec![0, 0, 2], vec![0, 1, 2]]);
    assert_eq!(rois[&2], vec![vec![0, 1, 0], vec![0, 2, 0], vec![0, 2, 1]]);
    assert_eq!(rois[&7], vec![vec![0, 2, 3]]);
    assert!(!rois.contains_key(&0));
}

#[test]
fn roi_map_of_a_stack_names_the_plane() {
    let labels = Image::from_stack(2, 2, 2, vec![0, -3, 0, 0, 0, 0, -3, 5]).unwrap();
    let rois = roi_map(&labels);
    assert_eq!(rois.len(), 2);
    assert_eq!(rois[&-3], vec![vec![0, 0, 1], vec![1, 1, 0]]);
    assert_eq!(rois[&5], vec![vec![1, 1, 1]]);
    let empty = Image::from_plane(2, 2, vec![0; 4]).unwrap();
    assert!(roi_map(&empty).is_empty());
}

#[test]
fn grid_2d_mut_draws_rows_and_columns() {
    let mut img = Image::from_plane(4, 5, vec![1; 20]).unwrap();
    grid_2d_mut(&mut img, 2);
    let m = i64::MAX;
    assert_eq!(
        img.data,
        vec![m, m, m, m, m, m, 1, m, 1, m, m, m, m, m, m, m, 1, m, 1, m]
    );
    assert_eq!((img.planes, img.rows, img.cols), (1, 4, 5));
    let mut img = Image::from_plane(3, 3, vec![0; 9]).unwrap();
    grid_2d_mut(&mut img, 5);
    assert_eq!(img.data, vec![m, m, m, m, 0, 0, m, 0, 0]);
    // a spacing of one marks everything
    let mut img = Image::from_stack(2, 1, 2, vec![0; 4]).unwrap();
    grid_2d_mut(&mut img, 1);
    assert_eq!(img.data, vec![m; 4]);
}

fn sorted(mut v: Vec<usize>) -> Vec<usize> {
    v.sort();
    v
}

#[test]
fn kd_tree_finds_the_points_within_the_radius() {
    let cloud: Vec<Vec<i32>> =
        vec![vec![0, 0], vec![1, 1], vec![2, 2], vec![5, 5], vec![9, 9], vec![1, 0]];
    let tree = KDTree::build(cloud, 2);
    assert_eq!(tree.nodes.len(), 6);
    assert_eq!(tree.root, Some(5));
    assert_eq!(sorted(tree.search(&vec![1, 1], 1)), vec![1, 5]);
    assert_eq!(sorted(tree.search(&vec![1, 1], 0)), vec![1]);
    assert_eq!(sorted(tree.search(&vec![1, 1], 2)), vec![0, 1, 2, 5]);
    assert_eq!(sorted(tree.search(&vec![7, 7], 2)), Vec::<usize>::new());
    assert_eq!(sorted(tree.search(&vec![7, 7], 3)), vec![3, 4]);
    assert_eq!(sorted(tree.search(&vec![0, 0], 100)), vec![0, 1, 2, 3, 4, 5]);
}

#[test]
fn kd_tree_of_nothing_finds_nothing() {
    let tree = KDTree::build(vec![], 3);
    assert_eq!(tree.root, None);
    assert!(tree.nodes.is_empty());
    assert_eq!(tree.search(&vec![0, 0, 0], u64::MAX), Vec::<usize>::new());
}

#[test]
fn kd_tree_splits_at_the_median_axis_by_axis() {
    let cloud: Vec<Vec<i32>> = vec![vec![3, 9], vec![1, 5], vec![2, 7]];
    let tree = KDTree::build(cloud, 2);
    // along the first axis the rows come as 1, 2, 0: row 2 is the median
    assert_eq!(
        tree.nodes,
        vec![
            Node::new(1, 1, None, None),
            Node::new(1, 0, None, None),
            Node::new(0, 2, Some(0), Some(1)),
        ]
    );
    assert_eq!(tree.root, Some(2));
}

#[test]
fn kd_tree_agrees_with_a_search_of_every_point() {
    // a cloud from a small generator, with many equal coordinates
    let mut cloud: Vec<Vec<i32>> = Vec::new();
    let mut x: i64 = 12345;
    for _ in 0..200 {
        let mut point: Vec<i32> = Vec::new();
        for _ in 0..3 {
            x = (x * 1103515245 + 12345) % 2147483648;
            point.push(((x / 65536) % 21) as i32 - 10);
        }
        cloud.push(point);
    }
    let tree = KDTree::build(cloud.clone(), 3);
    for (query, radius) in [(vec![0, 0, 0], 5u64), (vec![-10, 10, 3], 7), (vec![4, -2, 9], 0),
        (vec![100, 100, 100], 3), (vec![1, 1, 1], 40), (vec![i32::MAX, i32::MIN, 0], u64::MAX)]
    {
        let mut want: Vec<usize> = Vec::new();
        for (i, p) in cloud.iter().enumerate() {
            let mut d: u128 = 0;
            for k in 0..3 {
                let gap = (p[k] as i128 - query[k] as i128).unsigned_abs();
                d += gap * gap;
            }
            if d <= (radius as u128) * (radius as u128) {
                want.push(i);
            }
        }
        assert_eq!(sorted(tree.search(&query, radius)), want);
    }
}
