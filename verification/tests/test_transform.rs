use imgal::error::ImgalError;
use imgal::image::Image;
use imgal::spatial::kd_tree::Node;
use imgal::transform::pad::{constant_pad, create_pad_shape, reflect_pad, zero_pad};
use imgal::transform::tile::{div_tile, div_untile, get_div_start_stop_positions, tile_count};

/// An image that rises by `scale` from row to row, from the row `offset` on.
fn linear_gradient_2d(offset: usize, scale: i64, shape: (usize, usize)) -> Image {
    let mut data: Vec<i64> = Vec::new();
    for r in 0..shape.0 {
        for _ in 0..shape.1 {
            data.push(if r > offset { (r - offset) as i64 * scale } else { 0 });
        }
    }
    Image::from_plane(shape.0, shape.1, data).unwrap()
}

/// A stack that rises by `scale` from plane to plane, from the plane `offset`
/// on.
fn linear_gradient_3d(offset: usize, scale: i64, shape: (usize, usize, usize)) -> Image {
    let mut data: Vec<i64> = Vec::new();
    for p in 0..shape.0 {
        for _ in 0..shape.1 * shape.2 {
            data.push(if p > offset { (p - offset) as i64 * scale } else { 0 });
        }
    }
    Image::from_stack(shape.0, shape.1, shape.2, data).unwrap()
}

#[test]
fn pad_constant_pad() {
    // create image data
    let data_2d = linear_gradient_2d(1, 100, (20, 20));
    let data_3d = linear_gradient_3d(1, 100, (20, 20, 20));

    // pad test images isometrically with a constant value
    let pad_2d = constant_pad(&data_2d, 2, 900, 5, None);
    let pad_3d = constant_pad(&data_3d, 3, 900, 5, None);

    // assert padded shape and contents are copied
    assert_eq!((pad_2d.rows, pad_2d.cols), (30, 30));
    assert_eq!(pad_2d.planes, 1);
    assert_eq!((pad_3d.planes, pad_3d.rows, pad_3d.cols), (30, 30, 30));
    assert_eq!(pad_2d.get(0, 2, 2), 900);
    assert_eq!(pad_3d.get(2, 2, 2), 900);
    assert_eq!(pad_2d.get(0, 24, 24), 1800);
    assert_eq!(pad_3d.get(24, 24, 24), 1800);
}

#[test]
fn pad_zero_pad() {
    // create image data
    let data_2d = linear_gradient_2d(1, 100, (20, 20));
    let data_3d = linear_gradient_3d(1, 100, (20, 20, 20));

    // pad test images isometrically with zeros
    let pad_2d = zero_pad(&data_2d, 2, 5, None);
    let pad_3d = zero_pad(&data_3d, 3, 5, None);

    // assert padded shape and contents are copied
    assert_eq!((pad_2d.rows, pad_2d.cols), (30, 30));
    assert_eq!(pad_2d.planes, 1);
    assert_eq!((pad_3d.planes, pad_3d.rows, pad_3d.cols), (30, 30, 30));
    assert_eq!(pad_2d.get(0, 2, 2), 0);
    assert_eq!(pad_3d.get(2, 2, 2), 0);
    assert_eq!(pad_2d.get(0, 24, 24), 1800);
    assert_eq!(pad_3d.get(24, 24, 24), 1800);
}

#[test]
fn pads_keep_the_image_where_nothing_is_added() {
    let img = Image::from_stack(2, 2, 3, (1..=12).collect()).unwrap();
    for out in [
        zero_pad(&img, 3, 0, None),
        constant_pad(&img, 3, 7, 0, None),
        reflect_pad(&img, 3, 0, None),
    ] {
        assert_eq!((out.planes, out.rows, out.cols), (2, 2, 3));
        assert_eq!(out.data, img.data);
    }
    let none: [usize; 0] = [];
    let out = constant_pad(&img, 3, 7, 4, Some(&none));
    assert_eq!(out.data, img.data);
}

#[test]
fn constant_pad_fills_the_end_of_named_axes() {
    // the axes of an image of two dimensions are its rows and its columns
    let img = Image::from_plane(2, 3, vec![1, 2, 3, 4, 5, 6]).unwrap();
    let cols: [usize; 1] = [1];
    let out = constant_pad(&img, 2, 9, 2, Some(&cols));
    assert_eq!((out.planes, out.rows, out.cols), (1, 2, 5));
    assert_eq!(out.data, vec![1, 2, 3, 9, 9, 4, 5, 6, 9, 9]);
    let rows: [usize; 1] = [0];
    let out = zero_pad(&img, 2, 1, Some(&rows));
    assert_eq!((out.planes, out.rows, out.cols), (1, 3, 3));
    assert_eq!(out.data, vec![1, 2, 3, 4, 5, 6, 0, 0, 0]);
    // in a stack the first axis is that of the planes
    let stack = Image::from_stack(1, 1, 2, vec![5, 6]).unwrap();
    let out = constant_pad(&stack, 3, 0, 1, Some(&rows));
    assert_eq!((out.planes, out.rows, out.cols), (2, 1, 2));
    assert_eq!(out.data, vec![5, 6, 0, 0]);
}

#[test]
fn constant_pad_surrounds_every_axis() {
    let img = Image::from_stack(1, 1, 2, vec![5, 6]).unwrap();
    let out = constant_pad(&img, 3, 3, 1, None);
    assert_eq!((out.planes, out.rows, out.cols), (3, 3, 4));
    let mut want = vec![3; 36];
    want[(1 * 3 + 1) * 4 + 1] = 5;
    want[(1 * 3 + 1) * 4 + 2] = 6;
    assert_eq!(out.data, want);
    // the same samples as an image of two dimensions, and of one
    let out = constant_pad(&img, 2, 3, 1, None);
    assert_eq!((out.planes, out.rows, out.cols), (1, 3, 4));
    assert_eq!(out.data, vec![3, 3, 3, 3, 3, 5, 6, 3, 3, 3, 3, 3]);
    let out = constant_pad(&img, 1, 3, 1, None);
    assert_eq!((out.planes, out.rows, out.cols), (1, 1, 4));
    assert_eq!(out.data, vec![3, 5, 6, 3]);
}

#[test]
fn reflect_pad_mirrors_without_the_edge() {
    let img = Image::from_plane(1, 5, vec![10, 20, 30, 40, 50]).unwrap();
    let cols: [usize; 1] = [1];
    let out = reflect_pad(&img, 2, 2, Some(&cols));
    assert_eq!((out.planes, out.rows, out.cols), (1, 1, 7));
    assert_eq!(out.data, vec![10, 20, 30, 40, 50, 40, 30]);
    // an image of two dimensions, on both sides of its rows and columns
    let img = Image::from_plane(3, 3, (0..9).collect()).unwrap();
    let out = reflect_pad(&img, 2, 1, None);
    assert_eq!((out.planes, out.rows, out.cols), (1, 5, 5));
    assert_eq!(
        out.data,
        vec![4, 3, 4, 5, 4, 1, 0, 1, 2, 1, 4, 3, 4, 5, 4, 7, 6, 7, 8, 7, 4, 3, 4, 5, 4]
    );
    // on both sides of every axis of a stack
    let img = Image::from_stack(3, 3, 3, (0..27).collect()).unwrap();
    let out = reflect_pad(&img, 3, 1, None);
    assert_eq!((out.planes, out.rows, out.cols), (5, 5, 5));
    // the corner mirrors the sample one step in along every axis
    assert_eq!(out.get(0, 0, 0), img.get(1, 1, 1));
    assert_eq!(out.get(4, 4, 4), img.get(1, 1, 1));
    assert_eq!(out.get(0, 2, 4), img.get(1, 1, 1));
    assert_eq!(out.get(1, 1, 1), img.get(0, 0, 0));
    assert_eq!(out.get(3, 0, 2), img.get(2, 1, 1));
    for p in 0..3 {
        for r in 0..3 {
            for c in 0..3 {
                assert_eq!(out.get(p + 1, r + 1, c + 1), img.get(p, r, c));
            }
        }
    }
}

#[test]
fn create_pad_shape_symmetric() {
    assert_eq!(create_pad_shape(5, &[20, 20], None), vec![30, 30]);
    assert_eq!(create_pad_shape(0, &[3, 4, 5], None), vec![3, 4, 5]);
}

#[test]
fn create_pad_shape_named_axes() {
    let axes: [usize; 2] = [0, 2];
    assert_eq!(create_pad_shape(4, &[20, 20, 20], Some(&axes)), vec![24, 20, 24]);
    let none: [usize; 0] = [];
    assert_eq!(create_pad_shape(4, &[20, 20], Some(&none)), vec![20, 20]);
    // an axis that the shape does not have changes nothing
    let far: [usize; 1] = [7];
    assert_eq!(create_pad_shape(4, &[20, 20], Some(&far)), vec![20, 20]);
}

#[test]
fn div_positions_split_an_axis_evenly() {
    assert_eq!(get_div_start_stop_positions(4, 20), vec![(0, 5), (5, 10), (10, 15), (15, 20)]);
    assert_eq!(get_div_start_stop_positions(1, 7), vec![(0, 7)]);
    assert_eq!(get_div_start_stop_positions(3, 0), vec![(0, 0), (0, 0), (0, 0)]);
}

#[test]
fn tile_count_is_a_power() {
    assert_eq!(tile_count(2, 3), 8);
    assert_eq!(tile_count(5, 0), 1);
    assert_eq!(tile_count(0, 0), 1);
    assert_eq!(tile_count(0, 4), 0);
    assert_eq!(tile_count(1, 9), 1);
    assert_eq!(tile_count(3, 4), 81);
}

#[test]
fn div_tile_lists_the_tiles_in_row_major_order() {
    let tiles = div_tile(&[4, 6], 2).unwrap();
    assert_eq!(
        tiles,
        vec![
            vec![(0, 2), (0, 3)],
            vec![(0, 2), (3, 6)],
            vec![(2, 4), (0, 3)],
            vec![(2, 4), (3, 6)],
        ]
    );
    let tiles = div_tile(&[2, 2, 2], 2).unwrap();
    assert_eq!(tiles.len(), 8);
    assert_eq!(tiles[5], vec![(1, 2), (0, 1), (1, 2)]);
    assert_eq!(tiles[6], vec![(1, 2), (1, 2), (0, 1)]);
    // an array without axes is one tile without bounds
    let tiles = div_tile(&[], 3).unwrap();
    assert_eq!(tiles, vec![Vec::<(isize, isize)>::new()]);
    let tiles = div_tile(&[9], 3).unwrap();
    assert_eq!(tiles, vec![vec![(0, 3)], vec![(3, 6)], vec![(6, 9)]]);
}

#[test]
fn div_tile_rejects_what_cannot_be_divided() {
    match div_tile(&[4, 6], 0) {
        Err(ImgalError::InvalidParameterValueEqual { value, .. }) => assert_eq!(value, 0),
        _ => panic!("a division by zero must be reported"),
    }
    match div_tile(&[4, 7, 9], 2) {
        Err(ImgalError::InvalidAxisValueNotAMultipleOf { axis_idx, multiple, .. }) => {
            assert_eq!(axis_idx, 1);
            assert_eq!(multiple, 7);
        }
        _ => panic!("an uneven axis must be reported"),
    }
}

#[test]
fn div_untile_places_every_tile() {
    let places = div_untile(4, &[2, 3], 2, &[4, 6]).unwrap();
    assert_eq!(places, div_tile(&[4, 6], 2).unwrap());
}

#[test]
fn div_untile_reports_the_first_fault() {
    assert!(matches!(
        div_untile(0, &[2, 3], 0, &[4]),
        Err(ImgalError::InvalidParameterEmptyArray { .. })
    ));
    assert!(matches!(
        div_untile(4, &[2, 3], 0, &[4]),
        Err(ImgalError::InvalidParameterValueEqual { value: 0, .. })
    ));
    match div_untile(4, &[2, 3], 2, &[4, 6, 8]) {
        Err(ImgalError::MismatchedArrayLengths { a_arr_len, b_arr_len, .. }) => {
            assert_eq!(a_arr_len, 2);
            assert_eq!(b_arr_len, 3);
        }
        _ => panic!("a wrong number of axes must be reported"),
    }
    match div_untile(4, &[2, 3], 2, &[4, 7]) {
        Err(ImgalError::InvalidAxisValueNotAMultipleOf { axis_idx, multiple, .. }) => {
            assert_eq!(axis_idx, 1);
            assert_eq!(multiple, 2);
        }
        _ => panic!("an uneven axis must be reported"),
    }
    match div_untile(3, &[2, 3], 2, &[4, 6]) {
        Err(ImgalError::InvalidArrayLength { expected, got, .. }) => {
            assert_eq!(expected, 4);
            assert_eq!(got, 3);
        }
        _ => panic!("a wrong number of tiles must be reported"),
    }
    match div_untile(4, &[2, 2], 2, &[4, 6]) {
        Err(ImgalError::MismatchedArrayShapes { a_shape, b_shape, .. }) => {
            assert_eq!(a_shape, vec![2, 3]);
            assert_eq!(b_shape, vec![2, 2]);
        }
        _ => panic!("a wrong tile shape must be reported"),
    }
}

#[test]
fn node_new_keeps_its_parts() {
    let n = Node::new(1, 42, Some(3), None);
    assert_eq!(n.split_axis, 1);
    assert_eq!(n.point_index, 42);
    assert_eq!(n.left, Some(3));
    assert_eq!(n.right, None);
}
