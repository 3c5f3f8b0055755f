//! Regions of interest of a label image, as point clouds.
use crate::image::{lemma_coordinates, Image};
use std::collections::HashMap;
use vstd::prelude::*;
use vstd::std_specs::hash::*;

verus! {

/// The plane, row and column of position `j` of the data of an image with
/// the given numbers of rows and columns.
pub open spec fn coordinates(rows: int, cols: int, j: int) -> Seq<usize> {
    seq![((j / cols) / rows) as usize, ((j / cols) % rows) as usize, (j % cols) as usize]
}

/// The points of the first `j_end` positions of the data that carry the
/// label, in the order of the data.
pub open spec fn cloud_of(img: Image, label: i64, j_end: int) -> Seq<Seq<usize>>
    decreases j_end,
{
    if j_end <= 0 {
        Seq::empty()
    } else {
        let before = cloud_of(img, label, j_end - 1);
        if img.data@[j_end - 1] == label {
            before.push(coordinates(img.rows as int, img.cols as int, j_end - 1))
        } else {
            before
        }
    }
}

/// The points of a cloud.
pub open spec fn points_of(cloud: Vec<Vec<usize>>) -> Seq<Seq<usize>> {
    cloud@.map_values(|p: Vec<usize>| p@)
}

/// The map holds, for every label other than zero that occurs among the first
/// `j_end` positions of the data, the points that carry it, and nothing
/// else.
pub open spec fn is_roi_map(img: Image, m: Map<i64, Vec<Vec<usize>>>, j_end: int) -> bool {
    forall|k: i64|
        {
            &&& #[trigger] m.contains_key(k) <==> (k != 0 && cloud_of(img, k, j_end).len() > 0)
            &&& m.contains_key(k) ==> points_of(m[k]) == cloud_of(img, k, j_end)
        }
}

/// Creates the map of the regions of interest of a label image: for every
/// label other than zero, the points that carry it, each as its plane, row
/// and column, in the order of the data.
pub fn roi_map(data: &Image) -> (rois: HashMap<i64, Vec<Vec<usize>>>)
    requires
        data.wf(),
    ensures
        is_roi_map(*data, rois@, data.data@.len() as int),
{
    broadcast use group_hash_axioms;

    let n: usize = data.data.len();
    let mut rois: HashMap<i64, Vec<Vec<usize>>> = HashMap::new();
    let mut j: usize = 0;
    while j < n
        invariant
            data.wf(),
            n == data.data@.len(),
            j <= n,
            is_roi_map(*data, rois@, j as int),
        decreases n - j,
    {
        let label: i64 = data.data[j];
        if label != 0 {
            proof {
                lemma_coordinates(
                    data.planes as int,
                    data.rows as int,
                    data.cols as int,
                    j as int,
                );
            }
            let col: usize = j % data.cols;
            let q: usize = j / data.cols;
            let row: usize = q % data.rows;
            let plane: usize = q / data.rows;
            let mut point: Vec<usize> = Vec::with_capacity(3);
            point.push(plane);
            point.push(row);
            point.push(col);
            proof {
                assert(point@ =~= coordinates(data.rows as int, data.cols as int, j as int));
            }
            let ghost before = rois@;
            let mut cloud: Vec<Vec<usize>> = match rois.remove(&label) {
                Some(cloud) => cloud,
                None => Vec::new(),
            };
            proof {
                if before.contains_key(label) {
                    assert(points_of(cloud) == cloud_of(*data, label, j as int));
                } else {
                    assert(cloud_of(*data, label, j as int).len() == 0);
                    assert(points_of(cloud) =~= cloud_of(*data, label, j as int));
                }
            }
            let ghost points_before = points_of(cloud);
            cloud.push(point);
            proof {
                assert(points_of(cloud) =~= points_before.push(point@));
            }
            rois.insert(label, cloud);
            proof {
                assert forall|k: i64|
                    {
                        &&& #[trigger] rois@.contains_key(k) <==> (k != 0 && cloud_of(
                            *data,
                            k,
                            j + 1,
                        ).len() > 0)
                        &&& rois@.contains_key(k) ==> points_of(rois@[k]) == cloud_of(
                            *data,
                            k,
                            j + 1,
                        )
                    } by {
                    if k != label {
                        assert(before.contains_key(k) <==> rois@.contains_key(k));
                        assert(cloud_of(*data, k, j + 1) == cloud_of(*data, k, j as int));
                    }
                }
            }
        } else {
            proof {
                assert forall|k: i64|
                    {
                        &&& #[trigger] rois@.contains_key(k) <==> (k != 0 && cloud_of(
                            *data,
                            k,
                            j + 1,
                        ).len() > 0)
                        &&& rois@.contains_key(k) ==> points_of(rois@[k]) == cloud_of(
                            *data,
                            k,
                            j + 1,
                        )
                    } by {
                    if k != 0 {
                        assert(cloud_of(*data, k, j + 1) == cloud_of(*data, k, j as int));
                    }
                }
            }
        }
        j += 1;
    }
    rois
}

} // verus!
