use rhi::major::{ColMajor, RowMajor};
use rhi::shape::DimAt;
use rhi::tile_tensor::TensorLayout;
use rhi::{Const, Dim, Layout, Prod, Shape, TileTensor, col_major, row_major, static_cosize, static_product};

#[test]
fn static_layouts_are_zero_sized_and_fold() {
    let l = Layout::new((Const::<4>, Const::<8>), (Const::<8>, Const::<1>));

    assert_eq!(std::mem::size_of_val(&Const::<4>), 0);
    assert!(l.all_dims_known());
    assert_eq!(l.static_product(), Some(32));
    assert_eq!(l.static_cosize(), Some(32));
    assert_eq!(l.crd2idx(&[2, 5]), 21);
}

#[test]
fn row_major_strides() {
    let l = row_major((Const::<2>, Const::<3>, Const::<4>));
    assert_eq!(l.stride.dims(), [12, 4, 1]);
    assert_eq!(l.size(), 24);
    assert_eq!(l.cosize(), 24);
    assert_eq!(l.crd2idx(&[1, 2, 3]), 12 + 8 + 3);
    assert_eq!(l.to_string(), "((2, 3, 4):(12, 4, 1))");
}

#[test]
fn col_major_strides() {
    let l = col_major((Const::<2>, Const::<3>, Const::<4>));
    assert_eq!(l.stride.dims(), [1, 2, 6]);
    assert_eq!(l.crd2idx(&[1, 2, 3]), 1 + 4 + 18);
    assert_eq!(l.size(), 24);
    assert_eq!(l.cosize(), 24);
}

#[test]
fn mixed_static_and_dynamic_dims() {
    let n = 7usize;
    let l = row_major((Const::<4>, n));

    // Only the dynamic column count, and the row stride it implies, are runtime values.
    assert!(!l.shape.items[1].known);
    assert!(!l.stride.items[0].known);
    assert!(l.shape.items[0].known);
    assert!(l.stride.items[1].known);

    assert!(!l.all_dims_known());
    // The static dimensions are readable as compile-time constants.
    assert_eq!(l.static_shape(0), 4);
    assert_eq!(l.static_stride(1), 1);

    assert_eq!(l.size(), 28);
    assert_eq!(l.cosize(), 28);
    assert_eq!(l.crd2idx(&[3, 6]), 27);
}

#[test]
fn static_product_of_a_dynamic_stride_is_unknown() {
    // A static shape dimension multiplied by a dynamic one stays dynamic.
    assert_eq!(static_product(&<(Const<4>, usize) as Shape>::static_dims()), None);
    assert_eq!(static_product(&<(Const<4>, Const<8>) as Shape>::static_dims()), Some(32));
    assert_eq!(<Prod<Const<4>, Const<8>> as Dim>::static_value(), Some(32));
    assert_eq!(<Prod<Const<4>, usize> as Dim>::static_value(), None);
}

#[test]
fn typed_dimension_access_preserves_staticness() {
    let l = row_major((Const::<4>, 7usize));

    let rows = l.shape_dim(0);
    let cols = l.shape_dim(1);
    let unit = l.stride_dim(1);

    assert_eq!(rows.value(), 4);
    assert_eq!(rows.static_value(), Some(4));
    assert_eq!(cols.value(), 7);
    assert_eq!(cols.static_value(), None);
    assert_eq!(unit.value(), 1);
    assert_eq!(unit.static_value(), Some(1));
}

#[test]
fn idx2crd_inverts_crd2idx() {
    let l = row_major((Const::<3>, Const::<5>));
    for i in 0..3 {
        for j in 0..5 {
            let idx = l.crd2idx(&[i, j]);
            assert_eq!(l.idx2crd(idx), [i, j]);
        }
    }
}

#[test]
fn linear2idx_walks_the_whole_domain() {
    let l = row_major((Const::<3>, Const::<4>));
    let visited: Vec<usize> = l.iter();

    assert_eq!(visited.len(), l.size());
    let mut sorted = visited.clone();
    sorted.sort_unstable();
    assert_eq!(sorted, (0..12).collect::<Vec<_>>());
    // Leftmost coordinate varies fastest.
    assert_eq!(&visited[..4], &[0, 4, 8, 1]);
}

#[test]
fn transpose_reverses_dimensions() {
    let l = row_major((Const::<2>, 5usize));
    let t = l.transpose();

    assert_eq!(t.shape.dims(), [5, 2]);
    assert_eq!(t.stride.dims(), [1, 5]);
    assert_eq!(t.crd2idx(&[3, 1]), l.crd2idx(&[1, 3]));

    // Reversing a row-major layout gives the column-major layout of the reversed shape.
    assert!(t.dims_eq(&col_major((5usize, Const::<2>))));
}

#[test]
fn make_dynamic_erases_static_extents() {
    let l = row_major((Const::<4>, Const::<8>));
    let d = l.make_dynamic();

    assert!(l.all_dims_known());
    assert!(!d.shape_known());
    assert!(!d.stride_known());
    assert!(d.dims_eq(&l));
    assert_eq!(d.shape.dims(), [4, 8]);
    assert_eq!(d.stride.dims(), [8, 1]);
}

#[test]
fn non_contiguous_layouts() {
    // A 4 x 4 window into a 4 x 16 row-major buffer.
    let l = Layout::new((Const::<4>, Const::<4>), (Const::<16>, Const::<1>));

    assert_eq!(l.size(), 16);
    assert_eq!(l.cosize(), 3 * 16 + 3 + 1);
    assert_eq!(l.crd2idx(&[3, 3]), 51);
}

#[test]
fn empty_domain_has_zero_cosize() {
    let l = row_major((Const::<0>, Const::<4>));
    assert_eq!(l.size(), 0);
    assert_eq!(l.cosize(), 0);

    let l = row_major((0usize, 4usize));
    assert_eq!(l.size(), 0);
    assert_eq!(l.cosize(), 0);
}

#[test]
fn rank_one_and_high_rank() {
    let l = row_major((Const::<7>,));
    assert_eq!(l.stride.dims(), [1]);
    assert_eq!(l.crd2idx(&[3]), 3);
    assert_eq!(l.to_string(), "((7):(1))");
}

#[test]
fn tensor_dim_reports_shape_extents() {
    let t = TileTensor::new(vec![0.0f32; 28], row_major((Const::<4>, 7usize)));

    // Runtime index: always a plain number.
    assert_eq!(t.dim(0), 4);
    assert_eq!(t.dim(1), 7);

    // Typed access keeps whether an extent is static.
    let rows = t.dim_at(0);
    let cols = t.dim_at(1);
    assert_eq!(rows.value(), 4);
    assert_eq!(cols.value(), 7);
    assert!(rows.known);
    assert!(!cols.known);
}

#[test]
fn tensor_indexes_by_coordinate() {
    let layout = row_major((Const::<3>, Const::<4>));
    let mut t = TileTensor::new(vec![0.0f32; 12], layout);

    t.set(&[1, 2], 7.0);
    t.set(&[2, 3], 9.0);

    assert_eq!(*t.at(&[1, 2]), 7.0);
    assert_eq!(*t.at(&[2, 3]), 9.0);
    // Row-major: (1, 2) is element 1 * 4 + 2.
    assert_eq!(t.storage()[6], 7.0);
    assert_eq!(t.storage()[11], 9.0);
}

#[test]
fn tensor_indexing_follows_a_non_contiguous_layout() {
    // A 2 x 3 window into a 2 x 8 row-major buffer.
    let t = TileTensor::new(
        (0..16).map(|i| i as f32).collect::<Vec<_>>(),
        Layout::new((Const::<2>, Const::<3>), (Const::<8>, Const::<1>)),
    );

    assert_eq!(*t.at(&[0, 0]), 0.0);
    assert_eq!(*t.at(&[0, 2]), 2.0);
    assert_eq!(*t.at(&[1, 0]), 8.0);
    assert_eq!(*t.at(&[1, 2]), 10.0);
}

#[test]
fn majorness_traits_give_the_strides_the_builders_use() {
    assert_eq!((Const::<2>, 3usize, Const::<4>).row_major_stride().dims(), [12, 4, 1]);
    assert_eq!((Const::<2>, 3usize, Const::<4>).col_major_stride().dims(), [1, 2, 6]);
    let dynamic_tail = (Const::<2>, 3usize).row_major_stride();
    assert_eq!(dynamic_tail.static_dims(), [None, Some(1)]);
}

#[test]
fn dim_at_reads_one_dimension_with_its_staticness() {
    let s = (Const::<5>, 7usize);
    let first = DimAt::<0>::dim_at(s);
    let second = DimAt::<1>::dim_at(s);
    assert_eq!((first.value, first.known), (5, true));
    assert_eq!((second.value, second.known), (7, false));
}

#[test]
fn tensor_layout_trait_indexes_like_the_layout() {
    let l = col_major((Const::<3>, Const::<4>));
    assert_eq!(TensorLayout::crd2idx(&l, &[2, 1]), 2 + 3);
    assert_eq!(TensorLayout::shape_coord(&l).dims(), [3, 4]);
}

#[test]
fn row_major_over_a_static_and_a_dynamic_extent() {
    // A 3 x N row of tiles: the leading extent is static, the trailing one is not.
    let l = row_major((Const::<3>, 7usize));
    assert_eq!(l.crd2idx(&[2, 4]), 2 * 7 + 4);
}

#[test]
fn col_major_runs_down_the_first_dimension() {
    let l = col_major((Const::<3>, Const::<4>));
    assert_eq!(l.crd2idx(&[2, 1]), 2 + 1 * 3);
}

#[test]
fn static_cosize_is_unknown_when_any_dimension_is_dynamic() {
    assert_eq!(static_cosize(&[Some(4), Some(8)], &[Some(8), Some(1)]), Some(32));
    assert_eq!(static_cosize(&[Some(0), None], &[Some(1), Some(1)]), None);
    assert_eq!(static_cosize(&[Some(3), Some(0)], &[Some(1), None]), None);
    assert_eq!(static_cosize(&[Some(3), Some(0)], &[Some(1), Some(3)]), Some(0));
    assert_eq!(static_cosize(&[], &[]), Some(1));
}

#[test]
fn compact_layouts_map_each_index_back_to_itself() {
    let rm = row_major((Const::<2>, Const::<3>, Const::<4>));
    let cm = col_major((Const::<2>, Const::<3>, Const::<4>));
    for i in 0..24 {
        assert_eq!(rm.crd2idx(&rm.idx2crd(i)), i);
        assert_eq!(cm.crd2idx(&cm.idx2crd(i)), i);
    }
    let mut walk = rm.iter();
    walk.sort();
    assert_eq!(walk, (0..24).collect::<Vec<usize>>());
}

#[test]
fn reversing_keeps_the_size_and_undoes_itself() {
    let l = Layout::new((Const::<3>, 5usize), (Const::<10>, Const::<2>));
    let r = l.reverse();
    assert_eq!(r.size(), l.size());
    assert_eq!(r.cosize(), l.cosize());
    assert!(r.reverse().dims_eq(&l));
    let cm = col_major((Const::<3>, Const::<4>));
    assert!(cm.dims_eq(&row_major((Const::<4>, Const::<3>)).reverse()));
}

#[test]
fn crd2idx_adds_up_over_coordinates() {
    let l = Layout::new((Const::<3>, Const::<4>), (Const::<7>, Const::<2>));
    assert_eq!(l.crd2idx(&[1, 2]) + l.crd2idx(&[1, 1]), l.crd2idx(&[2, 3]));
    assert_eq!(l.crd2idx(&[0, 0]), 0);
    assert_eq!(l.crd2idx(&[2, 3]) + 1, l.cosize());
}
