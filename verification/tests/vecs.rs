use tipe_project::geometry::vecs::VecN;

#[test]
fn vecn_constructors() {
    let v: VecN<3, usize> = VecN::from_fn(|i: usize| 2 * i);
    assert_eq!(v, VecN([0, 2, 4]));
    let s: VecN<2, i64> = VecN::splat(7);
    assert_eq!(s, VecN([7, 7]));
}

#[test]
fn vecn_map_and_zip() {
    let v = VecN([1i64, -2, 3]);
    assert_eq!(v.map_component(|x: i64| x * 10), VecN([10, -20, 30]));
    let w = VecN([true, false, true]);
    assert_eq!(v.zip(w), VecN([(1, true), (-2, false), (3, true)]));
}

#[test]
fn vecn_dot() {
    assert_eq!(VecN([1usize, 2, 3]).dot(VecN([4, 5, 6])), 32);
    assert_eq!(VecN::<0, usize>([]).dot(VecN([])), 0);
}

#[test]
fn vecn_rotations() {
    assert_eq!(VecN([1i64, 2]).rotate_left(), VecN([-2, 1]));
    assert_eq!(VecN([1i64, 2]).rotate_right(), VecN([2, -1]));
    let v = VecN([3i64, -4]);
    assert_eq!(v.rotate_left().rotate_right(), v);
}

#[test]
fn vecn_max_component_index_first_largest() {
    assert_eq!(VecN([1i64, 5, 5, 2]).max_component_index(), 1);
    assert_eq!(VecN([-3i64]).max_component_index(), 0);
    assert_eq!(VecN([-3i64, -1, -2]).max_component_index(), 1);
}
