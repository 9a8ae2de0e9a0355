use galois::field::bigint::needs_bigint;
use galois::field::broadcast::broadcast_shapes;
use galois::{cached_field, clear_field_cache, FieldArray, FieldCache, GaloisField};

#[test]
fn large_order_detection() {
    assert!(needs_bigint(u64::MAX, 2));
    assert!(!needs_bigint(3, 5));
}

#[test]
fn broadcast_1d_with_scalar() {
    let shape = broadcast_shapes(&[4], &[1]).unwrap();
    assert_eq!(shape, vec![4]);
}

#[test]
fn broadcast_matrix_row() {
    let shape = broadcast_shapes(&[3, 1], &[3]).unwrap();
    assert_eq!(shape, vec![3, 3]);
}

#[test]
fn cache_returns_same_arc_data() {
    let mut cache = FieldCache::new();
    clear_field_cache(&mut cache);
    let a = cached_field(&mut cache, 3, 5).unwrap();
    let b = cached_field(&mut cache, 3, 5).unwrap();
    assert_eq!(a.order(), b.order());
    assert_eq!(a.primitive_element(), b.primitive_element());
}

#[test]
fn gf3_5_properties() {
    let field = GaloisField::new(3, 5).unwrap();
    assert_eq!(field.characteristic(), 3);
    assert_eq!(field.degree(), 5);
    assert_eq!(field.order(), 243);
    assert_eq!(field.irreducible_poly().format_poly("x"), "1 + 2x + x^5");
}

#[test]
fn gf3_5_arithmetic_matches_python() {
    let gf = GaloisField::new(3, 5).unwrap();
    let x = gf.array(vec![236, 87, 38, 112]).unwrap();
    let y = gf.array(vec![109, 17, 108, 224]).unwrap();

    assert_eq!(x.add(&y).unwrap().values(), &[18, 95, 146, 0]);
    assert_eq!(x.sub(&y).unwrap().values(), &[127, 100, 173, 224]);
    assert_eq!(x.mul(&y).unwrap().values(), &[21, 241, 179, 82]);
    assert_eq!(x.div(&y).unwrap().values(), &[67, 47, 192, 2]);
}

#[test]
fn broadcast_add_scalar() {
    let gf = GaloisField::new(3, 5).unwrap();
    let x = gf.array(vec![236, 87, 38, 112]).unwrap();
    let two = gf.array(vec![2]).unwrap();
    let result = x.add(&two).unwrap();
    assert_eq!(result.values(), &[235, 89, 37, 111]);
}

#[test]
fn reshape_2d() {
    let gf = GaloisField::new(5, 1).unwrap();
    let a = FieldArray::from_shape_vec(gf, &[2, 2], vec![1, 2, 3, 4]).unwrap();
    assert_eq!(a.shape(), vec![2, 2]);
    let flat = a.reshape(&[4]).unwrap();
    assert_eq!(flat.shape(), vec![4]);
}

#[test]
fn sqrt_gf3_5() {
    let gf = GaloisField::new(3, 5).unwrap();
    let x = gf.array(vec![236, 87, 38, 112]).unwrap();
    let roots = x.sqrt().unwrap();
    let check = roots.mul(&roots).unwrap();
    assert_eq!(check.values(), x.values());
}
