use rete_nn::phase_2::Tensor;

#[test]
pub fn create() {
    let test_1_a = Tensor::new([1, 2, 3]);
    let test_1_b = Tensor::new([1, 2, 3]);
    let test_2 = Tensor::new([[1, 2], [3, 4]]);
    let test_3 = Tensor::new([[1, 2], [3, 4], [5, 6]]);
}

#[test]
pub fn dot_multiply() {
    let test_1_a = Tensor::new([1, 2, 3]);
    let test_1_b = Tensor::new([1, 2, 3]);
    let result = test_1_a * test_1_b;
    assert_eq!(result, 14)
}

#[test]
fn dot_product_of_one_element() {
    assert_eq!(Tensor::new([7u64]) * Tensor::new([6u64]), 42);
}

#[test]
fn dot_product_with_negative_entries() {
    assert_eq!(Tensor::new([2i64, -3, 4]) * Tensor::new([5i64, 6, -1]), -12);
}

#[test]
fn dot_product_sums_left_to_right() {
    // (1*4 + 2*5) + 3*6
    assert_eq!(Tensor::new([1u8, 2, 3]) * Tensor::new([4u8, 5, 6]), 32);
}

#[test]
fn dot_product_of_floats() {
    let result = Tensor::new([0.5f64, 2.0]) * Tensor::new([4.0f64, 0.25]);
    assert_eq!(result, 2.5);
}

#[test]
fn tensor_debug_names_its_data() {
    let tensor = Tensor::new([1, 2]);
    assert_eq!(format!("{:?}", tensor), "Tensor { value: [1, 2] }");
}

#[test]
fn dot_product_commutes() {
    let a = [3i32, -1, 4, 1];
    let b = [5i32, 9, -2, 6];
    assert_eq!(Tensor::new(a) * Tensor::new(b), Tensor::new(b) * Tensor::new(a));
    assert_eq!(Tensor::new(a) * Tensor::new(b), 4);
}
