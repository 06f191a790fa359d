use fixcap::compare::ArrayExtrema;

#[test]
fn test_signed_integers() {
    let arr = [-5, 10, 3, -8, 0, 10];
    let result = ArrayExtrema::min_max_with_indices(&arr).unwrap();

    assert_eq!(result.min.value, -8);
    assert_eq!(result.min.index, 3);
    assert_eq!(result.max.value, 10);
    assert!(result.max.index == 1 || result.max.index == 5);
}

#[test]
fn test_unsigned_integers() {
    let arr = [5u32, 10, 3, 8, 0, 8, 8];
    let result = ArrayExtrema::min_max_with_indices(&arr).unwrap();

    assert_eq!(result.min.value, 0);
    assert_eq!(result.min.index, 4);
    assert_eq!(result.max.value, 10);
    assert_eq!(result.max.index, 1);
}

#[test]
fn test_floats() {
    let arr = [1.5, 3.2, 2.8, 4.7, 2.8];
    let result = ArrayExtrema::min_max_with_indices(&arr).unwrap();

    assert_eq!(result.min.value, 1.5);
    assert_eq!(result.min.index, 0);
    assert_eq!(result.max.value, 4.7);
    assert_eq!(result.max.index, 3);
}

#[test]
fn test_floats_with_nan() {
    let arr = [1.5, f64::NAN, 3.2, 2.8, f64::NAN];
    let result = ArrayExtrema::min_max_with_indices(&arr).unwrap();

    assert_eq!(result.min.value, 1.5);
    assert_eq!(result.min.index, 0);
    assert_eq!(result.max.value, 3.2);
    assert_eq!(result.max.index, 2);
}

#[test]
fn test_all_nan() {
    let arr = [f32::NAN; 5];
    assert!(ArrayExtrema::min_max_with_indices(&arr).is_none());
    assert!(ArrayExtrema::min_with_index(&arr).is_none());
    assert!(ArrayExtrema::max_with_index(&arr).is_none());
}

#[test]
fn test_empty_array() {
    let arr: [i32; 0] = [];
    assert!(ArrayExtrema::min_max_with_indices(&arr).is_none());
    assert!(ArrayExtrema::min_with_index(&arr).is_none());
    assert!(ArrayExtrema::max_with_index(&arr).is_none());
}

#[test]
fn test_single_element() {
    let arr = [42];
    let result = ArrayExtrema::min_max_with_indices(&arr).unwrap();

    assert_eq!(result.min.value, 42);
    assert_eq!(result.min.index, 0);
    assert_eq!(result.max.value, 42);
    assert_eq!(result.max.index, 0);
}

#[test]
fn test_multiple_max_values() {
    let arr = [1, 5, 2, 5, 3];
    let result = ArrayExtrema::min_max_with_indices(&arr).unwrap();

    assert_eq!(result.min.value, 1);
    assert_eq!(result.min.index, 0);
    assert_eq!(result.max.value, 5);
    assert!(result.max.index == 1 || result.max.index == 3);
}

#[test]
fn test_multiple_min_values() {
    let arr = [2, 1, 3, 1, 4];
    let result = ArrayExtrema::min_max_with_indices(&arr).unwrap();

    assert_eq!(result.min.value, 1);
    assert!(result.min.index == 1 || result.min.index == 3);
    assert_eq!(result.max.value, 4);
    assert_eq!(result.max.index, 4);
}

#[test]
fn test_individual_min_function() {
    let arr = [1.5, 3.2, 2.8, 4.7, 2.8];
    let min = ArrayExtrema::min_with_index(&arr).unwrap();

    assert_eq!(min.value, 1.5);
    assert_eq!(min.index, 0);
}

#[test]
fn test_individual_max_function() {
    let arr = [1.5, 3.2, 2.8, 4.7, 2.8];
    let max = ArrayExtrema::max_with_index(&arr).unwrap();

    assert_eq!(max.value, 4.7);
    assert_eq!(max.index, 3);
}

#[test]
fn test_large_array() {
    let mut arr = [0; 1000];
    arr[500] = 100;
    arr[999] = -100;

    let result = ArrayExtrema::min_max_with_indices(&arr).unwrap();

    assert_eq!(result.min.value, -100);
    assert_eq!(result.min.index, 999);
    assert_eq!(result.max.value, 100);
    assert_eq!(result.max.index, 500);
}

#[test]
fn test_min_max_with_infinity() {
    let arr = [f64::NEG_INFINITY, 1.5, f64::INFINITY, 2.8];
    let result = ArrayExtrema::min_max_with_indices(&arr).unwrap();

    assert_eq!(result.min.value, f64::NEG_INFINITY);
    assert_eq!(result.min.index, 0);
    assert_eq!(result.max.value, f64::INFINITY);
    assert_eq!(result.max.index, 2);
}

#[test]
fn test_first_occurrence_precedence() {
    // When there are multiple identical min/max values, return the index of the first occurrence
    let arr = [5, 2, 5, 3, 2];
    let result = ArrayExtrema::min_max_with_indices(&arr).unwrap();

    assert_eq!(result.min.value, 2);
    assert_eq!(result.min.index, 1); // Index of the first 2
    assert_eq!(result.max.value, 5);
    assert_eq!(result.max.index, 0); // Index of the first 5
}
