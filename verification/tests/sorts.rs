use algorithms::sort::bubble_sort::bubble_sort;
use algorithms::sort::counting_sort::counting_sort;
use algorithms::sort::heap_sort::heap_sort;
use algorithms::sort::insert_sort::insert_sort;
use algorithms::sort::merge_sort::merge_sort;
use algorithms::sort::quick_sort::quick_sort;
use algorithms::sort::select_sort::select_sort;

#[test]
fn bubble_sort_init() {
    let nums = vec![6, 4, 2, 9, 4, 8, 1, 3, 7, 2, 3, 5];

    let nums = bubble_sort(nums);

    assert_eq!(nums, vec![1, 2, 2, 3, 3, 4, 4, 5, 6, 7, 8, 9]);

    let nums = vec![];
    let nums = bubble_sort(nums);
    assert_eq!(nums, vec![]);
}

#[test]
fn counting_sort_init() {
    let nums = vec![6, 4, 2, 9, 4, 8, 1, 3, 7, 2, 3, 5];

    let nums = counting_sort(nums);

    assert_eq!(nums, vec![1, 2, 2, 3, 3, 4, 4, 5, 6, 7, 8, 9]);

    let nums = vec![];
    let nums = counting_sort(nums);
    assert_eq!(nums, vec![]);
}

#[test]
fn counting_sort_of_values_that_are_not_negative() {
    for sample in samples() {
        let sample: Vec<i32> = sample.into_iter().map(|v| (v % 1000).abs()).collect();
        let mut expected = sample.clone();
        expected.sort();
        assert_eq!(counting_sort(sample), expected);
    }
    assert_eq!(counting_sort(vec![0, 0, 0]), vec![0, 0, 0]);
    assert_eq!(counting_sort(vec![5]), vec![5]);
}

#[test]
fn heap_sort_init() {
    let nums = vec![6, 4, 2, 9, 4, 8, 1, 3, 7, 2, 3, 5];

    let nums = heap_sort(nums);

    assert_eq!(nums, vec![1, 2, 2, 3, 3, 4, 4, 5, 6, 7, 8, 9]);

    let nums = vec![];
    let nums = heap_sort(nums);
    assert_eq!(nums, vec![]);
}

#[test]
fn insert_sort_init() {
    let nums = vec![6, 4, 2, 9, 4, 8, 1, 3, 7, 2, 3, 5];

    let nums = insert_sort(nums);

    assert_eq!(nums, vec![1, 2, 2, 3, 3, 4, 4, 5, 6, 7, 8, 9]);

    let nums = vec![];
    let nums = insert_sort(nums);
    assert_eq!(nums, vec![]);
}

#[test]
fn merge_sort_init() {
    let nums = vec![6, 4, 2, 9, 4, 8, 1, 3, 7, 2, 3, 5];

    let nums = merge_sort(nums);

    assert_eq!(nums, vec![1, 2, 2, 3, 3, 4, 4, 5, 6, 7, 8, 9]);

    let nums = vec![];
    let nums = merge_sort(nums);
    assert_eq!(nums, vec![]);
}

#[test]
fn quick_sort_init() {
    let nums = vec![6, 4, 2, 9, 4, 8, 1, 3, 7, 2, 3, 5];

    let nums = quick_sort(nums);

    assert_eq!(nums, vec![1, 2, 2, 3, 3, 4, 4, 5, 6, 7, 8, 9]);

    let nums = vec![];
    let nums = quick_sort(nums);
    assert_eq!(nums, vec![]);
}

#[test]
fn select_sort_init() {
    let nums = vec![6, 4, 2, 9, 4, 8, 1, 3, 7, 2, 3, 5];

    let nums = select_sort(nums);

    assert_eq!(nums, vec![1, 2, 2, 3, 3, 4, 4, 5, 6, 7, 8, 9]);

    let nums = vec![];
    let nums = select_sort(nums);
    assert_eq!(nums, vec![]);
}

fn samples() -> Vec<Vec<i32>> {
    let mut samples = vec![
        vec![1],
        vec![2, 1],
        vec![1, 2],
        vec![3, 3, 3],
        vec![-5, 7, 0, -5, i32::MAX, i32::MIN, 7],
        vec![9, 8, 7, 6, 5, 4, 3, 2, 1, 0],
        vec![0, 1, 2, 3, 4, 5, 6, 7, 8, 9],
    ];
    let mut seed: u32 = 12345;
    let mut noise = Vec::new();
    for _ in 0..200 {
        seed = seed.wrapping_mul(1664525).wrapping_add(1013904223);
        noise.push((seed >> 8) as i32 % 50 - 25);
    }
    samples.push(noise);
    samples
}

fn agrees_with_std(sort: fn(Vec<i32>) -> Vec<i32>) {
    for sample in samples() {
        let mut expected = sample.clone();
        expected.sort();
        assert_eq!(sort(sample), expected);
    }
}

#[test]
fn bubble_sort_agrees_with_std() {
    agrees_with_std(bubble_sort);
}

#[test]
fn heap_sort_agrees_with_std() {
    agrees_with_std(heap_sort);
}

#[test]
fn insert_sort_agrees_with_std() {
    agrees_with_std(insert_sort);
}

#[test]
fn merge_sort_agrees_with_std() {
    agrees_with_std(merge_sort);
}

#[test]
fn quick_sort_agrees_with_std() {
    agrees_with_std(quick_sort);
}

#[test]
fn select_sort_agrees_with_std() {
    agrees_with_std(select_sort);
}
