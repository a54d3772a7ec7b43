use device_store::graph::min_index;
use device_store::graph::weight::TentativeWeight;
use std::cmp::Ordering;

#[test]
fn tentative_weight_order() {
    let inf = TentativeWeight::Infinite;
    let three = TentativeWeight::Number(3);
    let four = TentativeWeight::Number(4);
    let most = TentativeWeight::Number(u32::MAX);
    assert_eq!(three.cmp(&four), Ordering::Less);
    assert_eq!(four.cmp(&three), Ordering::Greater);
    assert_eq!(four.cmp(&four), Ordering::Equal);
    assert_eq!(most.cmp(&inf), Ordering::Less);
    assert_eq!(inf.cmp(&most), Ordering::Greater);
    assert_eq!(inf.cmp(&inf), Ordering::Equal);
    assert!(three < four);
    assert!(most < inf);
    assert!(!(inf < inf));
    assert!(inf > three);
    assert_eq!(three.partial_cmp(&inf), Some(Ordering::Less));
    assert!(three == TentativeWeight::Number(3));
    assert!(three != four);
}

#[test]
fn min_index_is_the_first_place_of_the_least_weight() {
    let weights = vec![
        TentativeWeight::Number(9),
        TentativeWeight::Infinite,
        TentativeWeight::Number(2),
        TentativeWeight::Number(7),
        TentativeWeight::Number(2),
    ];
    assert_eq!(min_index(&weights, &vec![0, 1, 2, 3, 4]), 2);
    assert_eq!(min_index(&weights, &vec![4, 3, 2]), 0);
    assert_eq!(min_index(&weights, &vec![1, 3, 0]), 1);
    assert_eq!(min_index(&weights, &vec![1]), 0);
    assert_eq!(min_index(&weights, &vec![1, 0]), 1);
}
