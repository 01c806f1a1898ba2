use yin_yang_extractor::{singleton_classes, CentroidSet, MergeStep, INFINITE_DISTANCE_KEY};

fn matrix(rows: &[&[u32]]) -> Vec<Vec<u32>> {
    rows.iter().map(|r| r.to_vec()).collect()
}

fn dump<C: Clone>(s: &CentroidSet<C>) -> Vec<C> {
    (0..s.num_centroids()).map(|i| s.centroid(i).clone()).collect()
}

fn set4() -> CentroidSet<&'static str> {
    CentroidSet::new(
        vec!["a", "b", "c", "d"],
        matrix(&[&[0, 5, 9, 4], &[5, 0, 2, 7], &[9, 2, 0, 3], &[4, 7, 3, 0]]),
    )
}

#[test]
fn singleton_classes_number_the_cells() {
    assert_eq!(singleton_classes(4), vec![0, 1, 2, 3]);
    assert_eq!(singleton_classes(0), Vec::<usize>::new());
}

#[test]
fn argmin_finds_the_closest_pair() {
    assert_eq!(set4().argmin_distinct(), (1, 2));
}

#[test]
fn argmin_takes_the_first_of_equal_pairs() {
    let s = CentroidSet::new(vec![(), (), ()], matrix(&[&[0, 4, 4], &[4, 0, 4], &[4, 4, 0]]));
    assert_eq!(s.argmin_distinct(), (0, 1));
    let s = CentroidSet::new(vec![(), (), ()], matrix(&[&[0, 6, 4], &[6, 0, 4], &[4, 4, 0]]));
    assert_eq!(s.argmin_distinct(), (0, 2));
}

#[test]
fn argmin_without_finite_pair_is_zero_zero() {
    let inf = INFINITE_DISTANCE_KEY;
    let s = CentroidSet::new(vec![1, 2], matrix(&[&[0, inf], &[inf, 0]]));
    assert_eq!(s.argmin_distinct(), (0, 0));
    let s = CentroidSet::new(vec![1], matrix(&[&[0]]));
    assert_eq!(s.argmin_distinct(), (0, 0));
}

#[test]
fn swap_moves_rows_and_columns() {
    let mut s = set4();
    s.swap(0, 3);
    assert_eq!(dump(&s), vec!["d", "b", "c", "a"]);
    // distances between d and b, c now sit in row 0
    let mut t = CentroidSet::new(
        dump(&s),
        matrix(&[&[0, 7, 3, 4], &[7, 0, 2, 5], &[3, 2, 0, 9], &[4, 5, 9, 0]]),
    );
    assert_eq!(t.argmin_distinct(), s.argmin_distinct());
    t.truncate(2);
    s.truncate(2);
    assert_eq!(t.argmin_distinct(), (0, 1));
    assert_eq!(s.argmin_distinct(), (0, 1));
}

#[test]
fn swap_twice_restores_the_order() {
    let mut s = set4();
    s.swap(1, 3);
    s.swap(1, 3);
    assert_eq!(dump(&s), vec!["a", "b", "c", "d"]);
    assert_eq!(s.argmin_distinct(), (1, 2));
}

#[test]
fn truncate_keeps_the_first_centroids() {
    let mut s = set4();
    s.truncate(2);
    assert_eq!(s.num_centroids(), 2);
    assert_eq!(s.into_centroids(), vec!["a", "b"]);
    let mut s = set4();
    s.truncate(10);
    assert_eq!(s.num_centroids(), 4);
}

#[test]
fn set_rewrites_one_row_and_column() {
    let mut s = set4();
    s.set(3, "e", &vec![1, 8, 8, 99]);
    assert_eq!(dump(&s), vec!["a", "b", "c", "e"]);
    assert_eq!(s.argmin_distinct(), (0, 3));
}

#[test]
fn merge_into_relabels_and_drops_a_centroid() {
    let mut s = set4();
    let mut classes = vec![0, 1, 2, 3, 1, 3];
    s.merge_into(&mut classes, 1, 2);
    // class 2 joins class 1, and the last class (3) takes label 2
    assert_eq!(classes, vec![0, 1, 1, 2, 1, 2]);
    assert_eq!(dump(&s), vec!["a", "b", "d"]);
}

#[test]
fn merge_into_of_the_last_class() {
    let mut s = set4();
    let mut classes = singleton_classes(4);
    s.merge_into(&mut classes, 0, 3);
    assert_eq!(classes, vec![0, 1, 2, 0]);
    assert_eq!(dump(&s), vec!["a", "b", "c"]);
}

#[test]
fn merging_down_to_three_leaves_no_class_empty() {
    let mut s = CentroidSet::new(
        vec![0, 1, 2, 3, 4],
        matrix(&[
            &[0, 1, 9, 9, 9],
            &[1, 0, 9, 9, 9],
            &[9, 9, 0, 2, 9],
            &[9, 9, 2, 0, 9],
            &[9, 9, 9, 9, 0],
        ]),
    );
    let mut classes = singleton_classes(5);
    while s.num_centroids() > 3 {
        let (i, j) = s.argmin_distinct();
        assert!(i < j);
        s.merge_into(&mut classes, i, j);
        let n = s.num_centroids();
        let row: Vec<u32> = (0..n).map(|k| if k == i { 0 } else { 9 }).collect();
        s.set(i, 100 + i, &row);
    }
    assert_eq!(s.num_centroids(), 3);
    for c in 0..3 {
        assert!(classes.contains(&c));
    }
    assert!(classes.iter().all(|&c| c < 3));
    assert_eq!(classes[0], classes[1]);
    assert_eq!(classes[2], classes[3]);
}

#[test]
fn merge_closest_merges_until_three_are_left() {
    let mut s = set4();
    let mut classes = vec![0, 1, 2, 3, 2];
    assert_eq!(s.merge_closest(&mut classes), MergeStep::Merged { kept: 1, removed: 2 });
    assert_eq!(classes, vec![0, 1, 1, 2, 1]);
    assert_eq!(dump(&s), vec!["a", "b", "d"]);
    assert_eq!(s.merge_closest(&mut classes), MergeStep::Done);
    assert_eq!(classes, vec![0, 1, 1, 2, 1]);
    assert_eq!(s.num_centroids(), 3);
}

#[test]
fn merge_closest_without_finite_pair_changes_nothing() {
    let inf = INFINITE_DISTANCE_KEY;
    let mut s = CentroidSet::new(
        vec![0, 1, 2, 3],
        matrix(&[&[0, inf, inf, inf], &[inf, 0, inf, inf], &[inf, inf, 0, inf], &[inf, inf, inf, 0]]),
    );
    let mut classes = singleton_classes(4);
    assert_eq!(s.merge_closest(&mut classes), MergeStep::NoCloserPair);
    assert_eq!(classes, vec![0, 1, 2, 3]);
    assert_eq!(s.num_centroids(), 4);
}
