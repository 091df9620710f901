use aygrep::intersect::binary_search_u32;
use aygrep::search::Searcher;

#[test]
fn binary_search_finds_or_counts_below() {
    let s = [2u32, 4, 8, 16];
    assert_eq!(binary_search_u32(&s, 8), Ok(2));
    assert_eq!(binary_search_u32(&s, 2), Ok(0));
    assert_eq!(binary_search_u32(&s, 1), Err(0));
    assert_eq!(binary_search_u32(&s, 9), Err(3));
    assert_eq!(binary_search_u32(&s, 99), Err(4));
    assert_eq!(binary_search_u32(&[], 3), Err(0));
}

#[test]
fn merge_intersection() {
    assert_eq!(Searcher::intersect_sorted(&[1, 3, 5, 7], &[3, 4, 5, 8]), vec![3, 5]);
    assert_eq!(Searcher::intersect_sorted(&[1, 2], &[3, 4]), Vec::<u32>::new());
    assert_eq!(Searcher::intersect_sorted(&[], &[3, 4]), Vec::<u32>::new());
}

#[test]
fn galloping_intersection_finds_shared_values() {
    let long: Vec<u32> = (0..200).map(|x| x * 3).collect();
    assert_eq!(Searcher::galloping_intersect(&[0, 9, 10, 300, 597], &long), vec![0, 9, 300, 597]);
}

#[test]
fn galloping_finds_value_at_a_doubling_probe() {
    // The doubling stops on a probe holding the value; the window searched
    // includes that probe.
    assert_eq!(Searcher::galloping_intersect(&[2], &[1, 2]), vec![2]);
    assert_eq!(Searcher::galloping_intersect(&[5], &[1, 5, 6, 7]), vec![5]);
    assert_eq!(Searcher::galloping_intersect(&[5], &[1, 2, 3, 4, 5, 6, 7, 8]), vec![5]);
    assert_eq!(Searcher::galloping_intersect(&[3, 4, 9], &[1, 2, 3, 4, 5, 6, 7, 8]), vec![3, 4]);
}

#[test]
fn galloping_over_values_past_the_end() {
    assert_eq!(Searcher::galloping_intersect(&[9, 10], &[1, 2, 3]), Vec::<u32>::new());
    assert_eq!(Searcher::galloping_intersect(&[3], &[1, 2, 3]), vec![3]);
    assert_eq!(Searcher::galloping_intersect(&[], &[1, 2, 3]), Vec::<u32>::new());
    assert_eq!(Searcher::galloping_intersect(&[1], &[]), Vec::<u32>::new());
}

#[test]
fn adaptive_merges_lists_of_similar_length() {
    let a: Vec<u32> = (0..64).collect();
    assert_eq!(Searcher::adaptive_intersect(&[5], &a), vec![5]);
    assert_eq!(Searcher::adaptive_intersect(&a, &[5]), vec![5]);
}

#[test]
fn adaptive_gallops_over_a_much_longer_list() {
    let long: Vec<u32> = (0..66).collect();
    assert_eq!(Searcher::adaptive_intersect(&[1], &long), vec![1]);
    assert_eq!(Searcher::adaptive_intersect(&long, &[1]), vec![1]);
    let mut other = vec![1u32];
    other.extend(5..70);
    assert_eq!(other.len(), 66);
    assert_eq!(Searcher::adaptive_intersect(&[5], &other), vec![5]);
    assert_eq!(Searcher::adaptive_intersect(&[6], &other), vec![6]);
    assert_eq!(Searcher::adaptive_intersect(&other, &[6, 69, 70]), vec![6, 69]);
}

#[test]
fn galloping_and_merging_agree() {
    let long: Vec<u32> = (0..5000).filter(|x| x % 3 != 0).collect();
    let short: Vec<u32> = (0..5000).filter(|x| x % 97 == 1).collect();
    assert_eq!(
        Searcher::galloping_intersect(&short, &long),
        Searcher::intersect_sorted(&short, &long)
    );
    assert_eq!(Searcher::adaptive_intersect(&short, &long), Searcher::intersect_sorted(&short, &long));
}

#[test]
fn intersections_agree_on_ordinary_inputs() {
    let a: Vec<u32> = (0..1000).filter(|x| x % 7 == 0).collect();
    let b: Vec<u32> = (0..1000).filter(|x| x % 5 == 0).collect();
    let want: Vec<u32> = (0..1000).filter(|x| x % 35 == 0).collect();
    assert_eq!(Searcher::intersect_sorted(&a, &b), want);
    assert_eq!(Searcher::adaptive_intersect(&a, &b), want);
}

#[test]
fn merge_of_unordered_lists_follows_the_heads() {
    // 1 and 4 are shared, but the merge passes them in `b` while `a` still holds 9.
    assert_eq!(Searcher::intersect_sorted(&[9, 1, 4], &[1, 4, 9]), vec![9]);
    assert_eq!(Searcher::intersect_sorted(&[3, 1], &[3, 2, 1]), vec![3]);
}

#[test]
fn adaptive_equals_merge_and_is_symmetric() {
    let lists: Vec<Vec<u32>> = vec![
        vec![],
        vec![1],
        (0..66).collect(),
        (0..5000).filter(|x| x % 3 != 0).collect(),
        (0..5000).filter(|x| x % 97 == 1).collect(),
        (0..200).map(|x| x * 7).collect(),
    ];
    for a in &lists {
        for b in &lists {
            let ab = Searcher::adaptive_intersect(a, b);
            assert_eq!(ab, Searcher::intersect_sorted(a, b));
            assert_eq!(ab, Searcher::adaptive_intersect(b, a));
        }
    }
}
