use plot::utils::pairwise;

#[test]
fn test_pairwise() {
    let a = vec![1, 2, 3, 4, 5];
    assert_eq!(pairwise(&a).get(0).unwrap(), &(1, 2));
    assert_eq!(pairwise(&a).last().unwrap(), &(4, 5));
    assert_eq!(pairwise(&a).len(), a.len() - 1);

    let a = vec![1, 2];
    assert_eq!(pairwise(&a).get(0).unwrap(), &(1, 2));
    assert_eq!(pairwise(&a).last().unwrap(), &(1, 2));
    assert_eq!(pairwise(&a).len(), a.len() - 1);

    let a = vec![1];
    assert!(pairwise(&a).get(0).is_none());
}
