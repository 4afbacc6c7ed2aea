use indexer::request::combine_vec_to_string;

#[test]
fn combine_none() {
    assert_eq!(combine_vec_to_string(&None), None);
}

#[test]
fn combine_empty() {
    assert_eq!(combine_vec_to_string(&Some(Vec::new())), None);
}

#[test]
fn combine_one() {
    assert_eq!(combine_vec_to_string(&Some(vec![2023])), Some(",2023,".to_string()));
}

#[test]
fn combine_several() {
    assert_eq!(combine_vec_to_string(&Some(vec![1, 2, 3])), Some(",1,2,3,".to_string()));
    assert_eq!(combine_vec_to_string(&Some(vec![10, 0, 907])), Some(",10,0,907,".to_string()));
}

#[test]
fn combine_negative_and_extreme() {
    assert_eq!(combine_vec_to_string(&Some(vec![-5, 0])), Some(",-5,0,".to_string()));
    assert_eq!(
        combine_vec_to_string(&Some(vec![i64::MIN, i64::MAX])),
        Some(format!(",{},{},", i64::MIN, i64::MAX))
    );
}
