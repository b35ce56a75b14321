use terminal::{Groups, GroupsStruct};

#[test]
fn groups_test_main() {
    let v = vec![0, 0, 1, -1, 2, 1];
    let g = v.groups();
    println!("{:?}", g.groups());
    assert_eq!(
        g.groups(),
        &vec![(0, vec![0, 1]), (1, vec![2, 5]), (-1, vec![3]), (2, vec![4])]
    );
}

#[test]
fn partition_of_empty_input_is_empty() {
    let v: Vec<i32> = Vec::new();
    let g = GroupsStruct::new(&v);
    assert!(g.groups().is_empty());
}

#[test]
fn partition_keeps_first_seen_order() {
    let v = vec![5, 3, 5, 3, 7];
    let g = GroupsStruct::new(&v);
    assert_eq!(g.groups(), &vec![(5, vec![0, 2]), (3, vec![1, 3]), (7, vec![4])]);
}

#[test]
fn remove_takes_out_one_group_only() {
    let v = vec![-1, 3, 0, 3];
    let mut g = v.groups();
    assert_eq!(g.remove(&-1), Some(vec![0]));
    assert_eq!(g.groups(), &vec![(3, vec![1, 3]), (0, vec![2])]);
    assert_eq!(g.remove(&9), None);
    assert_eq!(g.groups(), &vec![(3, vec![1, 3]), (0, vec![2])]);
}

#[test]
fn groups_mut_gives_access_to_the_groups() {
    let v = vec![1, 2];
    let mut g = v.groups();
    g.groups_mut().pop();
    assert_eq!(g.groups(), &vec![(1, vec![0])]);
}
