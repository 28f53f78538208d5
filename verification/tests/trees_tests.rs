use csx3::trees::BinaryTree;

#[test]
fn test_add_iter() {
    let mut a = BinaryTree::new(41);
    a.add(50);
    a.add(40);
    a.add(60);
    a.add(45);
    let mut out: Vec<i32> = Vec::new();
    let mut it = a.iter();
    while let Some(x) = it.next() {
        out.push(*x);
    }
    assert_eq!(out, vec![60, 50, 45, 41, 40]);
}

#[test]
fn add_duplicates_goes_right() {
    let mut a = BinaryTree::new(5);
    a.add(5);
    a.add(7);
    a.add(3);
    let mut out: Vec<i32> = Vec::new();
    let mut it = a.iter();
    while let Some(x) = it.next() {
        out.push(*x);
    }
    assert_eq!(out, vec![7, 5, 5, 3]);
}
