use csx3::linkedlists::List;

#[test]
fn test_push() {
    let mut list = List::new();
    list.push_first(1);
    list.push_first(2);
    list.push_first(3);
    assert_eq!(list,
        List::NotEmpty(3, Box::new(
            List::NotEmpty(2, Box::new(
                List::NotEmpty(1, Box::new(
                    List::Empty
                ))
            ))
        ))
    )
}

#[test]
fn test_push_last() {
    let mut list = List::new();
    list.push_last(1);
    list.push_last(2);
    list.push_last(3);
    assert_eq!(list,
        List::NotEmpty(1, Box::new(
            List::NotEmpty(2, Box::new(
                List::NotEmpty(3, Box::new(
                    List::Empty
                ))
            ))
        ))
    )
}

#[test]
fn test_pop() {
    let mut l = List::new();
    l.push_last(1);
    l.push_last(2);
    assert_eq!(l.pop_first(), Some(1));
    assert_eq!(l.pop_first(), Some(2));
    assert_eq!(l.pop_first(), None);
    assert_eq!(l.pop_first(), None);
}

#[test]
fn test_pop_last() {
    let mut l = List::new();
    l.push_last(1);
    l.push_last(2);
    assert_eq!(l.pop_last(), Some(2));
    assert_eq!(l.pop_last(), Some(1));
    assert_eq!(l.pop_last(), None);
    assert_eq!(l.pop_last(), None);
}

#[test]
fn test_iter() {
    let mut l = List::new();
    l.push_last(1);
    l.push_last(2);
    let mut iter = l.iter();
    assert_eq!(iter.next(), Some(&1));
    assert_eq!(iter.next(), Some(&2));
    assert_eq!(iter.next(), None);

    let m: List<i32> = List::new();
    assert_eq!(m.iter().cursor, &List::Empty);
}

#[test]
fn test_into_iter() {
    let mut l = List::new();
    l.push_last(1);
    l.push_last(2);
    let mut iter = l.into_iter();
    assert_eq!(iter.next(), Some(2));
    assert_eq!(iter.next(), Some(1));
    assert_eq!(iter.next(), None);

    let l: List<i32> = List::new();
    assert_eq!(l.into_iter(), List::Empty);
}

#[test]
fn test_from_iter() {
    let v = vec![1, 2, 3];
    let mut l: List<i32> = List::from_iter(v);
    assert_eq!(l.pop_last(), Some(3));
    assert_eq!(l.pop_last(), Some(2));
    assert_eq!(l.pop_last(), Some(1));
    assert_eq!(l.pop_last(), None);
}

#[test]
fn push_then_pop_gives_back() {
    let mut l = List::new();
    l.push_first(7);
    assert_eq!(l.pop_first(), Some(7));
    assert_eq!(l, List::Empty);
    l.push_last(8);
    assert_eq!(l.pop_last(), Some(8));
    assert_eq!(l, List::Empty);
}
