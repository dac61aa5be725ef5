use gensokyo::util::Either;

#[test]
fn test_either() {
    let left = Either::left(1);
    let right = Either::right(-1);
    assert!(left.is_left());
    assert_eq!(left.get(), &1);
    assert!(right.is_right());
    assert_eq!(right.get(), &-1);
    let left = left.map(|i| if i > 0 { Some(i) } else { None });
    let right = right.map(|i| if i > 0 { Some(i) } else { None });
    assert!(left.is_left());
    assert_eq!(left.get(), &Some(1));
    assert!(right.is_right());
    assert_eq!(right.get(), &None);
}

#[test]
fn either_get_mut_updates_in_place() {
    let mut e = Either::left(5);
    *e.get_mut() = 7;
    assert!(e.is_left());
    assert_eq!(e.get(), &7);
}
