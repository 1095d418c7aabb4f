use heartless::extra::{extra, AndExtra};

#[test]
fn test_and_extra_two() {
    let v = vec![1, 2, 3, 4, 5];
    let mut two = extra(2);
    assert_eq!(
        v.iter().copied().take_while(|i| (*i < 3).and_extra(&mut two)).collect::<Vec<_>>(),
        vec![1, 2, 3, 4]
    );
}

#[test]
fn extra_counts_down_only_on_false() {
    let mut one = extra(1);
    assert!(true.and_extra(&mut one));
    assert_eq!(one.remaining, 1);
    assert!(false.and_extra(&mut one));
    assert_eq!(one.remaining, 0);
    assert!(!true.and_extra(&mut one));
}
