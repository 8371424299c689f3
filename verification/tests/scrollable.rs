use fqcn_rename::scrollable::Scrollable;

#[test]
fn test_scrollable_passes_over_the_offset() {
    let mut window = Scrollable::new(2, 3);
    for row in 0..10 {
        window.push(|| row);
    }
    assert_eq!(vec![2, 3, 4], window.get());
}

#[test]
fn test_scrollable_makes_only_rows_it_takes() {
    let mut made = Vec::new();
    let mut window = Scrollable::new(1, 1);
    for row in ["a", "b", "c"] {
        window.push(|| {
            made.push(row);
            row.to_owned()
        });
    }
    assert_eq!(vec!["b".to_owned()], window.get());
    assert_eq!(vec!["b"], made);
}

#[test]
fn test_scrollable_without_room() {
    let mut window: Scrollable<u8> = Scrollable::new(0, 0);
    window.push(|| 1);
    assert!(window.get().is_empty());
    let window: Scrollable<u8> = Scrollable::default();
    assert!(window.get().is_empty());
}
