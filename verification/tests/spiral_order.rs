use wang_tiles::spiral::TilePos;

fn documented_prefix() -> Vec<(i32, i32)> {
    vec![
        (0, 0),
        (0, 1),
        (1, 1),
        (1, 0),
        (1, -1),
        (0, -1),
        (-1, -1),
        (-1, 0),
        (-1, 1),
        (-1, 2),
        (0, 2),
        (1, 2),
        (2, 2),
        (2, 1),
        (2, 0),
        (2, -1),
        (2, -2),
    ]
}

#[test]
fn spiral_emits_the_documented_prefix() {
    let mut cursor = TilePos::new();
    for (step, expected) in documented_prefix().into_iter().enumerate() {
        let got = cursor.next();
        assert_eq!(got, expected, "wrong coordinate at spiral step {step}");
    }
}

#[test]
fn fresh_cursors_agree() {
    let mut a = TilePos::new();
    let mut b = TilePos::new();
    for _ in 0..100 {
        assert_eq!(a.next(), b.next());
    }
}

#[test]
fn cloned_cursor_continues_independently() {
    let mut a = TilePos::new();
    assert_eq!(a.next(), (0, 0));
    let mut snapshot = a.clone();
    assert_eq!(a.next(), (0, 1));
    assert_eq!(a.next(), (1, 1));
    assert_eq!(snapshot.next(), (0, 1));
    assert_eq!(snapshot.next(), (1, 1));
}
