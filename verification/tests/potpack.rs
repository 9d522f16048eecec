use spritore::potpack::{ceil_sqrt, pack, Rectangle};

#[test]
fn square_root_rounds_up_exactly() {
    assert_eq!(ceil_sqrt(0), 0);
    assert_eq!(ceil_sqrt(1), 1);
    assert_eq!(ceil_sqrt(2), 2);
    assert_eq!(ceil_sqrt(4), 2);
    assert_eq!(ceil_sqrt(5), 3);
    assert_eq!(ceil_sqrt(u64::MAX as u128), u32::MAX as u128 + 1);
}

#[test]
fn equal_height_rectangles_use_id_as_the_tie_breaker() {
    let layout = pack(vec![
        Rectangle {
            index: 0,
            id: "z",
            width: 4,
            height: 4,
        },
        Rectangle {
            index: 1,
            id: "a",
            width: 3,
            height: 4,
        },
    ]);
    assert_eq!(layout.positions[1], (0, 0));
    assert_ne!(layout.positions[0], (0, 0));
}

#[test]
fn square_root_of_large_values() {
    assert_eq!(ceil_sqrt(u128::MAX), 1u128 << 64);
    assert_eq!(ceil_sqrt(1u128 << 100), 1u128 << 50);
    assert_eq!(ceil_sqrt((1u128 << 100) + 1), (1u128 << 50) + 1);
}

#[test]
fn taller_rectangles_are_placed_first_and_never_overlap() {
    let layout = pack(vec![
        Rectangle {
            index: 0,
            id: "small",
            width: 2,
            height: 1,
        },
        Rectangle {
            index: 1,
            id: "big",
            width: 3,
            height: 3,
        },
        Rectangle {
            index: 2,
            id: "mid",
            width: 2,
            height: 2,
        },
    ]);
    assert_eq!(layout.positions[1], (0, 0));
    let sizes = [(2u32, 1u32), (3, 3), (2, 2)];
    for i in 0..3 {
        let (x, y) = layout.positions[i];
        assert!(x + sizes[i].0 <= layout.width && y + sizes[i].1 <= layout.height);
        for j in 0..i {
            let (u, v) = layout.positions[j];
            let apart = x + sizes[i].0 <= u
                || u + sizes[j].0 <= x
                || y + sizes[i].1 <= v
                || v + sizes[j].1 <= y;
            assert!(apart);
        }
    }
}

#[test]
fn nothing_to_pack_gives_an_empty_sheet() {
    let layout = pack(Vec::new());
    assert_eq!((layout.width, layout.height), (0, 0));
    assert!(layout.positions.is_empty());
}

#[test]
fn distinct_rectangles_pack_the_same_in_any_order() {
    let all = [
        Rectangle { index: 0, id: "a", width: 3, height: 2 },
        Rectangle { index: 1, id: "b", width: 1, height: 5 },
        Rectangle { index: 2, id: "c", width: 4, height: 2 },
        Rectangle { index: 3, id: "d", width: 2, height: 1 },
    ];
    let first = pack(all.to_vec());
    for order in [[3, 2, 1, 0], [1, 3, 0, 2], [2, 0, 3, 1]] {
        let layout = pack(order.iter().map(|&k| all[k]).collect());
        assert_eq!((layout.width, layout.height), (first.width, first.height));
        assert_eq!(layout.positions, first.positions);
    }
}
