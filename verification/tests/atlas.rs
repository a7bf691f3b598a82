use tiny_packer::atlas::{Atlas, Rect};

#[test]
fn test_atlas() {
    let mut atlas = Atlas::new(10, 10);
    assert_eq!(
        atlas.add_rect(5, 5, 0),
        Some(Rect {
            x: 0,
            y: 0,
            width: 5,
            height: 5
        })
    );
    assert_eq!(
        atlas.add_rect(5, 5, 0),
        Some(Rect {
            x: 5,
            y: 0,
            width: 5,
            height: 5
        })
    );
    assert_eq!(
        atlas.add_rect(5, 5, 0),
        Some(Rect {
            x: 0,
            y: 5,
            width: 5,
            height: 5
        })
    );
    assert_eq!(
        atlas.add_rect(5, 5, 0),
        Some(Rect {
            x: 5,
            y: 5,
            width: 5,
            height: 5
        })
    );
    assert_eq!(atlas.add_rect(5, 5, 0), None);
}

#[test]
fn test_add_rect_too_small() {
    let mut atlas = Atlas::new(4, 4);
    assert_eq!(atlas.add_rect(5, 5, 0), None);
    assert_eq!(atlas.rects.len(), 0);

    let mut atlas = Atlas::new(10, 10);
    assert!(atlas.add_rect(5, 5, 0).is_some());
    assert_eq!(atlas.add_rect(20, 20, 0), None);
    assert_eq!(atlas.rects.len(), 1);

    // a padding margin wider than the leftover space also rejects
    let mut atlas = Atlas::new(10, 10);
    assert_eq!(atlas.add_rect(9, 9, 1), None);
    assert_eq!(atlas.rects.len(), 0);
}

#[test]
fn test_add_rect_respects_padding() {
    let mut atlas = Atlas::new(12, 12);
    let first = atlas.add_rect(3, 3, 2).unwrap();
    assert_eq!(
        first,
        Rect {
            x: 2,
            y: 2,
            width: 3,
            height: 3
        }
    );
    let second = atlas.add_rect(3, 3, 2).unwrap();
    assert_eq!(
        second,
        Rect {
            x: 7,
            y: 2,
            width: 3,
            height: 3
        }
    );
    for rect in &atlas.rects {
        assert!(rect.x >= 2);
        assert!(rect.y >= 2);
        assert!(rect.x + rect.width + 2 <= 12);
        assert!(rect.y + rect.height + 2 <= 12);
    }
    // the two placements sit at least the padding apart on the x axis
    assert!(first.x + first.width + 2 <= second.x);
}

#[test]
fn test_add_rect_deterministic() {
    let mut a = Atlas::new(17, 13);
    let mut b = Atlas::new(17, 13);
    let requests = [(4u32, 3u32), (6, 6), (2, 9), (5, 1), (9, 9)];
    for &(w, h) in &requests {
        assert_eq!(a.add_rect(w, h, 1), b.add_rect(w, h, 1));
    }
    assert_eq!(a.rects, b.rects);
}
