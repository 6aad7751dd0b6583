use atlast::atlas::{Atlas, AtlasError, Image};
use atlast::geometry::Rect;

fn img(name: &str, width: u32, height: u32, fill: u8) -> Image {
    Image {
        name: name.to_string(),
        width,
        height,
        data: vec![fill; (width * height * 4) as usize],
    }
}

#[test]
fn contains_point_closed_box() {
    let r = Rect { x: 2, y: 3, width: 4, height: 5 };
    assert!(r.contains_point(2, 3));
    assert!(r.contains_point(6, 8));
    assert!(r.contains_point(4, 5));
    assert!(!r.contains_point(1, 3));
    assert!(!r.contains_point(7, 3));
    assert!(!r.contains_point(2, 9));
}

#[test]
fn contains_corner_test() {
    let r = Rect { x: 0, y: 0, width: 4, height: 4 };
    // top-left corner inside
    assert!(r.contains(&Rect { x: 3, y: 3, width: 5, height: 5 }));
    // no corner inside
    assert!(!r.contains(&Rect { x: 5, y: 0, width: 2, height: 2 }));
    // touching edges count as inside (closed box)
    assert!(r.contains(&Rect { x: 4, y: 4, width: 2, height: 2 }));
}

#[test]
fn area_exact() {
    let im = img("a", 3, 4, 0);
    assert_eq!(im.area(), 12);
}

#[test]
fn pack_scenario_two_small_one_large() {
    // Two 2x2 images and one 4x4 image: area order is c, then a and b in
    // input order; the scan places c at (0,0), a at (0,5), b at (0,8).
    let mut atlas = Atlas::new();
    atlas.images.push(img("a.png", 2, 2, 1));
    atlas.images.push(img("b.png", 2, 2, 2));
    atlas.images.push(img("c.png", 4, 4, 3));
    atlas.width = 4;
    atlas.pack().unwrap();
    let names: Vec<&str> = atlas.images.iter().map(|i| i.name.as_str()).collect();
    assert_eq!(names, vec!["c.png", "a.png", "b.png"]);
    assert_eq!(atlas.records.len(), 3);
    assert_eq!(atlas.records[0], Rect { x: 0, y: 0, width: 4, height: 4 });
    assert_eq!(atlas.records[1], Rect { x: 0, y: 5, width: 2, height: 2 });
    assert_eq!(atlas.records[2], Rect { x: 0, y: 8, width: 2, height: 2 });
    assert_eq!(atlas.width, 4);
    assert_eq!(atlas.height(), 10);
    for r in &atlas.records {
        assert!(r.x + r.width <= atlas.width);
        assert!(r.y + r.height <= atlas.height());
    }
}

#[test]
fn pack_ties_keep_input_order() {
    let mut atlas = Atlas::new();
    atlas.images.push(img("first", 2, 2, 1));
    atlas.images.push(img("second", 2, 2, 2));
    atlas.images.push(img("third", 2, 2, 3));
    atlas.width = 2;
    atlas.pack().unwrap();
    let names: Vec<&str> = atlas.images.iter().map(|i| i.name.as_str()).collect();
    assert_eq!(names, vec!["first", "second", "third"]);
}

#[test]
fn pack_no_overlap_and_bound_many_equal() {
    // Adversarial input: many identical squares; check the corner test
    // fails for every ordered pair and the scan bound holds.
    let mut atlas = Atlas::new();
    for i in 0..6 {
        atlas.images.push(img(&format!("i{}", i), 3, 3, i as u8));
    }
    atlas.width = 3;
    atlas.pack().unwrap();
    let n = atlas.records.len();
    assert_eq!(n, 6);
    for i in 0..n {
        let ri = &atlas.records[i];
        assert!(ri.x + ri.height <= atlas.width);
        for j in (i + 1)..n {
            assert!(!ri.contains(&atlas.records[j]));
        }
    }
}

#[test]
fn pack_corner_test_is_directional() {
    // The scan only checks that no corner of the new candidate lies in an
    // already placed box. With these four equal-area images the reverse
    // direction genuinely fails: the last placement's box contains a corner
    // of an earlier one, which the preserved approximation never looks at.
    let mut atlas = Atlas::new();
    atlas.images.push(img("a", 1, 4, 1));
    atlas.images.push(img("b", 2, 2, 2));
    atlas.images.push(img("c", 2, 2, 3));
    atlas.images.push(img("d", 4, 1, 4));
    atlas.width = 4;
    atlas.pack().unwrap();
    assert_eq!(atlas.records[0], Rect { x: 0, y: 0, width: 1, height: 4 });
    assert_eq!(atlas.records[1], Rect { x: 2, y: 0, width: 2, height: 2 });
    assert_eq!(atlas.records[2], Rect { x: 2, y: 3, width: 2, height: 2 });
    assert_eq!(atlas.records[3], Rect { x: 1, y: 5, width: 4, height: 1 });
    for i in 0..4 {
        for j in (i + 1)..4 {
            assert!(!atlas.records[i].contains(&atlas.records[j]));
        }
    }
    assert!(atlas.records[3].contains(&atlas.records[2]));
}

#[test]
fn pack_image_taller_than_canvas_fails() {
    // A 2x5 image alone: canvas width 2, but the scan bound compares
    // x + height against the canvas width, so no candidate ever passes.
    let mut atlas = Atlas::new();
    atlas.images.push(img("tall", 2, 5, 1));
    atlas.width = 2;
    let e = atlas.pack().unwrap_err();
    assert_eq!(e, AtlasError::Pack("tall".to_string()));
}

#[test]
fn pack_empty_is_noop() {
    let mut atlas = Atlas::new();
    atlas.pack().unwrap();
    assert!(atlas.records.is_empty());
    let out = atlas.build_archive(&Vec::new()).unwrap();
    assert!(out.is_none());
}

#[test]
fn next_slot_first_free_position() {
    let mut atlas = Atlas::new();
    atlas.width = 4;
    atlas.records.push(Rect { x: 0, y: 0, width: 4, height: 4 });
    // corner collisions until the row below the placed block
    let slot = atlas.next_slot(2, 2).unwrap();
    assert_eq!(slot, Rect { x: 0, y: 5, width: 2, height: 2 });
}

#[test]
fn pack_can_region_overlap_and_composite_refuses() {
    // The corner test is only an approximation: here the scan accepts a
    // final placement whose pixel region overlaps an earlier one, because
    // no corner of the wide candidate lands inside the placed closed box.
    // The compositor treats such a configuration as a fatal error instead
    // of letting a later image overwrite an earlier one.
    let mut atlas = Atlas::new();
    atlas.images.push(img("a", 2, 3, 1));
    atlas.images.push(img("b", 3, 2, 2));
    atlas.images.push(img("c", 3, 2, 3));
    atlas.images.push(img("d", 5, 1, 4));
    atlas.width = 5;
    atlas.pack().unwrap();
    assert_eq!(atlas.records[2], Rect { x: 3, y: 3, width: 3, height: 2 });
    assert_eq!(atlas.records[3], Rect { x: 2, y: 4, width: 5, height: 1 });
    let h = atlas.height();
    assert_eq!(atlas.composite(h).unwrap_err(), AtlasError::Composite);
}

#[test]
fn next_slot_refuses_coordinate_overflow() {
    // a placement already at the bottom of the coordinate space: the next
    // guaranteed-free row would push y + height past u32::MAX
    let mut atlas = Atlas::new();
    atlas.width = 4;
    atlas.records.push(Rect { x: 0, y: u32::MAX - 1, width: 1, height: 1 });
    assert!(atlas.next_slot(1, 1).is_err());
}

#[test]
fn composite_rejects_overlapping_placements() {
    let mut atlas = Atlas::new();
    atlas.images.push(img("one", 2, 2, 9));
    atlas.images.push(img("two", 2, 2, 7));
    atlas.records.push(Rect { x: 0, y: 0, width: 2, height: 2 });
    atlas.records.push(Rect { x: 1, y: 1, width: 2, height: 2 });
    atlas.width = 4;
    let e = atlas.composite(4).unwrap_err();
    assert_eq!(e, AtlasError::Composite);
}
