use std::io::Cursor;

use atlast::atlas::{Atlas, AtlasError, Image};
use atlast::records::{decode_records, encode_records, AtlasRecord};

fn img(name: &str, width: u32, height: u32, base: u8) -> Image {
    let n = (width * height * 4) as usize;
    let data: Vec<u8> = (0..n).map(|i| (i as u8).wrapping_add(base)).collect();
    Image { name: name.to_string(), width, height, data }
}

fn normalized(atlas: &Atlas, height: u32) -> Vec<AtlasRecord> {
    let width = atlas.width;
    atlas
        .records
        .iter()
        .zip(atlas.images.iter())
        .map(|(rect, image)| AtlasRecord {
            x_bits: (rect.x as f32 / width as f32).to_bits(),
            y_bits: (rect.y as f32 / height as f32).to_bits(),
            width_bits: (rect.width as f32 / width as f32).to_bits(),
            height_bits: (rect.height as f32 / height as f32).to_bits(),
            name: image.name.clone().into_bytes(),
        })
        .collect()
}

fn build_scenario() -> (Atlas, Vec<u8>) {
    let mut atlas = Atlas::new();
    atlas.images.push(img("a.png", 2, 2, 100));
    atlas.images.push(img("b.png", 2, 2, 200));
    atlas.images.push(img("c.png", 4, 4, 10));
    atlas.width = 4;
    atlas.pack().unwrap();
    let height = atlas.height();
    let recs = normalized(&atlas, height);
    let bytes = atlas.build_archive(&recs).unwrap().unwrap();
    (atlas, bytes)
}

#[test]
fn archive_is_deterministic() {
    let (_, first) = build_scenario();
    let (_, second) = build_scenario();
    assert_eq!(first, second);
}

#[test]
fn archive_holds_faithful_pixels() {
    let (atlas, bytes) = build_scenario();
    let mut zip = zip::ZipArchive::new(Cursor::new(bytes)).unwrap();
    assert_eq!(zip.len(), 2);
    let mut png_bytes: Vec<u8> = Vec::new();
    {
        let mut entry = zip.by_name("atlas.png").unwrap();
        std::io::copy(&mut entry, &mut png_bytes).unwrap();
    }
    let decoder = png::Decoder::new(Cursor::new(png_bytes.as_slice()));
    let mut reader = decoder.read_info().unwrap();
    let mut canvas = vec![0u8; reader.output_buffer_size().unwrap()];
    reader.next_frame(&mut canvas).unwrap();
    let info = reader.info();
    assert_eq!((info.width, info.height), (4, 10));
    // every source pixel appears unchanged at its placement offset
    for (rect, image) in atlas.records.iter().zip(atlas.images.iter()) {
        for row in 0..image.height {
            for col in 0..image.width {
                for k in 0..4u32 {
                    let src = ((row * image.width + col) * 4 + k) as usize;
                    let dst = (((row + rect.y) * 4 + (col + rect.x)) * 4 + k) as usize;
                    assert_eq!(canvas[dst], image.data[src]);
                }
            }
        }
    }
    // pixels covered by no placement are transparent black
    for &(px, py) in &[(2u32, 5u32), (3, 5), (2, 8), (0, 4), (3, 9)] {
        for k in 0..4u32 {
            assert_eq!(canvas[((py * 4 + px) * 4 + k) as usize], 0);
        }
    }
}

#[test]
fn archive_metadata_round_trips() {
    let (atlas, bytes) = build_scenario();
    let mut zip = zip::ZipArchive::new(Cursor::new(bytes)).unwrap();
    let mut data: Vec<u8> = Vec::new();
    {
        let mut entry = zip.by_name("atlas.data").unwrap();
        std::io::copy(&mut entry, &mut data).unwrap();
    }
    let recs: Vec<(f32, f32, f32, f32, String)> = bincode::deserialize(&data).unwrap();
    assert_eq!(recs.len(), 3);
    let names: Vec<&str> = recs.iter().map(|r| r.4.as_str()).collect();
    assert_eq!(names, vec!["c.png", "a.png", "b.png"]);
    // normalization recovers the placement rectangles
    let (width, height) = (4.0f32, 10.0f32);
    for (rec, rect) in recs.iter().zip(atlas.records.iter()) {
        assert!((rec.0 * width - rect.x as f32).abs() < 1e-4);
        assert!((rec.1 * height - rect.y as f32).abs() < 1e-4);
        assert!((rec.2 * width - rect.width as f32).abs() < 1e-4);
        assert!((rec.3 * height - rect.height as f32).abs() < 1e-4);
    }
    // exact expected values for the large image's record
    assert_eq!(recs[0].0, 0.0);
    assert_eq!(recs[0].1, 0.0);
    assert_eq!(recs[0].2, 1.0);
    assert_eq!(recs[0].3, 0.4);
}

#[test]
fn encoder_matches_serde_layout() {
    let recs = vec![
        AtlasRecord {
            x_bits: 0.5f32.to_bits(),
            y_bits: 0.25f32.to_bits(),
            width_bits: 1.0f32.to_bits(),
            height_bits: 0.2f32.to_bits(),
            name: b"alpha".to_vec(),
        },
        AtlasRecord {
            x_bits: 0.0f32.to_bits(),
            y_bits: 0.75f32.to_bits(),
            width_bits: 0.125f32.to_bits(),
            height_bits: 0.375f32.to_bits(),
            name: b"beta".to_vec(),
        },
    ];
    let mine = encode_records(&recs);
    let reference: Vec<(f32, f32, f32, f32, String)> = vec![
        (0.5, 0.25, 1.0, 0.2, "alpha".to_string()),
        (0.0, 0.75, 0.125, 0.375, "beta".to_string()),
    ];
    let theirs = bincode::serialize(&reference).unwrap();
    assert_eq!(mine, theirs);
}

#[test]
fn encoder_exact_bytes() {
    let recs = vec![AtlasRecord {
        x_bits: 1,
        y_bits: 2,
        width_bits: 3,
        height_bits: 4,
        name: b"ab".to_vec(),
    }];
    let out = encode_records(&recs);
    let expected: Vec<u8> = vec![
        1, 0, 0, 0, 0, 0, 0, 0, // record count
        1, 0, 0, 0, // x bits
        2, 0, 0, 0, // y bits
        3, 0, 0, 0, // width bits
        4, 0, 0, 0, // height bits
        2, 0, 0, 0, 0, 0, 0, 0, // name byte length
        97, 98, // "ab"
    ];
    assert_eq!(out, expected);
}

#[test]
fn decode_round_trips_encoded_records() {
    let recs = vec![
        AtlasRecord {
            x_bits: 0.5f32.to_bits(),
            y_bits: 0.1f32.to_bits(),
            width_bits: 0.75f32.to_bits(),
            height_bits: 0.9f32.to_bits(),
            name: b"one".to_vec(),
        },
        AtlasRecord {
            x_bits: 7,
            y_bits: 8,
            width_bits: 9,
            height_bits: 10,
            name: Vec::new(),
        },
    ];
    let bytes = encode_records(&recs);
    let back = decode_records(&bytes).unwrap();
    assert_eq!(back, recs);
    // a truncated or padded stream is rejected
    let mut short = bytes.clone();
    short.pop();
    assert!(decode_records(&short).is_none());
    let mut long = bytes.clone();
    long.push(0);
    assert!(decode_records(&long).is_none());
}

#[test]
fn add_image_decodes_real_png() {
    // encode a 2x1 RGBA png, then feed it through the decoder
    let pixels: Vec<u8> = vec![1, 2, 3, 4, 250, 251, 252, 253];
    let mut png_bytes: Vec<u8> = Vec::new();
    {
        let mut encoder = png::Encoder::new(Cursor::new(&mut png_bytes), 2, 1);
        encoder.set_color(png::ColorType::Rgba);
        encoder.set_depth(png::BitDepth::Eight);
        let mut writer = encoder.write_header().unwrap();
        writer.write_image_data(&pixels).unwrap();
        writer.finish().unwrap();
    }
    let mut atlas = Atlas::new();
    atlas.add_image("sprite".to_string(), &png_bytes).unwrap();
    assert_eq!(atlas.images.len(), 1);
    assert_eq!(atlas.images[0].width, 2);
    assert_eq!(atlas.images[0].height, 1);
    assert_eq!(atlas.images[0].data, pixels);
    assert_eq!(atlas.width, 2);
}

#[test]
fn add_image_rejects_garbage() {
    let mut atlas = Atlas::new();
    let e = atlas.add_image("bad".to_string(), &vec![1, 2, 3, 4]).unwrap_err();
    assert_eq!(e, AtlasError::Decode);
    assert!(atlas.images.is_empty());
}

#[test]
fn degenerate_canvas_is_archive_error() {
    // a zero-sized canvas reaches the png encoder, which refuses it
    let mut atlas = Atlas::new();
    atlas.images.push(Image { name: "zero".to_string(), width: 0, height: 0, data: Vec::new() });
    atlas.records.push(atlast::geometry::Rect { x: 0, y: 0, width: 0, height: 0 });
    atlas.width = 0;
    let e = atlas.build_archive(&Vec::new()).unwrap_err();
    assert_eq!(e, AtlasError::Archive);
}
