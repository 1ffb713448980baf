use raymond::tile::{Radiance, Tile};
use raymond::wire::{HEADER_LEN, PIXEL_LEN};

fn sample_tile() -> Tile {
    Tile {
        sample_count: 8,
        width: 2,
        height: 1,
        left: 0x0102_0304,
        top: 16,
        data: vec![
            Radiance { r: 1.0f32.to_bits(), g: 0, b: 0xAABB_CCDD },
            Radiance { r: 1, g: 256, b: 65536 },
        ],
    }
}

#[test]
fn wire_lengths() {
    assert_eq!(HEADER_LEN, 20);
    assert_eq!(PIXEL_LEN, 12);
}

#[test]
fn to_wire_writes_little_endian_words() {
    let bytes = sample_tile().to_wire().expect("tile can be carried");
    let expected: Vec<u8> = vec![
        8, 0, 0, 0, // sample count
        2, 0, 0, 0, // width
        1, 0, 0, 0, // height
        4, 3, 2, 1, // left
        16, 0, 0, 0, // top
        0x00, 0x00, 0x80, 0x3f, 0, 0, 0, 0, 0xDD, 0xCC, 0xBB, 0xAA, //
        1, 0, 0, 0, 0, 1, 0, 0, 0, 0, 1, 0,
    ];
    assert_eq!(bytes, expected);
}

#[test]
fn wire_matches_the_machine_encoding() {
    let t = sample_tile();
    let bytes = t.to_wire().expect("tile can be carried");
    let mut expected = Vec::new();
    for v in [t.sample_count, t.width, t.height, t.left, t.top] {
        expected.extend_from_slice(&(v as u32).to_le_bytes());
    }
    for p in t.data.iter() {
        expected.extend_from_slice(&f32::from_bits(p.r).to_le_bytes());
        expected.extend_from_slice(&f32::from_bits(p.g).to_le_bytes());
        expected.extend_from_slice(&f32::from_bits(p.b).to_le_bytes());
    }
    assert_eq!(bytes, expected);
}

#[test]
fn wire_round_trip() {
    let t = sample_tile();
    let bytes = t.to_wire().expect("tile can be carried");
    assert_eq!(Tile::from_wire(&bytes), Some(t));
    let empty = Tile::new(3, 4, 0, 7);
    let bytes = empty.to_wire().expect("empty tile can be carried");
    assert_eq!(bytes.len(), 20);
    assert_eq!(Tile::from_wire(&bytes), Some(empty));
}

#[test]
fn to_wire_refuses_what_it_cannot_carry() {
    let mut t = sample_tile();
    t.data.pop();
    assert_eq!(t.to_wire(), None);
    let mut t = sample_tile();
    t.left = u32::MAX as usize + 1;
    assert_eq!(t.to_wire(), None);
    let mut t = sample_tile();
    t.sample_count = usize::MAX;
    assert_eq!(t.to_wire(), None);
    let mut t = sample_tile();
    t.top = u32::MAX as usize;
    assert!(t.to_wire().is_some());
}

#[test]
fn from_wire_refuses_bad_frames() {
    let bytes = sample_tile().to_wire().expect("tile can be carried");
    assert_eq!(Tile::from_wire(&bytes[..19].to_vec()), None);
    assert_eq!(Tile::from_wire(&bytes[..bytes.len() - 1].to_vec()), None);
    assert_eq!(Tile::from_wire(&bytes[..32].to_vec()), None);
    let mut longer = bytes.clone();
    longer.extend_from_slice(&[0; 12]);
    assert_eq!(Tile::from_wire(&longer), None);
    assert_eq!(Tile::from_wire(&Vec::new()), None);
    let mut huge = bytes[..20].to_vec();
    for i in 4..12 {
        huge[i] = 0xff;
    }
    assert_eq!(Tile::from_wire(&huge), None);
}
