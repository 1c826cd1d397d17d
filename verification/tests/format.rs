use image2ascii::archive::{pack_bytes, unpack_bytes};
use image2ascii::color::Color;
use image2ascii::node::Node;
use image2ascii::package::Package;

fn sample_nodes() -> Vec<Node> {
    vec![
        Node::new(Color::Rgb([1, 2, 3]), 4, (5, 6)),
        Node::new(Color::My256(200), 15, (0x0102, 0x0304)),
        Node::new(Color::Df256(7), 0, (65535, 0)),
    ]
}

fn frames_of(que: &mut image2ascii::node::NodeQue) -> Vec<Vec<Node>> {
    let mut out = Vec::new();
    while let Some(f) = que.get_front() {
        out.push(f);
    }
    out
}

#[test]
fn package_bytes_layout() {
    let nodes = vec![Node::new(Color::Rgb([1, 2, 3]), 4, (5, 0x0106)), Node::new(Color::My256(9), 1, (2, 3))];
    let pkg = Package::new(24, 0x0102, 0x0304, vec![1, 0x01020304], nodes);
    let bytes = pkg.to_bytes();
    let expected: Vec<u8> = vec![
        b'I', b'2', b'A', 24, 0x01, 0x02, 0x03, 0x04, 0, 0, 0, 2, 0, 0, 0, 1, 0x01, 0x02, 0x03, 0x04,
        0, 0, 0, 0, 0, 0, 0, 2, 0, 1, 2, 3, 4, 0, 5, 0x01, 0x06, 1, 9, 1, 0, 2, 0, 3,
    ];
    assert_eq!(bytes, expected);
}

#[test]
fn package_bytes_roundtrip() {
    let pkg = Package::new(30, 80, 24, vec![2, 1], sample_nodes());
    let bytes = pkg.to_bytes();
    let back = Package::from_bytes(&bytes).expect("decodes");
    assert_eq!(back.get_config(), (30, 80, 24));
    assert_eq!(back.to_bytes(), bytes);
    let mut with_tail = bytes.clone();
    with_tail.extend_from_slice(&[9, 9, 9]);
    let back2 = Package::from_bytes(&with_tail).expect("trailing bytes are ignored");
    assert_eq!(back2.to_bytes(), bytes);
}

#[test]
fn package_bytes_rejected() {
    let pkg = Package::new(30, 80, 24, vec![3], sample_nodes());
    let bytes = pkg.to_bytes();
    let mut bad_magic = bytes.clone();
    bad_magic[0] = b'X';
    assert!(Package::from_bytes(&bad_magic).is_none());
    assert!(Package::from_bytes(&bytes[..bytes.len() - 1]).is_none());
    assert!(Package::from_bytes(&bytes[..5]).is_none());
    let mut bad_tag = bytes.clone();
    // first cell's colour tag follows the 12-byte header, one count and the cell count
    bad_tag[12 + 4 + 8] = 3;
    assert!(Package::from_bytes(&bad_tag).is_none());
    assert!(Package::from_bytes(&[]).is_none());
}

#[test]
fn open_splits_frames() {
    let nodes = sample_nodes();
    let pkg = Package::new(1, 2, 3, vec![2, 0, 1], nodes.clone());
    let mut que = Package::open(pkg);
    let frames = frames_of(&mut que);
    assert_eq!(frames.len(), 3);
    assert!(frames[0].len() == 2 && frames[0][0].pos == (5, 6) && frames[0][1].pos == (0x0102, 0x0304));
    assert!(frames[1].is_empty());
    assert_eq!(frames[2][0].pos, (65535, 0));
}

#[test]
fn open_short_of_cells() {
    let pkg = Package::new(1, 2, 3, vec![2, 5, 4], sample_nodes());
    let mut que = Package::open(pkg);
    let frames = frames_of(&mut que);
    assert_eq!(frames.iter().map(|f| f.len()).collect::<Vec<_>>(), vec![2, 1, 0]);
}

#[test]
fn pack_unpack_roundtrip() {
    let pkg = Package::new(24, 100, 40, vec![1, 2], sample_nodes());
    let raw = pkg.to_bytes();
    let packed = pack_bytes(&pkg).expect("compresses");
    assert_ne!(packed, raw);
    let back = unpack_bytes(&packed).expect("unpacks");
    assert_eq!(back.to_bytes(), raw);
    // uncompressed bytes are not a packed package
    assert!(unpack_bytes(&raw).map(|p| p.to_bytes() != raw).unwrap_or(true));
}

#[test]
fn pack_unpack_big_package() {
    let mut nodes = Vec::new();
    for i in 0..1000u16 {
        nodes.push(Node::new(Color::Df256((i % 256) as u8), (i % 16) as u8, (i, i / 2)));
    }
    let pkg = Package::new(12, 300, 200, vec![500, 500], nodes);
    let packed = pack_bytes(&pkg).expect("compresses");
    assert!(packed.len() < pkg.to_bytes().len());
    let back = unpack_bytes(&packed).expect("unpacks");
    assert_eq!(back.to_bytes(), pkg.to_bytes());
}

#[test]
fn unpack_garbage() {
    assert!(unpack_bytes(&[0xff, 0xff, 0xff, 0xff]).is_none());
}
