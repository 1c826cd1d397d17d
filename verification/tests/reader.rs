use image2ascii::color::Color;
use image2ascii::node::Node;
use image2ascii::package::Package;
use image2ascii::reader::{fits, frame_nodes, get_tran_size, img2asc, rate_adjust, VideoPacker};

fn cell(c: u8, style: u8) -> Node {
    Node::new(Color::My256(c), style, (0, 0))
}

#[test]
fn tran_size_full_width() {
    assert_eq!(get_tran_size(1920, 1080, 80, 24), (80, 22));
}

#[test]
fn tran_size_full_height() {
    assert_eq!(get_tran_size(100, 1000, 80, 24), (4, 24));
}

#[test]
fn img2asc_modes() {
    let frame = vec![255, 255, 255, 32, 64, 128, 7];
    let depths = vec![255, 20];
    let rgb = img2asc(frame.clone(), 0, &depths);
    assert_eq!(rgb.len(), 2);
    assert!(rgb[0].node_col == Color::Rgb([255, 255, 255]) && rgb[0].node_style == 15 && rgb[0].pos == (0, 0));
    assert!(rgb[1].node_col == Color::Rgb([32, 64, 128]) && rgb[1].node_style == 1);
    let cube = img2asc(frame.clone(), 1, &depths);
    assert!(cube[0].node_col == Color::My256(215));
    let packed = img2asc(frame.clone(), 2, &depths);
    assert!(packed[1].node_col == Color::Df256(42));
    let other = img2asc(frame, 9, &depths);
    assert!(other[1].node_col == Color::Rgb([32, 64, 128]));
}

#[test]
fn rate_keeps_all_when_slower() {
    let (fps, set) = rate_adjust(10, 24);
    assert_eq!(fps, 10);
    let mut v: Vec<u8> = set.into_iter().collect();
    v.sort();
    assert_eq!(v, (0..10).collect::<Vec<u8>>());
}

#[test]
fn rate_drops_frames_when_faster() {
    let (fps, set) = rate_adjust(30, 24);
    assert_eq!(fps, 24);
    let mut v: Vec<u8> = set.into_iter().collect();
    v.sort();
    let expected: Vec<u8> = (0..24u32).map(|k| (k * 30 / 24) as u8).collect();
    assert_eq!(v, expected);
    assert_eq!(v.len(), 24);
}

#[test]
fn rate_zero_target() {
    let (fps, set) = rate_adjust(5, 0);
    assert_eq!(fps, 0);
    assert!(set.is_empty());
}

#[test]
fn first_frame_all_cells_column_major() {
    // 2 columns, 2 rows, rows 3 cells apart (one padding cell a row)
    let now = vec![cell(1, 1), cell(2, 2), cell(0, 0), cell(3, 3), cell(4, 4), cell(0, 0)];
    assert!(fits(now.len(), 2, 2));
    let out = frame_nodes(&now, None, 2, 2);
    let got: Vec<(u8, (u16, u16))> = out.iter().map(|n| (n.node_style, n.pos)).collect();
    assert_eq!(got, vec![(1, (0, 0)), (3, (0, 1)), (2, (1, 0)), (4, (1, 1))]);
}

#[test]
fn later_frame_only_changes() {
    let last = vec![cell(1, 1), cell(2, 2), cell(3, 3), cell(4, 4)];
    let mut now = last.clone();
    assert!(frame_nodes(&now, Some(&last), 2, 2).is_empty());
    now[3] = cell(4, 5);
    now[0] = cell(9, 1);
    let out = frame_nodes(&now, Some(&last), 2, 2);
    let got: Vec<(u8, (u16, u16))> = out.iter().map(|n| (n.node_style, n.pos)).collect();
    assert_eq!(got, vec![(1, (0, 0)), (5, (1, 1))]);
}

#[test]
fn fits_checks_layout() {
    assert!(!fits(4, 2, 0));
    assert!(fits(4, 2, 2));
    assert!(fits(3, 2, 2));
    assert!(!fits(2, 2, 2));
    assert!(fits(0, 0, 3));
}

#[test]
fn packer_scenario() {
    assert!(VideoPacker::new(0, 2, 1).is_none());
    let mut p = VideoPacker::new(2, 2, 1).unwrap();
    let frames = vec![
        vec![cell(1, 1), cell(2, 2)],
        vec![cell(1, 1), cell(2, 3)],
        vec![cell(1, 1), cell(2, 3)],
    ];
    for f in frames {
        assert!(p.wants_frame());
        assert!(p.can_add(f.len()));
        p.add_frame(f);
        p.advance();
    }
    assert!(!p.can_add(3));
    let pkg = p.finish(80, 24);
    assert_eq!(pkg.get_config(), (2, 80, 24));
    let mut que = Package::open(pkg);
    let a = que.get_front().unwrap();
    assert_eq!(a.len(), 2);
    let b = que.get_front().unwrap();
    assert!(b.len() == 1 && b[0].pos == (1, 0) && b[0].node_style == 3);
    assert!(que.get_front().unwrap().is_empty());
    assert!(que.get_front().is_none());
}

#[test]
fn packer_skips_frames() {
    let mut p = VideoPacker::new(48, 1, 1).unwrap();
    let mut kept = 0;
    for _ in 0..48 {
        if p.wants_frame() {
            p.add_frame(vec![cell(0, 0)]);
            kept += 1;
        }
        p.advance();
    }
    assert_eq!(kept, 24);
}

#[test]
fn packer_keeps_rate_per_second() {
    let mut p = VideoPacker::new(30, 1, 1).unwrap();
    let mut kept = 0;
    for _ in 0..60 {
        if p.wants_frame() {
            p.add_frame(vec![cell(0, 0)]);
            kept += 1;
        }
        p.advance();
    }
    assert_eq!(kept, 48);
}

#[test]
fn img2asc_joins_whole_pixels() {
    let a = vec![255u8, 0, 0, 0, 255, 0];
    let b = vec![0u8, 0, 255, 9, 9];
    let da = vec![160u8, 32];
    let db = vec![48u8];
    let mut joined = a.clone();
    joined.extend_from_slice(&b);
    let mut dj = da.clone();
    dj.extend_from_slice(&db);
    for flag in 0..3u8 {
        let whole = img2asc(joined.clone(), flag, &dj);
        let mut parts = img2asc(a.clone(), flag, &da);
        parts.extend(img2asc(b.clone(), flag, &db));
        assert_eq!(whole.len(), 3);
        assert_eq!(whole.len(), parts.len());
        for (x, y) in whole.iter().zip(parts.iter()) {
            assert!(x.node_col == y.node_col && x.node_style == y.node_style && x.pos == y.pos);
        }
    }
}
