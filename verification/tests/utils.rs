use image2ascii::utils::{fill_grid, fit_size, frame_updates, Node, Picture, Readd, Show, TimeLine};

fn n(style: u8, x: u32, y: u32) -> Node {
    Node::init((style, style, style), style, (x, y))
}

#[test]
fn node_chars() {
    let s: String = (0..16u8).map(|i| Node::init((0, 0, 0), i, (0, 0)).get_char()).collect();
    assert_eq!(s, " .:;i7raZS08XMW@");
}

#[test]
fn timeline_size() {
    assert_eq!(TimeLine::new(80, 24).get_size(), (80, 24));
}

#[test]
fn readd_fifo() {
    let mut r = Readd::init();
    assert!(r.get_fron().is_none());
    r.add_back(vec![n(1, 1, 1)]);
    r.add_back(vec![n(2, 1, 1), n(3, 2, 1)]);
    assert_eq!(r.get_fron().unwrap().len(), 1);
    assert_eq!(r.get_fron().unwrap().len(), 2);
    assert!(r.get_fron().is_none());
}

#[test]
fn smallize_keeps_first_and_changes() {
    let f0 = vec![vec![n(1, 1, 1), n(2, 2, 1)], vec![n(3, 1, 2), n(4, 2, 2)]];
    let mut f1 = f0.clone();
    f1[1][0] = n(9, 1, 2);
    let f2 = f1.clone();
    let small = Readd::smallize(vec![f0, f1, f2]);
    assert_eq!(small.len(), 3);
    assert_eq!(small[0].len(), 4);
    assert_eq!(small[1], vec![n(9, 1, 2)]);
    assert!(small[2].is_empty());
}

#[test]
fn frame_updates_first_and_later() {
    let f0 = vec![vec![n(0, 1, 1), n(2, 2, 1)], vec![n(3, 1, 2), n(0, 2, 2)]];
    let first = frame_updates(&f0, None);
    assert_eq!(first, vec![n(2, 2, 1), n(3, 1, 2)]);
    let mut f1 = f0.clone();
    f1[0][0] = n(5, 1, 1);
    assert_eq!(frame_updates(&f1, Some(&f0)), vec![n(5, 1, 1)]);
    assert!(frame_updates(&f0, Some(&f0)).is_empty());
}

#[test]
fn fit_size_values() {
    assert_eq!(fit_size(1920, 1080, (80, 24)), (80, 22));
    assert_eq!(fit_size(100, 1000, (80, 24)), (4, 24));
}

#[test]
fn fill_grid_blanks_middle() {
    let colors: Vec<(u8, u8, u8)> = (0..9u8).map(|i| (i, i, i)).collect();
    let levels: Vec<u8> = (0..9u8).collect();
    let g = fill_grid(3, 3, &colors, &levels);
    assert_eq!(g.len(), 3);
    let blank = Node::init((0, 0, 0), 0, (0, 0));
    assert_eq!(g[0][0], Node::init((0, 0, 0), 0, (1, 1)));
    assert_eq!(g[0][2], Node::init((2, 2, 2), 2, (3, 1)));
    assert_eq!(g[2][2], Node::init((8, 8, 8), 8, (3, 3)));
    assert_eq!(g[1][0], blank);
    assert_eq!(g[0][1], blank);
}

#[test]
fn show_put() {
    let mut s = Show::new(3, 2);
    assert!(s.put(n(5, 2, 1)));
    assert!(!s.put(n(5, 3, 1)));
    assert!(!s.put(n(5, 0, 2)));
}

#[test]
fn scale_picture_sizes_and_pixels() {
    let bytes: Vec<u8> = [10u8, 20, 30, 255].iter().cycle().take(2 * 8 * 4).cloned().collect();
    let pic = Picture::new(2, 8, bytes).expect("four bytes a pixel");
    assert_eq!(pic.size(), (2, 8));
    let scaled = Readd::scale_picture(&pic, (80, 24)).expect("scales");
    assert_eq!((scaled.src_w, scaled.src_h, scaled.w, scaled.h), (2, 8, 12, 24));
    assert_eq!(scaled.rgb.len(), 12 * 24);
    assert!(scaled.rgb.iter().all(|&p| p == (10, 20, 30)));
    let wide = Picture::new(4, 2, vec![0u8; 32]).unwrap();
    let scaled2 = Readd::scale_picture(&wide, (2, 1)).expect("scales");
    assert_eq!((scaled2.w, scaled2.h, scaled2.rgb.len()), (2, 0, 0));
    let empty = Picture::new(0, 5, Vec::new()).unwrap();
    assert!(Readd::scale_picture(&empty, (2, 1)).is_none());
    assert!(Picture::new(2, 2, vec![0u8; 15]).is_none());
}

#[test]
fn scaled_size_values() {
    assert_eq!(Readd::scaled_size(2, 8, (80, 24)), Some((12, 24)));
    assert_eq!(Readd::scaled_size(1920, 1080, (80, 24)), Some((80, 22)));
    assert_eq!(Readd::scaled_size(0, 8, (80, 24)), None);
    assert_eq!(Readd::scaled_size(1, u32::MAX, (3, 24)), None);
}

#[test]
fn picture_from_rgb24_frame() {
    let pic = Picture::from_rgb24(2, 1, &[1, 2, 3, 4, 5, 6]).expect("decodes");
    assert_eq!(pic.size(), (2, 1));
    let scaled = Readd::scale_picture(&pic, (4, 1)).expect("scales");
    assert_eq!((scaled.src_w, scaled.src_h), (2, 1));
    assert!(Picture::from_rgb24(2, 1, &[1, 2, 3]).is_none());
}

#[test]
fn changes_rebuild_next_frame() {
    let prev = vec![vec![n(1, 1, 1), n(2, 2, 1)], vec![n(3, 1, 2), n(4, 2, 2)]];
    let mut now = prev.clone();
    now[0][1] = n(7, 2, 1);
    now[1][0] = n(8, 1, 2);
    let ups = frame_updates(&now, Some(&prev));
    assert_eq!(ups.len(), 2);
    let mut grid = prev.clone();
    for v in ups {
        let (x, y) = (v.pos.0 as usize - 1, v.pos.1 as usize - 1);
        grid[y][x] = v;
    }
    assert_eq!(grid, now);
}
