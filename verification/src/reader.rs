//! Turning decoded pictures into cells: the size a picture is scaled to, the
//! cells of a picture, which source frames are kept, and which cells of a
//! frame changed since the last kept frame.
use crate::color::{
    lemma_df256_levels, lemma_my256_levels, rgb2df256, rgb2my256, spec_df256, spec_my256, Color,
};
use crate::node::{same_look, Node};
use crate::package::{flatten_frames, frame_lens, lemma_open_inverts_flatten, split_frames, Package, PackageModel};
use std::collections::HashSet;
use vstd::prelude::*;
use vstd::set_lib::{lemma_int_range, lemma_map_size, set_int_range};

verus! {

/// The size (columns, rows) a picture of `img_w` x `img_h` pixels is scaled
/// to on a screen of `screen` = (width, height) cells. Two pixel rows make one
/// cell row. The picture takes the full width unless it would then be too
/// tall; then it takes the full height.
pub open spec fn fitted_size(img_w: u32, img_h: u32, screen: (u32, u32)) -> (int, int) {
    let h2 = (img_h / 2) as int;
    let hh = h2 * (screen.0 as int) / (img_w as int);
    if hh > screen.1 {
        ((img_w as int) * (screen.1 as int) / h2, screen.1 as int)
    } else {
        (screen.0 as int, hh)
    }
}

/// The size a picture is scaled to on a terminal of `width` x `height` cells.
pub open spec fn tran_size(img_w: u32, img_h: u32, width: u16, height: u16) -> (int, int) {
    fitted_size(img_w, img_h, (width as u32, height as u32))
}

/// The scaled size of a picture (see [`tran_size`]).
pub fn get_tran_size(img_w: u32, img_h: u32, width: u16, height: u16) -> (size: (u32, u32))
    requires
        img_w > 0,
        (img_h / 2) * width <= u32::MAX,
        ((img_h / 2) * width) / (img_w as int) > height ==> img_w * height <= u32::MAX,
    ensures
        size.0 == tran_size(img_w, img_h, width, height).0,
        size.1 == tran_size(img_w, img_h, width, height).1,
        size.0 <= width,
        size.1 <= height,
{
    proof {
        lemma_tran_size_keeps_shape(img_w, img_h, width, height);
    }
    let img_h = img_h / 2;
    let mut ww = width as u32;
    let mut hh = img_h * width as u32 / img_w;
    if hh > height as u32 {
        hh = height as u32;
        ww = img_w * height as u32 / img_h;
    }
    (ww, hh)
}

/// The scaled picture fits on the screen.
pub proof fn lemma_fitted_size_fits(img_w: u32, img_h: u32, screen: (u32, u32))
    requires
        img_w > 0,
    ensures
        0 <= fitted_size(img_w, img_h, screen).0 <= screen.0,
        0 <= fitted_size(img_w, img_h, screen).1 <= screen.1,
{
    let h2 = (img_h / 2) as int;
    let w = img_w as int;
    let sw = screen.0 as int;
    let sh = screen.1 as int;
    let hh = h2 * sw / w;
    assert(0 <= h2 * sw) by (nonlinear_arith)
        requires
            0 <= h2,
            0 <= sw,
    ;
    assert(0 <= hh) by (nonlinear_arith)
        requires
            hh == h2 * sw / w,
            0 <= h2 * sw,
            w > 0,
    ;
    if hh > sh {
        assert(w * sh / h2 <= sw && 0 <= w * sh / h2) by (nonlinear_arith)
            requires
                hh == h2 * sw / w,
                hh > sh,
                w > 0,
                sh >= 0,
                sw >= 0,
                h2 >= 0,
        {
            assert(h2 * sw >= w * hh);
            assert(w * hh >= w * (sh + 1));
            assert(h2 > 0);
            assert(w * sh < h2 * sw);
        }
    }
}

/// The scaled picture keeps its shape, two pixel rows a cell row: either it
/// takes the full screen width and as many rows as fit that width (the most
/// `r` with `r * img_w <= (img_h / 2) * width`), or it takes the full screen
/// height and as many columns as fit that height (the most `c` with
/// `c * (img_h / 2) <= img_w * height`); the first whenever those rows fit
/// on the screen. Either way it fits on the screen.
pub proof fn lemma_fitted_size_keeps_shape(img_w: u32, img_h: u32, screen: (u32, u32))
    requires
        img_w > 0,
    ensures
        ({
            let (c, r) = fitted_size(img_w, img_h, screen);
            let h2 = (img_h / 2) as int;
            let w = img_w as int;
            &&& 0 <= c <= screen.0
            &&& 0 <= r <= screen.1
            &&& (h2 * (screen.0 as int) < (screen.1 as int + 1) * w) ==> (c == screen.0 && r * w
                <= h2 * c < (r + 1) * w)
            &&& (h2 * (screen.0 as int) >= (screen.1 as int + 1) * w) ==> (r == screen.1 && h2
                > 0 && c * h2 <= w * r < (c + 1) * h2)
        }),
{
    lemma_fitted_size_fits(img_w, img_h, screen);
    let h2 = (img_h / 2) as int;
    let w = img_w as int;
    let sw = screen.0 as int;
    let sh = screen.1 as int;
    let hh = h2 * sw / w;
    assert(hh * w <= h2 * sw < (hh + 1) * w) by (nonlinear_arith)
        requires
            hh == h2 * sw / w,
            w > 0,
    ;
    if h2 * sw < (sh + 1) * w {
        assert(hh <= sh) by (nonlinear_arith)
            requires
                hh * w <= h2 * sw,
                h2 * sw < (sh + 1) * w,
                w > 0,
        ;
    } else {
        assert(hh > sh) by (nonlinear_arith)
            requires
                (hh + 1) * w > h2 * sw,
                h2 * sw >= (sh + 1) * w,
                w > 0,
        ;
        assert(h2 > 0) by (nonlinear_arith)
            requires
                h2 * sw >= (sh + 1) * w,
                w > 0,
                sh >= 0,
                h2 >= 0,
        ;
        let c = w * sh / h2;
        assert(c * h2 <= w * sh < (c + 1) * h2) by (nonlinear_arith)
            requires
                c == w * sh / h2,
                h2 > 0,
        ;
    }
}

/// The size a picture is scaled to on a terminal (see [`get_tran_size`])
/// keeps the picture's shape and fits on the terminal (see
/// [`lemma_fitted_size_keeps_shape`]).
pub proof fn lemma_tran_size_keeps_shape(img_w: u32, img_h: u32, width: u16, height: u16)
    requires
        img_w > 0,
    ensures
        ({
            let (c, r) = tran_size(img_w, img_h, width, height);
            let h2 = (img_h / 2) as int;
            let w = img_w as int;
            &&& 0 <= c <= width
            &&& 0 <= r <= height
            &&& (h2 * (width as int) < (height as int + 1) * w) ==> (c == width && r * w <= h2
                * c < (r + 1) * w)
            &&& (h2 * (width as int) >= (height as int + 1) * w) ==> (r == height && h2 > 0 && c
                * h2 <= w * r < (c + 1) * h2)
        }),
{
    lemma_fitted_size_keeps_shape(img_w, img_h, (width as u32, height as u32));
}

/// The colour a pixel gets in colour mode `flag`: 1 the colour cube, 2 the
/// packed palette, any other value the true colour.
pub open spec fn pixel_color(flag: u8, r: u8, g: u8, b: u8) -> Color {
    if flag == 1 {
        Color::My256(spec_my256(r, g, b) as u8)
    } else if flag == 2 {
        Color::Df256(spec_df256(r, g, b) as u8)
    } else {
        Color::Rgb([r, g, b])
    }
}

/// The cell of pixel `i` of an RGB frame whose brightness (0..=255) is `dep`.
pub open spec fn pixel_node(frame: Seq<u8>, i: int, flag: u8, dep: u8) -> Node {
    Node {
        node_col: pixel_color(flag, frame[3 * i], frame[3 * i + 1], frame[3 * i + 2]),
        node_style: dep / 16,
        pos: (0, 0),
    }
}

/// The cells of a packed RGB frame, one a whole pixel (see [`pixel_node`]).
pub open spec fn asc_of(frame: Seq<u8>, flag: u8, depths: Seq<u8>) -> Seq<Node> {
    Seq::new(frame.len() / 3, |i: int| pixel_node(frame, i, flag, depths[i]))
}

/// The cells of a packed RGB frame (three bytes a pixel, trailing bytes of an
/// incomplete pixel ignored), one cell a pixel, at position (0, 0).
/// `depths[i]` is the brightness of pixel `i` (0..=255); the cell's level is
/// that brightness over 16. Colour modes: 0 true colour, 1 colour cube,
/// 2 packed palette; other values give true colour.
pub fn img2asc(frame: Vec<u8>, color_flag: u8, depths: &[u8]) -> (asc: Vec<Node>)
    requires
        depths@.len() >= frame@.len() / 3,
    ensures
        asc@ == asc_of(frame@, color_flag, depths@),
        asc@.len() == frame@.len() / 3,
        forall|i: int|
            0 <= i < asc@.len() ==> #[trigger] asc@[i] == pixel_node(
                frame@,
                i,
                color_flag,
                depths@[i],
            ),
{
    let mut asc: Vec<Node> = Vec::new();
    let flen = frame.len();
    let len = flen / 3;
    for idx in 0..len
        invariant
            flen == frame@.len(),
            len == frame@.len() / 3,
            depths@.len() >= len,
            asc@.len() == idx,
            forall|i: int|
                0 <= i < idx ==> #[trigger] asc@[i] == pixel_node(
                    frame@,
                    i,
                    color_flag,
                    depths@[i],
                ),
    {
        assert(3 * idx + 3 <= frame@.len()) by (nonlinear_arith)
            requires
                idx < len,
                len == frame@.len() / 3,
        ;
        let r = frame[idx * 3];
        let g = frame[idx * 3 + 1];
        let b = frame[idx * 3 + 2];
        let dep = depths[idx];
        let col = if color_flag == 1 {
            Color::My256(rgb2my256(r, g, b))
        } else if color_flag == 2 {
            Color::Df256(rgb2df256(r, g, b))
        } else {
            Color::Rgb([r, g, b])
        };
        asc.push(Node::new(col, dep / 16, (0u16, 0u16)));
    }
    assert(asc@ =~= asc_of(frame@, color_flag, depths@));
    asc
}

/// The byte that stands for source frame `i / t`.
pub open spec fn frame_slot(i: int, t: int) -> u8 {
    (i / t) as u8
}

/// The source frames (indices within one second) that are kept when a video
/// of `ori` frames a second is played at `tar` frames a second: all of them
/// when `ori <= tar`; otherwise index `i / tar` for each multiple `i` of `ori`
/// below `ori * tar`. Indices are stored as bytes.
pub open spec fn frames_to_read(ori: u16, tar: u16) -> Set<u8> {
    if ori <= tar {
        Set::new(|v: u8| v < ori)
    } else {
        Set::new(
            |v: u8|
                exists|i: int|
                    0 <= i < ori * tar && i % (ori as int) == 0 && v == #[trigger] frame_slot(
                        i,
                        tar as int,
                    ),
        )
    }
}

/// The frame rate to play at and the set of source frames (indices within
/// one second) to keep: the rate is `min(ori_fps, tar_fps)` as a byte.
pub fn rate_adjust(ori_fps: u16, tar_fps: u16) -> (r: (u8, HashSet<u8>))
    requires
        ori_fps > tar_fps ==> ori_fps * tar_fps <= u16::MAX,
    ensures
        r.0 == (if ori_fps <= tar_fps { ori_fps } else { tar_fps }) as u8,
        r.1@ == frames_to_read(ori_fps, tar_fps),
{
    broadcast use vstd::std_specs::hash::group_hash_axioms;

    if ori_fps <= tar_fps {
        let mut rt: HashSet<u8> = HashSet::new();
        for idx in 0..ori_fps
            invariant
                idx <= 256 ==> rt@ == Set::new(|v: u8| v < idx),
                idx >= 256 ==> rt@ == Set::new(|v: u8| true),
        {
            rt.insert(idx as u8);
            proof {
                if idx < 256 {
                    assert(rt@ =~= Set::new(|v: u8| v < idx + 1));
                } else {
                    assert(rt@ =~= Set::new(|v: u8| true));
                }
            }
        }
        assert(rt@ =~= frames_to_read(ori_fps, tar_fps));
        return (ori_fps as u8, rt);
    }
    let mut rt: HashSet<u8> = HashSet::new();
    let ghost o = ori_fps as int;
    let ghost t = tar_fps as int;
    for idx in 0..ori_fps * tar_fps
        invariant
            ori_fps > tar_fps,
            o == ori_fps,
            t == tar_fps,
            rt@ == Set::new(
                |v: u8| exists|i: int| 0 <= i < idx && i % o == 0 && v == #[trigger] frame_slot(i, t),
            ),
    {
        let ghost before = rt@;
        if idx % ori_fps == 0 {
            rt.insert((idx / tar_fps) as u8);
        }
        proof {
            let next = Set::new(
                |v: u8|
                    exists|i: int|
                        0 <= i < idx + 1 && i % o == 0 && v == #[trigger] frame_slot(i, t),
            );
            assert forall|v: u8| #[trigger] next.contains(v) implies rt@.contains(v) by {
                let i = choose|i: int| 0 <= i < idx + 1 && i % o == 0 && v == #[trigger] frame_slot(i, t);
                if i < idx {
                    assert(before.contains(v));
                } else {
                    assert(i == idx);
                }
            }
            assert forall|v: u8| #[trigger] rt@.contains(v) implies next.contains(v) by {
                if before.contains(v) {
                    let i = choose|i: int| 0 <= i < idx && i % o == 0 && v == #[trigger] frame_slot(i, t);
                    assert(0 <= i < idx + 1 && i % o == 0 && v == frame_slot(i, t));
                } else {
                    let i = idx as int;
                    assert(0 <= i < idx + 1 && i % o == 0 && v == frame_slot(i, t));
                }
            }
            assert(rt@ =~= next);
        }
    }
    (tar_fps as u8, rt)
}

/// Whether the cell at index `i` of a frame is drawn: always in a first
/// frame, otherwise when it looks different from the same cell of the last
/// frame.
pub open spec fn cell_changed(now: Seq<Node>, last: Option<Seq<Node>>, i: int) -> bool {
    match last {
        None => true,
        Some(l) => !same_look(now[i], l[i]),
    }
}

/// Cell `n` moved to column `x`, row `y`.
pub open spec fn placed(n: Node, x: int, y: int) -> Node {
    Node { node_col: n.node_col, node_style: n.node_style, pos: (x as u16, y as u16) }
}

/// The drawn cells of column `x`, rows `0..h`, top to bottom; rows are
/// `row_len` cells apart.
pub open spec fn column_changes(
    now: Seq<Node>,
    last: Option<Seq<Node>>,
    row_len: int,
    x: int,
    h: nat,
) -> Seq<Node>
    decreases h,
{
    if h == 0 {
        seq![]
    } else {
        let y = h - 1;
        let prev = column_changes(now, last, row_len, x, (h - 1) as nat);
        let i = y * row_len + x;
        if cell_changed(now, last, i) {
            prev.push(placed(now[i], x, y))
        } else {
            prev
        }
    }
}

/// The drawn cells of columns `0..w`, column after column.
pub open spec fn frame_changes(
    now: Seq<Node>,
    last: Option<Seq<Node>>,
    row_len: int,
    w: nat,
    h: nat,
) -> Seq<Node>
    decreases w,
{
    if w == 0 {
        seq![]
    } else {
        frame_changes(now, last, row_len, (w - 1) as nat, h) + column_changes(
            now,
            last,
            row_len,
            w - 1,
            h,
        )
    }
}

/// Whether a frame of `len` cells holds `w` columns and `h` rows laid out
/// `len / h` cells a row.
pub open spec fn frame_fits(len: int, w: int, h: int) -> bool {
    &&& h > 0
    &&& w > 0 ==> (h - 1) * (len / h) + w <= len
}

/// Whether a frame of `len` cells holds `w` columns and `h` rows laid out
/// `len / h` cells a row (see [`frame_fits`]).
pub fn fits(len: usize, w: u32, h: u32) -> (ok: bool)
    ensures
        ok == frame_fits(len as int, w as int, h as int),
{
    if h == 0 {
        return false;
    }
    if w == 0 {
        return true;
    }
    let row_len = (len / h as usize) as u128;
    let hm = h as u128 - 1;
    assert(hm * row_len + w as u128 <= u128::MAX) by (nonlinear_arith)
        requires
            0 <= hm < 0x1_0000_0000,
            0 <= row_len <= 0x1_0000_0000_0000_0000,
            w < 0x1_0000_0000,
    ;
    let need = hm * row_len + w as u128;
    need <= len as u128
}

/// The ghost view of an optional last frame.
pub open spec fn opt_view(last: Option<&Vec<Node>>) -> Option<Seq<Node>> {
    match last {
        Some(l) => Some(l@),
        None => None,
    }
}

/// The cells of a scaled frame (`tran_w` columns, `tran_h` rows, row after
/// row) to draw, column by column and top to bottom, each moved to its
/// column and row: every cell of a first frame (`last` is `None`), otherwise
/// the cells whose colour or brightness changed since `last`.
pub fn frame_nodes(now: &Vec<Node>, last: Option<&Vec<Node>>, tran_w: u32, tran_h: u32) -> (out:
    Vec<Node>)
    requires
        frame_fits(now@.len() as int, tran_w as int, tran_h as int),
        last matches Some(l) ==> l@.len() >= now@.len(),
    ensures
        out@ == frame_changes(
            now@,
            opt_view(last),
            (now@.len() as int) / (tran_h as int),
            tran_w as nat,
            tran_h as nat,
        ),
{
    let ghost lv = opt_view(last);
    let ghost ns = now@;
    let w = tran_w as usize;
    let h = tran_h as usize;
    let nlen = now.len();
    let row_len = nlen / h;
    let mut out: Vec<Node> = Vec::new();
    for x in 0..w
        invariant
            w == tran_w,
            h == tran_h,
            ns == now@,
            nlen == now@.len(),
            lv == opt_view(last),
            row_len == (now@.len() as int) / (tran_h as int),
            frame_fits(now@.len() as int, tran_w as int, tran_h as int),
            last matches Some(l) ==> l@.len() >= now@.len(),
            out@ == frame_changes(ns, lv, row_len as int, x as nat, h as nat),
    {
        let ghost before = out@;
        for y in 0..h
            invariant
                w == tran_w,
                h == tran_h,
                x < w,
                ns == now@,
                nlen == now@.len(),
                lv == opt_view(last),
                row_len == (now@.len() as int) / (tran_h as int),
                frame_fits(now@.len() as int, tran_w as int, tran_h as int),
                last matches Some(l) ==> l@.len() >= now@.len(),
                out@ == before + column_changes(ns, lv, row_len as int, x as int, y as nat),
        {
            assert(y * row_len + x < now@.len()) by (nonlinear_arith)
                requires
                    y < h,
                    x < w,
                    (h - 1) * row_len + w <= now@.len(),
                    row_len >= 0,
            {
                assert(y * row_len <= (h - 1) * row_len);
            }
            let idx = y * row_len + x;
            let mut node = now[idx];
            let draw = match last {
                None => true,
                Some(l) => !(node == l[idx]),
            };
            if draw {
                node.set_xy(#[verifier::truncate] (x as u16), #[verifier::truncate] (y as u16));
                out.push(node);
            }
            assert(out@ =~= before + column_changes(ns, lv, row_len as int, x as int, (y + 1) as nat));
        }
        assert(out@ =~= frame_changes(ns, lv, row_len as int, (x + 1) as nat, h as nat));
    }
    out
}

proof fn lemma_first_column_len(now: Seq<Node>, row_len: int, x: int, h: nat)
    ensures
        column_changes(now, None, row_len, x, h).len() == h,
    decreases h,
{
    if h > 0 {
        lemma_first_column_len(now, row_len, x, (h - 1) as nat);
    }
}

/// A first frame draws every one of its `w * h` cells.
pub proof fn lemma_first_frame_draws_all(now: Seq<Node>, row_len: int, w: nat, h: nat)
    ensures
        frame_changes(now, None, row_len, w, h).len() == w * h,
    decreases w,
{
    if w > 0 {
        let wp = (w - 1) as nat;
        lemma_first_frame_draws_all(now, row_len, wp, h);
        lemma_first_column_len(now, row_len, wp as int, h);
        assert(frame_changes(now, None, row_len, w, h) == frame_changes(now, None, row_len, wp, h)
            + column_changes(now, None, row_len, wp as int, h));
        assert(wp * h + h == w * h) by (nonlinear_arith)
            requires
                wp + 1 == w,
        ;
    } else {
        assert(w * h == 0) by (nonlinear_arith)
            requires
                w == 0,
        ;
    }
}

proof fn lemma_same_column_empty(now: Seq<Node>, row_len: int, x: int, h: nat)
    ensures
        column_changes(now, Some(now), row_len, x, h) == Seq::<Node>::empty(),
    decreases h,
{
    if h > 0 {
        lemma_same_column_empty(now, row_len, x, (h - 1) as nat);
    }
}

/// A frame that looks exactly like the last one draws nothing.
pub proof fn lemma_unchanged_frame_draws_nothing(now: Seq<Node>, row_len: int, w: nat, h: nat)
    ensures
        frame_changes(now, Some(now), row_len, w, h) == Seq::<Node>::empty(),
    decreases w,
{
    if w > 0 {
        lemma_unchanged_frame_draws_nothing(now, row_len, (w - 1) as nat, h);
        lemma_same_column_empty(now, row_len, w - 1, h);
        assert(Seq::<Node>::empty() + Seq::<Node>::empty() =~= Seq::<Node>::empty());
    }
}

proof fn lemma_column_len_bound(now: Seq<Node>, last: Option<Seq<Node>>, row_len: int, x: int, h: nat)
    ensures
        column_changes(now, last, row_len, x, h).len() <= h,
    decreases h,
{
    if h > 0 {
        lemma_column_len_bound(now, last, row_len, x, (h - 1) as nat);
    }
}

/// A frame draws at most its `w * h` cells.
pub proof fn lemma_frame_changes_bound(
    now: Seq<Node>,
    last: Option<Seq<Node>>,
    row_len: int,
    w: nat,
    h: nat,
)
    ensures
        frame_changes(now, last, row_len, w, h).len() <= w * h,
    decreases w,
{
    if w > 0 {
        let wp = (w - 1) as nat;
        lemma_frame_changes_bound(now, last, row_len, wp, h);
        lemma_column_len_bound(now, last, row_len, wp as int, h);
        assert(frame_changes(now, last, row_len, w, h) == frame_changes(now, last, row_len, wp, h)
            + column_changes(now, last, row_len, wp as int, h));
        assert(wp * h + h == w * h) by (nonlinear_arith)
            requires
                wp + 1 == w,
        ;
    } else {
        assert(w * h == 0) by (nonlinear_arith)
            requires
                w == 0,
        ;
    }
}

/// Appends the cells of `src` to `dst`.
fn append_nodes(dst: &mut Vec<Node>, src: &Vec<Node>)
    ensures
        final(dst)@ == old(dst)@ + src@,
{
    let ghost base = dst@;
    for i in 0..src.len()
        invariant
            dst@ == base + src@.take(i as int),
    {
        dst.push(src[i]);
        assert(dst@ =~= base + src@.take(i + 1));
    }
    assert(src@.take(src@.len() as int) =~= src@);
}

/// What a video packer holds.
pub struct PackerModel {
    /// The frame rate of the source.
    pub ori_fps: u8,
    /// The frame rate played at.
    pub fps: u8,
    /// Source frames kept within each second.
    pub keep: Set<u8>,
    /// Index of the next source frame within the current second.
    pub count: u8,
    /// The last kept frame, all its cells.
    pub last: Option<Seq<Node>>,
    /// The drawn cells of each kept frame so far.
    pub frames: Seq<Seq<Node>>,
    /// Columns and rows of a scaled frame.
    pub tran_w: u32,
    pub tran_h: u32,
}

/// Collects decoded frames of a video into a package: keeps the frames the
/// rate calls for, and of each kept frame the cells that changed since the
/// last kept one.
pub struct VideoPacker {
    ori_fps: u8,
    fps: u8,
    fps_idx: HashSet<u8>,
    count: u8,
    last: Option<Vec<Node>>,
    num_per_frame: Vec<u32>,
    nodes: Vec<Node>,
    tran_w: u32,
    tran_h: u32,
    frames: Ghost<Seq<Seq<Node>>>,
}

impl View for VideoPacker {
    type V = PackerModel;

    closed spec fn view(&self) -> PackerModel {
        PackerModel {
            ori_fps: self.ori_fps,
            fps: self.fps,
            keep: self.fps_idx@,
            count: self.count,
            last: match self.last {
                Some(l) => Some(l@),
                None => None,
            },
            frames: self.frames@,
            tran_w: self.tran_w,
            tran_h: self.tran_h,
        }
    }
}

impl VideoPacker {
    /// The packer's parts agree: the count is below the source rate, the cells
    /// and the counts are those of the frames kept so far.
    pub closed spec fn inv(&self) -> bool {
        &&& self.count < self.ori_fps
        &&& (self.tran_w as int) * (self.tran_h as int) <= u32::MAX
        &&& self.nodes@ == flatten_frames(self.frames@)
        &&& self.num_per_frame@ == frame_lens(self.frames@)
        &&& forall|i: int|
            0 <= i < self.frames@.len() ==> #[trigger] self.frames@[i].len() <= u32::MAX
    }

    /// A packer for a video of `ori_fps` frames a second scaled to `tran_w` x
    /// `tran_h` cells, played at no more than 24 frames a second; `None` when
    /// the video has no frame rate.
    pub fn new(ori_fps: u8, tran_w: u32, tran_h: u32) -> (r: Option<VideoPacker>)
        requires
            (tran_w as int) * (tran_h as int) <= u32::MAX,
        ensures
            ori_fps == 0 ==> r is None,
            ori_fps > 0 ==> (r matches Some(p) && p.inv() && p@ == (PackerModel {
                ori_fps,
                fps: if ori_fps <= 24 { ori_fps } else { 24 },
                keep: frames_to_read(ori_fps as u16, 24),
                count: 0,
                last: None,
                frames: Seq::empty(),
                tran_w,
                tran_h,
            })),
    {
        if ori_fps == 0 {
            return None;
        }
        let (fps, fps_idx) = rate_adjust(ori_fps as u16, 24);
        let packer = VideoPacker {
            ori_fps,
            fps,
            fps_idx,
            count: 0,
            last: None,
            num_per_frame: Vec::new(),
            nodes: Vec::new(),
            tran_w,
            tran_h,
            frames: Ghost(Seq::empty()),
        };
        assert(packer.nodes@ =~= flatten_frames(packer.frames@));
        assert(packer.num_per_frame@ =~= frame_lens(packer.frames@));
        Some(packer)
    }

    /// Whether the current source frame is one to keep.
    pub fn wants_frame(&self) -> (keep: bool)
        requires
            self.inv(),
        ensures
            keep == self@.keep.contains(self@.count),
    {
        broadcast use vstd::std_specs::hash::group_hash_axioms;

        self.fps_idx.contains(&self.count)
    }

    /// Whether a frame of `len` cells can be added (see [`VideoPacker::add_frame`]).
    pub fn can_add(&self, len: usize) -> (ok: bool)
        ensures
            ok == (frame_fits(len as int, self@.tran_w as int, self@.tran_h as int) && (
            self@.last matches Some(l) ==> l.len() >= len)),
    {
        let fit = fits(len, self.tran_w, self.tran_h);
        match &self.last {
            Some(l) => fit && l.len() >= len,
            None => fit,
        }
    }

    /// Adds a kept frame (all its cells, row after row): its changed cells
    /// become the next frame of the package.
    pub fn add_frame(&mut self, now: Vec<Node>)
        requires
            old(self).inv(),
            frame_fits(now@.len() as int, old(self)@.tran_w as int, old(self)@.tran_h as int),
            old(self)@.last matches Some(l) ==> l.len() >= now@.len(),
        ensures
            final(self).inv(),
            final(self)@ == (PackerModel {
                last: Some(now@),
                frames: old(self)@.frames.push(
                    frame_changes(
                        now@,
                        old(self)@.last,
                        (now@.len() as int) / (old(self)@.tran_h as int),
                        old(self)@.tran_w as nat,
                        old(self)@.tran_h as nat,
                    ),
                ),
                ..old(self)@
            }),
    {
        let changed = frame_nodes(&now, self.last.as_ref(), self.tran_w, self.tran_h);
        let ghost row_len = (now@.len() as int) / (self.tran_h as int);
        proof {
            lemma_frame_changes_bound(
                now@,
                old(self)@.last,
                row_len,
                self.tran_w as nat,
                self.tran_h as nat,
            );
        }
        let p_count = changed.len() as u32;
        let ghost frames = self.frames@.push(changed@);
        append_nodes(&mut self.nodes, &changed);
        assert(frames.drop_last() =~= old(self)@.frames);
        assert(flatten_frames(frames) == flatten_frames(old(self)@.frames) + changed@);
        assert(frame_lens(frames) =~= frame_lens(old(self)@.frames).push(p_count));
        self.num_per_frame.push(p_count);
        self.last = Some(now);
        self.frames = Ghost(frames);
    }

    /// Moves on to the next source frame: the count is the index of the
    /// source frame within its second, so after the last of the source's
    /// `ori_fps` frames of a second it starts again at 0.
    pub fn advance(&mut self)
        requires
            old(self).inv(),
        ensures
            final(self).inv(),
            final(self)@ == (PackerModel {
                count: ((old(self)@.count + 1) % (old(self)@.ori_fps as int)) as u8,
                ..old(self)@
            }),
    {
        self.count = (self.count + 1) % self.ori_fps;
    }

    /// The package of all kept frames, for a screen of `width` x `height`
    /// cells; opening it gives back the kept frames' changed cells, frame by
    /// frame.
    pub fn finish(self, width: u16, height: u16) -> (pkg: Package)
        requires
            self.inv(),
        ensures
            pkg@ == (PackageModel {
                fps: self@.fps,
                width,
                height,
                num_per_frame: frame_lens(self@.frames),
                nodes: flatten_frames(self@.frames),
            }),
            split_frames(pkg@.num_per_frame, pkg@.nodes) == self@.frames,
    {
        proof {
            lemma_open_inverts_flatten(self.frames@);
        }
        Package::new(self.fps, width, height, self.num_per_frame, self.nodes)
    }
}

/// The source frame that target frame `k` falls on: `k * ori / tar`.
pub open spec fn scaled_frame(k: int, ori: int, tar: int) -> int {
    (k * ori) / tar
}

/// The source frame kept for target frame `k`, as a byte.
pub open spec fn kept_frame(k: int, ori: int, tar: int) -> u8 {
    scaled_frame(k, ori, tar) as u8
}

/// When the source is faster, target frame `k` (for `k < tar`) keeps source
/// frame `k * ori / tar`, and nothing else is kept; each kept index is below
/// `ori`.
pub proof fn lemma_kept_frames_scaled(ori: u16, tar: u16)
    requires
        ori > tar,
    ensures
        frames_to_read(ori, tar) == Set::new(
            |v: u8| exists|k: int| 0 <= k < tar && v == #[trigger] kept_frame(k, ori as int, tar as int),
        ),
        forall|k: int| 0 <= k < tar ==> 0 <= #[trigger] scaled_frame(k, ori as int, tar as int) < ori,
{
    let o = ori as int;
    let t = tar as int;
    let lhs = frames_to_read(ori, tar);
    let rhs = Set::new(|v: u8| exists|k: int| 0 <= k < tar && v == #[trigger] kept_frame(k, o, t));
    assert forall|v: u8| #[trigger] lhs.contains(v) implies rhs.contains(v) by {
        let i = choose|i: int| 0 <= i < ori * tar && i % o == 0 && v == #[trigger] frame_slot(i, t);
        let k = i / o;
        assert(i == k * o && 0 <= k < t) by (nonlinear_arith)
            requires
                0 <= i < o * t,
                i % o == 0,
                k == i / o,
                o > 0,
        ;
        assert(v == kept_frame(k, o, t));
    }
    assert forall|v: u8| #[trigger] rhs.contains(v) implies lhs.contains(v) by {
        let k = choose|k: int| 0 <= k < tar && v == #[trigger] kept_frame(k, o, t);
        let i = k * o;
        assert(0 <= i < o * t && i % o == 0) by (nonlinear_arith)
            requires
                0 <= k < t,
                i == k * o,
                o > 0,
        ;
        assert(v == frame_slot(i, t));
    }
    assert(lhs =~= rhs);
    assert forall|k: int| 0 <= k < tar implies 0 <= #[trigger] scaled_frame(k, o, t) < ori by {
        assert(0 <= (k * o) / t < o) by (nonlinear_arith)
            requires
                0 <= k < t,
                t > 0,
                o > 0,
        {
            assert(k * o < t * o);
        }
    }
}

/// As many source frames are kept each second as the returned frame rate
/// says, for sources of up to 256 frames a second: `min(ori, tar)`.
pub proof fn lemma_kept_count(ori: u16, tar: u16)
    requires
        ori <= 256,
    ensures
        frames_to_read(ori, tar).finite(),
        frames_to_read(ori, tar).len() == (if ori <= tar { ori } else { tar }),
{
    if ori <= tar {
        let f = |k: int| k as u8;
        let r = set_int_range(0, ori as int);
        lemma_int_range(0, ori as int);
        assert(r.map(f) =~= frames_to_read(ori, tar)) by {
            assert forall|v: u8| frames_to_read(ori, tar).contains(v) implies r.map(f).contains(v) by {
                assert(r.contains(v as int) && v == f(v as int));
            }
        }
        assert forall|a: int, b: int| r.contains(a) && r.contains(b) && #[trigger] f(a) == #[trigger] f(
            b,
        ) implies a == b by {
            assert(a as u8 == a && b as u8 == b);
        }
        lemma_map_size(r, frames_to_read(ori, tar), f);
    } else {
        let o = ori as int;
        let t = tar as int;
        lemma_kept_frames_scaled(ori, tar);
        let f = |k: int| kept_frame(k, o, t);
        let r = set_int_range(0, t);
        lemma_int_range(0, t);
        assert(r.map(f) =~= frames_to_read(ori, tar)) by {
            assert forall|v: u8| frames_to_read(ori, tar).contains(v) implies r.map(f).contains(v) by {
                let k = choose|k: int| 0 <= k < tar && v == #[trigger] kept_frame(k, o, t);
                assert(r.contains(k) && v == f(k));
            }
        }
        assert forall|a: int, b: int| r.contains(a) && r.contains(b) && #[trigger] f(a) == #[trigger] f(
            b,
        ) implies a == b by {
            let qa = scaled_frame(a, o, t);
            let qb = scaled_frame(b, o, t);
            assert(0 <= qa < o && 0 <= qb < o);
            assert(qa as u8 == qa && qb as u8 == qb);
            if a < b {
                assert(qa < qb) by (nonlinear_arith)
                    requires
                        0 <= a < b,
                        o > t > 0,
                        qa == (a * o) / t,
                        qb == (b * o) / t,
                {
                    assert(b * o >= a * o + o);
                    assert(qa * t <= a * o);
                    assert(qb * t > b * o - t);
                    assert(qb * t > a * o + o - t);
                    assert(qb * t > qa * t);
                }
            } else if b < a {
                assert(qb < qa) by (nonlinear_arith)
                    requires
                        0 <= b < a,
                        o > t > 0,
                        qa == (a * o) / t,
                        qb == (b * o) / t,
                {
                    assert(a * o >= b * o + o);
                    assert(qb * t <= b * o);
                    assert(qa * t > a * o - t);
                    assert(qa * t > qb * t);
                }
            }
        }
        lemma_map_size(r, frames_to_read(ori, tar), f);
    }
}

/// Whole pixels convert one by one: the cells of two frames joined together
/// (the first of whole pixels) are the cells of the first followed by those
/// of the second.
pub proof fn lemma_img2asc_concat(a: Seq<u8>, b: Seq<u8>, flag: u8, da: Seq<u8>, db: Seq<u8>)
    requires
        a.len() % 3 == 0,
        da.len() == a.len() / 3,
        db.len() >= b.len() / 3,
    ensures
        asc_of(a + b, flag, da + db) == asc_of(a, flag, da) + asc_of(b, flag, db),
{
    let n = a.len() / 3;
    let ab = a + b;
    assert(ab.len() / 3 == n + b.len() / 3);
    let lhs = asc_of(ab, flag, da + db);
    let rhs = asc_of(a, flag, da) + asc_of(b, flag, db);
    assert forall|i: int| 0 <= i < lhs.len() implies lhs[i] == rhs[i] by {
        if i < n {
            assert(ab[3 * i] == a[3 * i] && ab[3 * i + 1] == a[3 * i + 1] && ab[3 * i + 2] == a[3
                * i + 2]);
            assert((da + db)[i] == da[i]);
        } else {
            let j = i - n;
            assert(3 * i == a.len() + 3 * j);
            assert(ab[3 * i] == b[3 * j] && ab[3 * i + 1] == b[3 * j + 1] && ab[3 * i + 2] == b[3
                * j + 2]);
            assert((da + db)[i] == db[j]);
        }
    }
    assert(lhs =~= rhs);
}


/// Each cell of a frame, read through the packed colour modes: in mode 1 the
/// colour-cube index has red as its most significant base-6 digit, then
/// green, then blue, each the channel's level of width 43; in mode 2 the
/// packed index holds the top 3 bits of red, then 3 of green, then 2 of blue;
/// in any other mode the cell keeps the pixel's red, green and blue in that
/// order. The level is the pixel's brightness over 16, and every cell stands
/// at (0, 0).
pub proof fn lemma_img2asc_cell(frame: Seq<u8>, flag: u8, depths: Seq<u8>, i: int)
    requires
        0 <= i < frame.len() / 3,
    ensures
        asc_of(frame, flag, depths).len() == frame.len() / 3,
        asc_of(frame, flag, depths)[i].node_style == depths[i] / 16,
        asc_of(frame, flag, depths)[i].pos == (0u16, 0u16),
        flag == 1 ==> (asc_of(frame, flag, depths)[i].node_col matches Color::My256(k) && k / 36
            == frame[3 * i] / 43 && (k / 6) % 6 == frame[3 * i + 1] / 43 && k % 6 == frame[3 * i
            + 2] / 43),
        flag == 2 ==> (asc_of(frame, flag, depths)[i].node_col matches Color::Df256(k) && k / 32
            == frame[3 * i] / 32 && (k / 4) % 8 == frame[3 * i + 1] / 32 && k % 4 == frame[3 * i
            + 2] / 64),
        flag != 1 && flag != 2 ==> asc_of(frame, flag, depths)[i].node_col == Color::Rgb(
            [frame[3 * i], frame[3 * i + 1], frame[3 * i + 2]],
        ),
{
    assert(3 * i + 2 < frame.len());
    let (r, g, b) = (frame[3 * i], frame[3 * i + 1], frame[3 * i + 2]);
    lemma_my256_levels(r, g, b);
    lemma_df256_levels(r, g, b);
}

/// Column `x`, rows `0..h`, holds every changed cell of those rows, moved to
/// its column and row.
proof fn lemma_column_has_change(
    now: Seq<Node>,
    last: Option<Seq<Node>>,
    row_len: int,
    x: int,
    h: nat,
    y: int,
)
    requires
        0 <= y < h,
        cell_changed(now, last, y * row_len + x),
    ensures
        column_changes(now, last, row_len, x, h).contains(placed(now[y * row_len + x], x, y)),
    decreases h,
{
    let v = placed(now[y * row_len + x], x, y);
    let prev = column_changes(now, last, row_len, x, (h - 1) as nat);
    let s = column_changes(now, last, row_len, x, h);
    if y == h - 1 {
        assert(s == prev.push(v));
        assert(s[prev.len() as int] == v);
    } else {
        lemma_column_has_change(now, last, row_len, x, (h - 1) as nat, y);
        let k = choose|k: int| 0 <= k < prev.len() && prev[k] == v;
        assert(s[k] == v);
    }
}

/// Columns `0..w` hold every changed cell of their rows `0..h`.
proof fn lemma_frame_has_change(
    now: Seq<Node>,
    last: Option<Seq<Node>>,
    row_len: int,
    w: nat,
    h: nat,
    x: int,
    y: int,
)
    requires
        0 <= x < w,
        0 <= y < h,
        cell_changed(now, last, y * row_len + x),
    ensures
        frame_changes(now, last, row_len, w, h).contains(placed(now[y * row_len + x], x, y)),
    decreases w,
{
    let v = placed(now[y * row_len + x], x, y);
    let wp = (w - 1) as nat;
    let prev = frame_changes(now, last, row_len, wp, h);
    let col = column_changes(now, last, row_len, wp as int, h);
    let s = frame_changes(now, last, row_len, w, h);
    assert(s == prev + col);
    if x == wp {
        lemma_column_has_change(now, last, row_len, x, h, y);
        let k = choose|k: int| 0 <= k < col.len() && col[k] == v;
        assert(s[prev.len() + k] == v);
    } else {
        lemma_frame_has_change(now, last, row_len, wp, h, x, y);
        let k = choose|k: int| 0 <= k < prev.len() && prev[k] == v;
        assert(s[k] == v);
    }
}

/// A later frame loses no change (see [`frame_nodes`]): every cell of the
/// `w` x `h` grid whose colour or brightness differs from the last frame's
/// cell at the same place is drawn, moved to its column `x` and row `y`,
/// whatever its new colour and brightness.
pub proof fn lemma_later_frame_draws_every_change(
    now: Seq<Node>,
    last: Seq<Node>,
    row_len: int,
    w: nat,
    h: nat,
    x: int,
    y: int,
)
    requires
        0 <= x < w,
        0 <= y < h,
        now[y * row_len + x].node_col != last[y * row_len + x].node_col || now[y * row_len
            + x].node_style != last[y * row_len + x].node_style,
    ensures
        frame_changes(now, Some(last), row_len, w, h).contains(placed(now[y * row_len + x], x, y)),
{
    lemma_frame_has_change(now, Some(last), row_len, w, h, x, y);
}

/// A first frame draws every cell of the `w` x `h` grid, moved to its column
/// `x` and row `y`, whatever its colour and brightness.
pub proof fn lemma_first_frame_draws_every_cell(
    now: Seq<Node>,
    row_len: int,
    w: nat,
    h: nat,
    x: int,
    y: int,
)
    requires
        0 <= x < w,
        0 <= y < h,
    ensures
        frame_changes(now, None, row_len, w, h).contains(placed(now[y * row_len + x], x, y)),
{
    lemma_frame_has_change(now, None, row_len, w, h, x, y);
}

} // verus!
