//! The picture-by-picture player: true-colour cells, the queue of frames,
//! turning a video into frames of changed cells, and the screen they are
//! drawn on.
use crate::reader::{fitted_size, lemma_fitted_size_fits, lemma_fitted_size_keeps_shape};
use std::collections::VecDeque;
use vstd::prelude::*;
use vstd::std_specs::cmp::PartialEqSpecImpl;

verus! {

/// A true-colour cell: colour, brightness level (0 darkest, 15 brightest) and
/// position (column, row), counted from 1 once placed.
#[derive(Clone, Copy, Debug, Eq)]
pub struct Node {
    pub node_col: (u8, u8, u8),
    pub node_style: u8,
    pub pos: (u32, u32),
}

impl PartialEq for Node {
    fn eq(&self, other: &Node) -> (same: bool) {
        self.node_col.0 == other.node_col.0 && self.node_col.1 == other.node_col.1
            && self.node_col.2 == other.node_col.2 && self.node_style == other.node_style
            && self.pos.0 == other.pos.0 && self.pos.1 == other.pos.1
    }
}

impl PartialEqSpecImpl for Node {
    open spec fn obeys_eq_spec() -> bool {
        true
    }

    open spec fn eq_spec(&self, other: &Node) -> bool {
        *self == *other
    }
}

/// The glyph drawn for a brightness level.
pub open spec fn glyph(style: u8) -> char {
    seq![' ', '.', ':', ';', 'i', '7', 'r', 'a', 'Z', 'S', '0', '8', 'X', 'M', 'W', '@'][style as int]
}

/// The unset cell: black, level 0, at (0, 0).
pub open spec fn blank_node() -> Node {
    Node { node_col: (0, 0, 0), node_style: 0, pos: (0, 0) }
}

impl Node {
    /// A cell with the given colour, level and position.
    pub fn init(node_col: (u8, u8, u8), node_style: u8, pos: (u32, u32)) -> (n: Node)
        ensures
            n == (Node { node_col, node_style, pos }),
    {
        Node { node_col, node_style, pos }
    }

    /// The glyph of this cell's level.
    pub fn get_char(&self) -> (c: char)
        requires
            self.node_style < 16,
        ensures
            c == glyph(self.node_style),
    {
        let chars: [char; 16] = [
            ' ', '.', ':', ';', 'i', '7', 'r', 'a', 'Z', 'S', '0', '8', 'X', 'M', 'W', '@',
        ];
        proof {
            assert(chars@ =~= seq![' ', '.', ':', ';', 'i', '7', 'r', 'a', 'Z', 'S', '0', '8', 'X', 'M', 'W', '@']);
        }
        chars[self.node_style as usize]
    }
}

/// The size of the terminal the player draws on.
pub struct TimeLine {
    screen_width: u32,
    screen_height: u32,
}

impl TimeLine {
    /// A time line for a terminal of `screen_width` x `screen_height` cells.
    pub fn new(screen_width: u32, screen_height: u32) -> (t: TimeLine)
        ensures
            t.size() == (screen_width, screen_height),
    {
        TimeLine { screen_width, screen_height }
    }

    /// (width, height) of the terminal.
    pub closed spec fn size(&self) -> (u32, u32) {
        (self.screen_width, self.screen_height)
    }

    /// (width, height) of the terminal.
    pub fn get_size(&self) -> (size: (u32, u32))
        ensures
            size == self.size(),
    {
        (self.screen_width, self.screen_height)
    }
}

/// What is on the screen: rows of cells.
pub struct Show {
    now: Vec<Vec<Node>>,
}

impl View for Show {
    type V = Seq<Seq<Node>>;

    closed spec fn view(&self) -> Seq<Seq<Node>> {
        self.now@.map_values(|row: Vec<Node>| row@)
    }
}

impl Show {
    /// A blank screen of `b` rows of `a` cells.
    pub fn new(a: u16, b: u16) -> (s: Show)
        ensures
            s@ == Seq::new(b as nat, |y: int| Seq::new(a as nat, |x: int| blank_node())),
    {
        let mut now: Vec<Vec<Node>> = Vec::new();
        for _y in 0..b
            invariant
                now@.len() == _y,
                forall|y: int|
                    0 <= y < now@.len() ==> #[trigger] now@[y]@ == Seq::new(
                        a as nat,
                        |x: int| blank_node(),
                    ),
        {
            let mut row: Vec<Node> = Vec::new();
            for _x in 0..a
                invariant
                    row@ == Seq::new(_x as nat, |x: int| blank_node()),
            {
                row.push(Node::init((0u8, 0u8, 0u8), 0u8, (0u32, 0u32)));
                assert(row@ =~= Seq::new((_x + 1) as nat, |x: int| blank_node()));
            }
            now.push(row);
        }
        let s = Show { now };
        assert(s@ =~= Seq::new(b as nat, |y: int| Seq::new(a as nat, |x: int| blank_node())));
        s
    }

    /// Puts `upd` at its position (column, row); `false`, and nothing
    /// changes, when that lies outside the screen.
    pub fn put(&mut self, upd: Node) -> (shown: bool)
        ensures
            ({
                let (x, y) = upd.pos;
                &&& shown == (y < old(self)@.len() && x < old(self)@[y as int].len())
                &&& shown ==> final(self)@ == old(self)@.update(
                    y as int,
                    old(self)@[y as int].update(x as int, upd),
                )
                &&& !shown ==> final(self)@ == old(self)@
            }),
    {
        let (x, y) = upd.pos;
        let x = x as usize;
        let y = y as usize;
        if y >= self.now.len() || x >= self.now[y].len() {
            return false;
        }
        let mut row = self.now[y].clone();
        proof {
            assert(row@ == self.now@[y as int]@);
        }
        row.set(x, upd);
        let ghost before = self@;
        self.now.set(y, row);
        assert(self@ =~= before.update(y as int, before[y as int].update(x as int, upd)));
        true
    }
}

/// A queue of frames, each the cells that change in it.
pub struct Readd {
    cargo: VecDeque<Vec<Node>>,
}

impl View for Readd {
    type V = Seq<Seq<Node>>;

    closed spec fn view(&self) -> Seq<Seq<Node>> {
        self.cargo@.map_values(|f: Vec<Node>| f@)
    }
}

/// The cells of a row that differ from the same cells of the previous row,
/// left to right, over columns `0..w`.
pub open spec fn row_diff(now: Seq<Node>, prev: Seq<Node>, w: nat) -> Seq<Node>
    decreases w,
{
    if w == 0 {
        seq![]
    } else {
        let x = w - 1;
        let before = row_diff(now, prev, (w - 1) as nat);
        if now[x] != prev[x] {
            before.push(now[x])
        } else {
            before
        }
    }
}

/// The cells of a frame that differ from the previous frame, row after row,
/// over rows `0..h` and columns `0..w`.
pub open spec fn grid_diff(now: Seq<Seq<Node>>, prev: Seq<Seq<Node>>, w: nat, h: nat) -> Seq<Node>
    decreases h,
{
    if h == 0 {
        seq![]
    } else {
        grid_diff(now, prev, w, (h - 1) as nat) + row_diff(now[h - 1], prev[h - 1], w)
    }
}

/// All cells of all rows, row after row.
pub open spec fn flatten_rows(rows: Seq<Seq<Node>>) -> Seq<Node>
    decreases rows.len(),
{
    if rows.len() == 0 {
        seq![]
    } else {
        flatten_rows(rows.drop_last()) + rows.last()
    }
}

/// The cells of a row whose level is not 0, left to right.
pub open spec fn visible(row: Seq<Node>) -> Seq<Node> {
    row.filter(|n: Node| n.node_style != 0)
}

/// The visible cells of all rows, row after row.
pub open spec fn visible_rows(rows: Seq<Seq<Node>>) -> Seq<Node>
    decreases rows.len(),
{
    if rows.len() == 0 {
        seq![]
    } else {
        visible_rows(rows.drop_last()) + visible(rows.last())
    }
}

/// The rows of a frame.
pub open spec fn grid_of(f: Vec<Vec<Node>>) -> Seq<Seq<Node>> {
    f@.map_values(|r: Vec<Node>| r@)
}

/// Whether rows `0..h` of `g` all have at least `w` cells.
pub open spec fn covers(g: Seq<Seq<Node>>, w: nat, h: nat) -> bool {
    &&& g.len() >= h
    &&& forall|y: int| 0 <= y < h ==> #[trigger] g[y].len() >= w
}

/// Appends the cells of `src` to `dst`.
fn append(dst: &mut Vec<Node>, src: &Vec<Node>)
    ensures
        final(dst)@ == old(dst)@ + src@,
{
    let ghost base = dst@;
    for i in 0..src.len()
        invariant
            dst@ == base + src@.take(i as int),
    {
        dst.push(src[i]);
        assert(dst@ =~= base + src@.take(i + 1));
    }
    assert(src@.take(src@.len() as int) =~= src@);
}

/// Appends the cells of `now` (over columns `0..w`) that differ from `prev`.
fn push_row_diff(out: &mut Vec<Node>, now: &Vec<Node>, prev: &Vec<Node>, w: usize)
    requires
        now@.len() >= w,
        prev@.len() >= w,
    ensures
        final(out)@ == old(out)@ + row_diff(now@, prev@, w as nat),
{
    let ghost base = out@;
    for x in 0..w
        invariant
            now@.len() >= w,
            prev@.len() >= w,
            out@ == base + row_diff(now@, prev@, x as nat),
    {
        if now[x] != prev[x] {
            out.push(now[x]);
        }
        assert(out@ =~= base + row_diff(now@, prev@, (x + 1) as nat));
    }
}

/// Appends the cells of `now` (rows `0..h`, columns `0..w`) that differ
/// from `prev`, row after row.
fn push_grid_diff(out: &mut Vec<Node>, now: &Vec<Vec<Node>>, prev: &Vec<Vec<Node>>, w: usize, h: usize)
    requires
        covers(grid_of(*now), w as nat, h as nat),
        covers(grid_of(*prev), w as nat, h as nat),
    ensures
        final(out)@ == old(out)@ + grid_diff(grid_of(*now), grid_of(*prev), w as nat, h as nat),
{
    let ghost base = out@;
    let ghost g = grid_of(*now);
    let ghost p = grid_of(*prev);
    for y in 0..h
        invariant
            g == grid_of(*now),
            p == grid_of(*prev),
            covers(g, w as nat, h as nat),
            covers(p, w as nat, h as nat),
            out@ == base + grid_diff(g, p, w as nat, y as nat),
    {
        assert(g[y as int] == now@[y as int]@);
        assert(p[y as int] == prev@[y as int]@);
        assert(g[y as int].len() >= w);
        assert(p[y as int].len() >= w);
        push_row_diff(out, &now[y], &prev[y], w);
        assert(out@ =~= base + grid_diff(g, p, w as nat, (y + 1) as nat));
    }
}

impl Readd {
    /// An empty queue.
    pub fn init() -> (r: Readd)
        ensures
            r@ == Seq::<Seq<Node>>::empty(),
    {
        let r = Readd { cargo: VecDeque::new() };
        assert(r@ =~= Seq::<Seq<Node>>::empty());
        r
    }

    /// Appends a frame at the back.
    pub fn add_back(&mut self, frame: Vec<Node>)
        ensures
            final(self)@ == old(self)@.push(frame@),
    {
        self.cargo.push_back(frame);
        assert(self@ =~= old(self)@.push(frame@));
    }

    /// Takes the oldest frame, or `None` when the queue is empty.
    pub fn get_fron(&mut self) -> (frame: Option<Vec<Node>>)
        ensures
            old(self)@.len() == 0 ==> frame is None && final(self)@ == old(self)@,
            old(self)@.len() > 0 ==> frame is Some && frame->0@ == old(self)@[0]
                && final(self)@ == old(self)@.drop_first(),
    {
        let frame = self.cargo.pop_front();
        proof {
            if old(self)@.len() > 0 {
                assert(self@ =~= old(self)@.drop_first());
            }
        }
        frame
    }

    /// Shrinks a video (frames of rows of cells) to what has to be drawn:
    /// every cell of the first frame, then for each later frame the cells
    /// that differ from the frame before, row after row, over the first
    /// frame's width and height.
    pub fn smallize(video: Vec<Vec<Vec<Node>>>) -> (small: Vec<Vec<Node>>)
        requires
            video@.len() > 0,
            video@[0]@.len() > 0,
            video_covered(video@, video@[0]@[0]@.len(), video@[0]@.len()),
        ensures
            small@.len() == video@.len(),
            small@[0]@ == flatten_rows(grid_of(video@[0])),
            forall|k: int|
                1 <= k < video@.len() ==> #[trigger] small@[k]@ == later_frame(
                    video@,
                    k,
                    video@[0]@[0]@.len(),
                    video@[0]@.len(),
                ),
    {
        let width = video[0][0].len();
        let height = video[0].len();
        let mut small: Vec<Vec<Node>> = Vec::new();
        let mut first_frame: Vec<Node> = Vec::new();
        let first = &video[0];
        let ghost g0 = grid_of(video@[0]);
        for i in 0..first.len()
            invariant
                g0 == grid_of(*first),
                first_frame@ == flatten_rows(g0.take(i as int)),
        {
            append(&mut first_frame, &first[i]);
            assert(g0.take(i + 1).drop_last() =~= g0.take(i as int));
            assert(first_frame@ =~= flatten_rows(g0.take(i + 1)));
        }
        assert(g0.take(first@.len() as int) =~= g0);
        small.push(first_frame);
        let ghost vs = video@;
        for idx in 1..video.len()
            invariant
                vs == video@,
                width == vs[0]@[0]@.len(),
                height == vs[0]@.len(),
                small@.len() == idx,
                small@[0]@ == flatten_rows(grid_of(vs[0])),
                video_covered(vs, width as nat, height as nat),
                forall|k: int|
                    1 <= k < idx ==> #[trigger] small@[k]@ == later_frame(
                        vs,
                        k,
                        width as nat,
                        height as nat,
                    ),
        {
            let now_frame = diff_frame(&video, idx, width, height);
            small.push(now_frame);
        }
        small
    }
}

/// Frames `k - 1` and `k` of a video (for `1 <= k`) both cover `w` x `h`.
#[verifier::opaque]
pub open spec fn video_covered(video: Seq<Vec<Vec<Node>>>, w: nat, h: nat) -> bool {
    forall|k: int|
        1 <= k < video.len() ==> covers(grid_of(#[trigger] video[k]), w, h) && covers(
            grid_of(video[k - 1]),
            w,
            h,
        )
}

/// What a shrunk video keeps of frame `k >= 1`: its cells that differ from
/// frame `k - 1`.
pub open spec fn later_frame(video: Seq<Vec<Vec<Node>>>, k: int, w: nat, h: nat) -> Seq<Node> {
    grid_diff(grid_of(video[k]), grid_of(video[k - 1]), w, h)
}

/// The cells of frame `idx` that differ from frame `idx - 1`.
fn diff_frame(video: &Vec<Vec<Vec<Node>>>, idx: usize, w: usize, h: usize) -> (out: Vec<Node>)
    requires
        1 <= idx < video@.len(),
        video_covered(video@, w as nat, h as nat),
    ensures
        out@ == later_frame(video@, idx as int, w as nat, h as nat),
{
    proof {
        reveal(video_covered);
        assert(covers(grid_of(video@[idx as int]), w as nat, h as nat));
    }
    let mut out: Vec<Node> = Vec::new();
    push_grid_diff(&mut out, &video[idx], &video[idx - 1], w, h);
    assert(out@ =~= later_frame(video@, idx as int, w as nat, h as nat));
    out
}

/// The cells of a decoded frame (rows of cells) to draw: in a first frame
/// (`last` is `None`) the cells whose level is not 0, row after row;
/// otherwise the cells that differ from `last`, row after row, over all rows
/// and the width of the first row.
pub fn frame_updates(now: &Vec<Vec<Node>>, last: Option<&Vec<Vec<Node>>>) -> (out: Vec<Node>)
    requires
        last matches Some(l) ==> now@.len() > 0 ==> covers(
            grid_of(*now),
            now@[0]@.len(),
            now@.len(),
        ) && covers(grid_of(*l), now@[0]@.len(), now@.len()),
    ensures
        last is None ==> out@ == visible_rows(grid_of(*now)),
        last matches Some(l) ==> now@.len() > 0 ==> out@ == grid_diff(
            grid_of(*now),
            grid_of(*l),
            now@[0]@.len(),
            now@.len(),
        ),
        last is Some ==> now@.len() == 0 ==> out@ == Seq::<Node>::empty(),
{
    let mut out: Vec<Node> = Vec::new();
    match last {
        None => {
            let ghost g = grid_of(*now);
            for i in 0..now.len()
                invariant
                    g == grid_of(*now),
                    out@ == visible_rows(g.take(i as int)),
            {
                let row = &now[i];
                let ghost before = out@;
                for j in 0..row.len()
                    invariant
                        out@ == before + visible(row@.take(j as int)),
                {
                    if row[j].node_style != 0 {
                        out.push(row[j]);
                    }
                    proof {
                        let t = row@.take(j as int);
                        assert(row@.take(j + 1) =~= t.push(row@[j as int]));
                        t.lemma_filter_push(row@[j as int], |n: Node| n.node_style != 0);
                    }
                    assert(out@ =~= before + visible(row@.take(j + 1)));
                }
                assert(row@.take(row@.len() as int) =~= row@);
                assert(g.take(i + 1).drop_last() =~= g.take(i as int));
                assert(out@ =~= visible_rows(g.take(i + 1)));
            }
            assert(g.take(now@.len() as int) =~= g);
        },
        Some(l) => {
            if now.len() > 0 {
                let w = now[0].len();
                push_grid_diff(&mut out, now, l, w, now.len());
                assert(out@ =~= grid_diff(grid_of(*now), grid_of(*l), w as nat, now@.len()));
            }
        },
    }
    out
}

/// The scaled size of a picture (see [`fitted_size`]).
pub fn fit_size(img_w: u32, img_h: u32, screen: (u32, u32)) -> (size: (u32, u32))
    requires
        img_w > 0,
        (img_h / 2) * screen.0 <= u32::MAX,
        ((img_h / 2) * screen.0) / (img_w as int) > screen.1 ==> img_w * screen.1 <= u32::MAX,
    ensures
        size.0 == fitted_size(img_w, img_h, screen).0,
        size.1 == fitted_size(img_w, img_h, screen).1,
        size.0 <= screen.0,
        size.1 <= screen.1,
{
    proof {
        lemma_fitted_size_keeps_shape(img_w, img_h, screen);
    }
    let (width, height) = screen;
    let img_h = img_h / 2;
    let mut ww = width;
    let mut hh = img_h * width / img_w;
    if hh > height {
        hh = height;
        ww = img_w * height / img_h;
    }
    (ww, hh)
}

/// The cell at column `x`, row `y` of a `ww` x `hh` picture whose pixel
/// colours and levels are given row after row: the middle row and the middle
/// column stay blank; every other cell takes its pixel's colour and level
/// and stands at (`x + 1`, `y + 1`).
pub open spec fn grid_cell(
    ww: u32,
    hh: u32,
    colors: Seq<(u8, u8, u8)>,
    levels: Seq<u8>,
    x: int,
    y: int,
) -> Node {
    if y == hh / 2 || x == ww / 2 {
        blank_node()
    } else {
        Node {
            node_col: colors[y * ww + x],
            node_style: levels[y * ww + x],
            pos: ((x + 1) as u32, (y + 1) as u32),
        }
    }
}

/// The cells of a scaled picture, `hh` rows of `ww` cells (see [`grid_cell`]);
/// `colors` and `levels` hold one entry a pixel, row after row.
pub fn fill_grid(ww: u32, hh: u32, colors: &Vec<(u8, u8, u8)>, levels: &Vec<u8>) -> (grid: Vec<
    Vec<Node>,
>)
    requires
        colors@.len() >= ww * hh,
        levels@.len() >= ww * hh,
    ensures
        grid@.len() == hh,
        forall|y: int|
            0 <= y < hh ==> (#[trigger] grid@[y])@ == Seq::new(
                ww as nat,
                |x: int| grid_cell(ww, hh, colors@, levels@, x, y),
            ),
        forall|y: int, x: int|
            0 <= y < hh && 0 <= x < ww && y != hh / 2 && x != ww / 2 ==> {
                let c = #[trigger] grid@[y]@[x];
                &&& c.node_col.0 == colors@[y * ww + x].0
                &&& c.node_col.1 == colors@[y * ww + x].1
                &&& c.node_col.2 == colors@[y * ww + x].2
                &&& c.node_style == levels@[y * ww + x]
                &&& c.pos == ((x + 1) as u32, (y + 1) as u32)
            },
{
    let mut grid: Vec<Vec<Node>> = Vec::new();
    let w = ww as usize;
    let h = hh as usize;
    let clen = colors.len();
    for y in 0..h
        invariant
            clen == colors@.len(),
            w == ww,
            h == hh,
            colors@.len() >= ww * hh,
            levels@.len() >= ww * hh,
            grid@.len() == y,
            forall|r: int|
                0 <= r < y ==> (#[trigger] grid@[r])@ == Seq::new(
                    ww as nat,
                    |x: int| grid_cell(ww, hh, colors@, levels@, x, r),
                ),
    {
        let mut row: Vec<Node> = Vec::new();
        for x in 0..w
            invariant
                clen == colors@.len(),
                w == ww,
                h == hh,
                y < h,
                colors@.len() >= ww * hh,
                levels@.len() >= ww * hh,
                row@ == Seq::new(x as nat, |c: int| grid_cell(ww, hh, colors@, levels@, c, y as int)),
        {
            let node = if y == h / 2 || x == w / 2 {
                Node::init((0u8, 0u8, 0u8), 0u8, (0u32, 0u32))
            } else {
                assert(y * w + x < w * h) by (nonlinear_arith)
                    requires
                        y < h,
                        x < w,
                {
                    assert(y * w + w <= h * w);
                }
                let i = y * w + x;
                Node::init(colors[i], levels[i], ((x + 1) as u32, (y + 1) as u32))
            };
            row.push(node);
            assert(row@ =~= Seq::new(
                (x + 1) as nat,
                |c: int| grid_cell(ww, hh, colors@, levels@, c, y as int),
            ));
        }
        grid.push(row);
    }
    proof {
        assert forall|y: int, x: int|
            0 <= y < hh && 0 <= x < ww && y != hh / 2 && x != ww / 2 implies {
                let c = #[trigger] grid@[y]@[x];
                &&& c.node_col.0 == colors@[y * ww + x].0
                &&& c.node_col.1 == colors@[y * ww + x].1
                &&& c.node_col.2 == colors@[y * ww + x].2
                &&& c.node_style == levels@[y * ww + x]
                &&& c.pos == ((x + 1) as u32, (y + 1) as u32)
            } by {
            lemma_grid_cell_keeps_pixel(ww, hh, colors@, levels@, x, y);
        }
    }
    grid
}

/// Each cell of a scaled picture's grid (see [`fill_grid`]): a cell of the
/// middle row or the middle column is blank (black, level 0, at (0, 0));
/// every other cell keeps its own pixel's red, green and blue, channel for
/// channel, and its level, and stands at column `x + 1`, row `y + 1`.
pub proof fn lemma_grid_cell_keeps_pixel(
    ww: u32,
    hh: u32,
    colors: Seq<(u8, u8, u8)>,
    levels: Seq<u8>,
    x: int,
    y: int,
)
    requires
        0 <= x < ww,
        0 <= y < hh,
    ensures
        (y == hh / 2 || x == ww / 2) ==> grid_cell(ww, hh, colors, levels, x, y) == (Node {
            node_col: (0u8, 0u8, 0u8),
            node_style: 0u8,
            pos: (0u32, 0u32),
        }),
        (y != hh / 2 && x != ww / 2) ==> {
            let c = grid_cell(ww, hh, colors, levels, x, y);
            &&& c.node_col.0 == colors[y * ww + x].0
            &&& c.node_col.1 == colors[y * ww + x].1
            &&& c.node_col.2 == colors[y * ww + x].2
            &&& c.node_style == levels[y * ww + x]
            &&& c.pos == ((x + 1) as u32, (y + 1) as u32)
        },
{
}

proof fn lemma_row_diff_same(row: Seq<Node>, w: nat)
    ensures
        row_diff(row, row, w) == Seq::<Node>::empty(),
    decreases w,
{
    if w > 0 {
        lemma_row_diff_same(row, (w - 1) as nat);
    }
}

/// A frame equal to the one before it leaves nothing to draw.
pub proof fn lemma_same_frame_no_diff(g: Seq<Seq<Node>>, w: nat, h: nat)
    ensures
        grid_diff(g, g, w, h) == Seq::<Node>::empty(),
    decreases h,
{
    if h > 0 {
        lemma_same_frame_no_diff(g, w, (h - 1) as nat);
        lemma_row_diff_same(g[h - 1], w);
        assert(Seq::<Node>::empty() + Seq::<Node>::empty() =~= Seq::<Node>::empty());
    }
}

proof fn lemma_row_diff_len(now: Seq<Node>, prev: Seq<Node>, w: nat)
    ensures
        row_diff(now, prev, w).len() <= w,
    decreases w,
{
    if w > 0 {
        lemma_row_diff_len(now, prev, (w - 1) as nat);
    }
}

/// A frame leaves at most `w * h` cells to draw.
pub proof fn lemma_grid_diff_len(now: Seq<Seq<Node>>, prev: Seq<Seq<Node>>, w: nat, h: nat)
    ensures
        grid_diff(now, prev, w, h).len() <= w * h,
    decreases h,
{
    if h > 0 {
        let hp = (h - 1) as nat;
        lemma_grid_diff_len(now, prev, w, hp);
        lemma_row_diff_len(now[hp as int], prev[hp as int], w);
        assert(w * hp + w == w * h) by (nonlinear_arith)
            requires
                hp + 1 == h,
        ;
    } else {
        assert(w * h == 0) by (nonlinear_arith)
            requires
                h == 0,
        ;
    }
}

/// A decoded picture: `width` x `height` pixels, four bytes (red, green,
/// blue, alpha) a pixel, row after row.
pub struct Picture {
    width: u32,
    height: u32,
    rgba: Vec<u8>,
}

impl View for Picture {
    type V = (u32, u32, Seq<u8>);

    closed spec fn view(&self) -> (u32, u32, Seq<u8>) {
        (self.width, self.height, self.rgba@)
    }
}

impl Picture {
    /// The bytes hold four bytes for each pixel.
    #[verifier::type_invariant]
    spec fn sized(self) -> bool {
        self.rgba@.len() == 4 * (self.width as int) * (self.height as int)
    }

    /// A picture of `width` x `height` pixels with the given bytes; `None`
    /// when there are not exactly four bytes a pixel.
    pub fn new(width: u32, height: u32, rgba: Vec<u8>) -> (r: Option<Picture>)
        ensures
            r is Some <==> rgba@.len() == 4 * (width as int) * (height as int),
            r matches Some(p) ==> p@ == (width, height, rgba@),
    {
        assert(4 * (width as u128) * (height as u128) <= u128::MAX) by (nonlinear_arith)
            requires
                width <= u32::MAX,
                height <= u32::MAX,
        ;
        if (rgba.len() as u128) == 4 * (width as u128) * (height as u128) {
            Some(Picture { width, height, rgba })
        } else {
            None
        }
    }

    /// The size of a picture: its bytes are four a pixel.
    pub fn size(&self) -> (size: (u32, u32))
        ensures
            size == (self@.0, self@.1),
            self@.2.len() == 4 * (self@.0 as int) * (self@.1 as int),
    {
        proof {
            use_type_invariant(self);
        }
        (self.width, self.height)
    }
}

/// The ASCII decimal digits of `n`, without leading zeros.
pub open spec fn decimal(n: nat) -> Seq<u8>
    decreases n,
{
    if n < 10 {
        seq![(48 + n) as u8]
    } else {
        decimal(n / 10).push((48 + n % 10) as u8)
    }
}

/// The number that ASCII decimal digits `s` spell, most significant digit
/// first.
pub open spec fn digits_value(s: Seq<u8>) -> int
    decreases s.len(),
{
    if s.len() == 0 {
        0
    } else {
        10 * digits_value(s.drop_last()) + (s.last() - 48)
    }
}

/// The digits of `n` are ASCII digits, at least one, with no leading zero,
/// and read back most significant first they spell `n`.
pub proof fn lemma_decimal_reads_back(n: nat)
    ensures
        digits_value(decimal(n)) == n,
        decimal(n).len() > 0,
        n > 0 ==> decimal(n)[0] != 48u8,
        forall|i: int| 0 <= i < decimal(n).len() ==> 48 <= #[trigger] decimal(n)[i] <= 57,
    decreases n,
{
    if n >= 10 {
        lemma_decimal_reads_back(n / 10);
        let d = decimal(n);
        assert(d.drop_last() =~= decimal(n / 10));
        assert(d.last() == 48 + n % 10);
        assert(10 * (n / 10) + n % 10 == n);
        assert forall|i: int| 0 <= i < d.len() implies 48 <= #[trigger] d[i] <= 57 by {
            if i < d.len() - 1 {
                assert(d[i] == decimal(n / 10)[i]);
            }
        }
        assert(d[0] == decimal(n / 10)[0]);
    } else {
        let d = decimal(n);
        assert(d.drop_last() =~= Seq::<u8>::empty());
        assert(digits_value(d.drop_last()) == 0);
        assert(d.last() == 48 + n);
    }
}

/// The header of a binary PPM (P6) image of `w` x `h` pixels with channel
/// values up to 255: `P6\n{w} {h}\n255\n`.
pub open spec fn p6_header(w: u32, h: u32) -> Seq<u8> {
    seq![0x50u8, 0x36u8, 0x0au8] + decimal(w as nat) + seq![0x20u8] + decimal(h as nat) + seq![
        0x0au8,
        0x32u8,
        0x35u8,
        0x35u8,
        0x0au8,
    ]
}

/// The header reads back: "P6", a line break, the width in decimal, a space,
/// the height in decimal, a line break, "255" and a line break.
pub proof fn lemma_p6_header_reads_back(w: u32, h: u32)
    ensures
        ({
            let s = p6_header(w, h);
            let dw = decimal(w as nat).len() as int;
            let dh = decimal(h as nat).len() as int;
            &&& dw > 0 && dh > 0
            &&& s.len() == dw + dh + 9
            &&& s[0] == 0x50u8 && s[1] == 0x36u8 && s[2] == 0x0au8
            &&& digits_value(s.subrange(3, 3 + dw)) == w
            &&& s[3 + dw] == 0x20u8
            &&& digits_value(s.subrange(4 + dw, 4 + dw + dh)) == h
            &&& s.subrange(4 + dw + dh, s.len() as int) == seq![0x0au8, 0x32u8, 0x35u8, 0x35u8, 0x0au8]
        }),
{
    lemma_decimal_reads_back(w as nat);
    lemma_decimal_reads_back(h as nat);
    let s = p6_header(w, h);
    let dw = decimal(w as nat).len() as int;
    let dh = decimal(h as nat).len() as int;
    assert(s.subrange(3, 3 + dw) =~= decimal(w as nat));
    assert(s.subrange(4 + dw, 4 + dw + dh) =~= decimal(h as nat));
    assert(s.subrange(4 + dw + dh, s.len() as int) =~= seq![0x0au8, 0x32u8, 0x35u8, 0x35u8, 0x0au8]);
}

/// Appends the ASCII decimal digits of `n`.
fn push_decimal(out: &mut Vec<u8>, n: u32)
    ensures
        final(out)@ == old(out)@ + decimal(n as nat),
    decreases n,
{
    if n >= 10 {
        push_decimal(out, n / 10);
    }
    out.push((48 + n % 10) as u8);
    assert(out@ =~= old(out)@ + decimal(n as nat));
}

/// The size and RGBA bytes of the picture that `image::load_from_memory`
/// decodes from `bytes` (`None` when it reports an error).
pub uninterp spec fn decoded_image(bytes: Seq<u8>) -> Option<(u32, u32, Seq<u8>)>;

/// Decodes an encoded picture with `image::load_from_memory` and converts it
/// with `image::DynamicImage::to_rgba8`. Claimed: the result is a function
/// of the bytes, and a decoded picture has four bytes a pixel.
#[verifier::external_body]
fn decode_image(bytes: &[u8]) -> (r: Option<(u32, u32, Vec<u8>)>)
    ensures
        match r {
            Some((w, h, px)) => decoded_image(bytes@) == Some((w, h, px@)) && px@.len() == 4 * (
            w as int) * (h as int),
            None => decoded_image(bytes@) is None,
        },
{
    match image::load_from_memory(bytes) {
        Ok(img) => {
            let rgba = img.to_rgba8();
            let (w, h) = rgba.dimensions();
            Some((w, h, rgba.into_raw()))
        },
        Err(_) => None,
    }
}

impl Picture {
    /// The picture of a raw RGB24 frame of `width` x `height` pixels: the
    /// frame bytes after a binary PPM (P6) header, decoded by the image
    /// crate; `None` when they do not decode.
    pub fn from_rgb24(width: u32, height: u32, data: &[u8]) -> (r: Option<Picture>)
        ensures
            match r {
                Some(p) => decoded_image(p6_header(width, height) + data@) == Some(p@),
                None => decoded_image(p6_header(width, height) + data@) is None,
            },
    {
        let mut bytes: Vec<u8> = Vec::new();
        bytes.push(0x50u8);
        bytes.push(0x36u8);
        bytes.push(0x0au8);
        push_decimal(&mut bytes, width);
        bytes.push(0x20u8);
        push_decimal(&mut bytes, height);
        bytes.push(0x0au8);
        bytes.push(0x32u8);
        bytes.push(0x35u8);
        bytes.push(0x35u8);
        bytes.push(0x0au8);
        let ghost head = bytes@;
        assert(head =~= p6_header(width, height));
        for i in 0..data.len()
            invariant
                bytes@ == head + data@.take(i as int),
        {
            bytes.push(data[i]);
            assert(bytes@ =~= head + data@.take(i + 1));
        }
        assert(data@.take(data@.len() as int) =~= data@);
        match decode_image(bytes.as_slice()) {
            Some((w, h, px)) => Picture::new(w, h, px),
            None => None,
        }
    }
}

/// The red, green and blue of each pixel, row after row, of the picture of
/// `src_w` x `src_h` RGBA pixels `rgba` scaled to `w` x `h` by the image
/// crate's triangle filter.
pub uninterp spec fn resized(src_w: u32, src_h: u32, rgba: Seq<u8>, w: u32, h: u32) -> Seq<
    (u8, u8, u8),
>;

/// Scales an RGBA picture with `image::DynamicImage::resize_exact` (triangle
/// filter; the picture is built by `image::RgbaImage::from_raw`) to `w` x
/// `h` pixels and reads each pixel with `image::GenericImageView::get_pixel`,
/// row after row, keeping red, green and blue. Claimed: the result is a
/// function of the arguments, with one entry a pixel of the `w` x `h`
/// result; the colours are not stated.
#[verifier::external_body]
fn resized_rgb(src_w: u32, src_h: u32, rgba: &[u8], w: u32, h: u32) -> (px: Vec<(u8, u8, u8)>)
    requires
        rgba@.len() == 4 * (src_w as int) * (src_h as int),
        (w as int) * (h as int) * 4 <= usize::MAX,
    ensures
        px@ == resized(src_w, src_h, rgba@, w, h),
        px@.len() == (w as int) * (h as int),
{
    let img = match image::RgbaImage::from_raw(src_w, src_h, rgba.to_vec()) {
        Some(buf) => image::DynamicImage::ImageRgba8(buf),
        None => return Vec::new(),
    };
    let small = img.resize_exact(w, h, image::imageops::FilterType::Triangle);
    let mut px: Vec<(u8, u8, u8)> = Vec::new();
    for y in 0..h {
        for x in 0..w {
            let p = image::GenericImageView::get_pixel(&small, x, y).0;
            px.push((p[0], p[1], p[2]));
        }
    }
    px
}

/// A picture scaled to a screen: its size before (`src_w` x `src_h` pixels)
/// and after (`w` x `h`), and the scaled pixels, row after row.
pub struct ScaledPicture {
    pub src_w: u32,
    pub src_h: u32,
    pub w: u32,
    pub h: u32,
    pub rgb: Vec<(u8, u8, u8)>,
}

/// Whether a picture of `img_w` x `img_h` pixels can be scaled to a screen of
/// `screen` cells: it has a width, the size computation does not overflow
/// 32 bits, and the scaled picture's pixels fit in memory.
pub open spec fn scalable(img_w: u32, img_h: u32, screen: (u32, u32)) -> bool {
    let h2 = (img_h / 2) as int;
    &&& img_w > 0
    &&& h2 * (screen.0 as int) <= u32::MAX
    &&& (h2 * (screen.0 as int)) / (img_w as int) > screen.1 ==> (img_w as int) * (screen.1 as int)
        <= u32::MAX
    &&& fitted_size(img_w, img_h, screen).0 * fitted_size(img_w, img_h, screen).1 * 4
        <= usize::MAX
}

impl Readd {
    /// The size a picture of `img_w` x `img_h` pixels is scaled to on a screen
    /// of `screen_size` cells (see [`fitted_size`]), or `None` when it cannot
    /// be scaled (see [`scalable`]).
    pub fn scaled_size(img_w: u32, img_h: u32, screen_size: (u32, u32)) -> (r: Option<(u32, u32)>)
        ensures
            r is Some <==> scalable(img_w, img_h, screen_size),
            r matches Some((w, h)) ==> {
                &&& w == fitted_size(img_w, img_h, screen_size).0
                &&& h == fitted_size(img_w, img_h, screen_size).1
                &&& w <= screen_size.0
                &&& h <= screen_size.1
            },
    {
        if img_w == 0 {
            return None;
        }
        let h2 = (img_h / 2) as u64;
        assert(h2 * (screen_size.0 as u64) <= u64::MAX) by (nonlinear_arith)
            requires
                h2 <= u32::MAX,
                screen_size.0 <= u32::MAX,
        ;
        assert((img_w as u64) * (screen_size.1 as u64) <= u64::MAX) by (nonlinear_arith)
            requires
                img_w <= u32::MAX,
                screen_size.1 <= u32::MAX,
        ;
        if h2 * screen_size.0 as u64 > u32::MAX as u64 {
            return None;
        }
        if (h2 * screen_size.0 as u64) / (img_w as u64) > screen_size.1 as u64 && (img_w as u64)
            * (screen_size.1 as u64) > u32::MAX as u64 {
            return None;
        }
        let (w, h) = fit_size(img_w, img_h, screen_size);
        proof {
            lemma_fitted_size_fits(img_w, img_h, screen_size);
        }
        assert((w as u128) * (h as u128) * 4 <= u128::MAX) by (nonlinear_arith)
            requires
                w <= u32::MAX,
                h <= u32::MAX,
        ;
        if (w as u128) * (h as u128) * 4 > usize::MAX as u128 {
            return None;
        }
        Some((w, h))
    }

    /// Scales a picture to fit a screen of `screen_size` = (width, height)
    /// cells (see [`fitted_size`]); `None` exactly when its size cannot be
    /// scaled (see [`scalable`]).
    pub fn scale_picture(pic: &Picture, screen_size: (u32, u32)) -> (r: Option<ScaledPicture>)
        ensures
            r is None <==> !scalable(pic@.0, pic@.1, screen_size),
            r matches Some(p) ==> {
                &&& p.src_w == pic@.0
                &&& p.src_h == pic@.1
                &&& p.w == fitted_size(pic@.0, pic@.1, screen_size).0
                &&& p.h == fitted_size(pic@.0, pic@.1, screen_size).1
                &&& p.w <= screen_size.0
                &&& p.h <= screen_size.1
                &&& p.rgb@ == resized(pic@.0, pic@.1, pic@.2, p.w, p.h)
                &&& p.rgb@.len() == (p.w as int) * (p.h as int)
            },
    {
        proof {
            use_type_invariant(pic);
        }
        let (img_w, img_h) = (pic.width, pic.height);
        match Readd::scaled_size(img_w, img_h, screen_size) {
            Some((w, h)) => {
                let rgb = resized_rgb(img_w, img_h, pic.rgba.as_slice(), w, h);
                Some(ScaledPicture { src_w: img_w, src_h: img_h, w, h, rgb })
            },
            None => None,
        }
    }
}

/// Puts cell `v` into grid `g` at column `v.pos.0 - 1`, row `v.pos.1 - 1`
/// (positions count from 1), when that cell exists.
pub open spec fn put_cell(g: Seq<Seq<Node>>, v: Node) -> Seq<Seq<Node>> {
    let x = v.pos.0 - 1;
    let y = v.pos.1 - 1;
    if 0 <= y < g.len() && 0 <= x < g[y].len() {
        g.update(y, g[y].update(x, v))
    } else {
        g
    }
}

/// Grid `g` after putting each of `ups` in turn (see [`put_cell`]).
pub open spec fn apply_updates(g: Seq<Seq<Node>>, ups: Seq<Node>) -> Seq<Seq<Node>>
    decreases ups.len(),
{
    if ups.len() == 0 {
        g
    } else {
        put_cell(apply_updates(g, ups.drop_last()), ups.last())
    }
}

/// `g` has exactly `h` rows of exactly `w` cells.
pub open spec fn rect(g: Seq<Seq<Node>>, w: nat, h: nat) -> bool {
    &&& g.len() == h
    &&& forall|y: int| 0 <= y < h ==> #[trigger] g[y].len() == w
}

/// Every cell of `now` that differs from `prev` knows where it stands:
/// column `x + 1`, row `y + 1`.
pub open spec fn placed_where_changed(now: Seq<Seq<Node>>, prev: Seq<Seq<Node>>, w: nat, h: nat) -> bool {
    forall|y: int, x: int|
        0 <= y < h && 0 <= x < w && #[trigger] now[y][x] != prev[y][x] ==> now[y][x].pos.0 == x + 1
            && now[y][x].pos.1 == y + 1
}

proof fn lemma_apply_append(g: Seq<Seq<Node>>, a: Seq<Node>, b: Seq<Node>)
    ensures
        apply_updates(g, a + b) == apply_updates(apply_updates(g, a), b),
    decreases b.len(),
{
    if b.len() == 0 {
        assert(a + b =~= a);
    } else {
        assert((a + b).drop_last() =~= a + b.drop_last());
        lemma_apply_append(g, a, b.drop_last());
    }
}

/// Applying the changes of row `y`, columns `0..x`, to a grid whose row `y`
/// is `prev[y]`.
proof fn lemma_apply_row(
    g: Seq<Seq<Node>>,
    now: Seq<Seq<Node>>,
    prev: Seq<Seq<Node>>,
    w: nat,
    h: nat,
    y: int,
    x: nat,
)
    requires
        rect(g, w, h),
        rect(now, w, h),
        rect(prev, w, h),
        placed_where_changed(now, prev, w, h),
        0 <= y < h,
        x <= w,
        g[y] == prev[y],
    ensures
        apply_updates(g, row_diff(now[y], prev[y], x)) == g.update(
            y,
            now[y].take(x as int) + prev[y].skip(x as int),
        ),
    decreases x,
{
    if x == 0 {
        assert(now[y].take(0) + prev[y].skip(0) =~= prev[y]);
        assert(g.update(y, prev[y]) =~= g);
    } else {
        let xp = (x - 1) as nat;
        lemma_apply_row(g, now, prev, w, h, y, xp);
        let g1 = g.update(y, now[y].take(xp as int) + prev[y].skip(xp as int));
        let c = now[y][xp as int];
        let before = row_diff(now[y], prev[y], xp);
        if c != prev[y][xp as int] {
            assert(row_diff(now[y], prev[y], x) == before.push(c));
            assert(before.push(c).drop_last() =~= before);
            assert(apply_updates(g, before.push(c)) == put_cell(apply_updates(g, before), c));
            assert(now[y][xp as int].pos.0 == xp + 1 && now[y][xp as int].pos.1 == y + 1);
            assert(g1[y].len() == w);
            assert(put_cell(g1, c) == g1.update(y, g1[y].update(xp as int, c)));
            assert(g1[y].update(xp as int, c) =~= now[y].take(x as int) + prev[y].skip(x as int));
            assert(g1.update(y, g1[y].update(xp as int, c)) =~= g.update(
                y,
                now[y].take(x as int) + prev[y].skip(x as int),
            ));
        } else {
            assert(row_diff(now[y], prev[y], x) == before);
            assert(now[y].take(xp as int) + prev[y].skip(xp as int) =~= now[y].take(x as int)
                + prev[y].skip(x as int));
        }
    }
}

/// The grid whose first `k` rows are those of `now` and the others those of
/// `prev`.
pub open spec fn rows_mixed(now: Seq<Seq<Node>>, prev: Seq<Seq<Node>>, h: nat, k: int) -> Seq<
    Seq<Node>,
> {
    Seq::new(h, |r: int| if r < k { now[r] } else { prev[r] })
}

proof fn lemma_apply_rows(now: Seq<Seq<Node>>, prev: Seq<Seq<Node>>, w: nat, h: nat, k: nat)
    requires
        rect(now, w, h),
        rect(prev, w, h),
        placed_where_changed(now, prev, w, h),
        k <= h,
    ensures
        apply_updates(prev, grid_diff(now, prev, w, k)) == rows_mixed(now, prev, h, k as int),
    decreases k,
{
    if k == 0 {
        assert(rows_mixed(now, prev, h, 0) =~= prev);
    } else {
        let kp = (k - 1) as nat;
        lemma_apply_rows(now, prev, w, h, kp);
        let g = rows_mixed(now, prev, h, kp as int);
        lemma_apply_append(prev, grid_diff(now, prev, w, kp), row_diff(now[kp as int], prev[kp as int], w));
        assert(rect(g, w, h));
        lemma_apply_row(g, now, prev, w, h, kp as int, w);
        assert(now[kp as int].take(w as int) + prev[kp as int].skip(w as int) =~= now[kp as int]);
        assert(g.update(kp as int, now[kp as int]) =~= rows_mixed(now, prev, h, k as int));
    }
}

/// Putting the changed cells of a frame (see [`grid_diff`]) into the frame
/// before it gives the frame, when both have `h` rows of `w` cells and each
/// changed cell stands at its own column and row (counted from 1).
pub proof fn lemma_updates_rebuild_frame(now: Seq<Seq<Node>>, prev: Seq<Seq<Node>>, w: nat, h: nat)
    requires
        rect(now, w, h),
        rect(prev, w, h),
        placed_where_changed(now, prev, w, h),
    ensures
        apply_updates(prev, grid_diff(now, prev, w, h)) == now,
{
    lemma_apply_rows(now, prev, w, h, h);
    assert(rows_mixed(now, prev, h, h as int) =~= now);
}

/// The cells of a `ww` x `hh` picture (see [`grid_cell`]), row after row.
pub open spec fn picture_grid(
    ww: u32,
    hh: u32,
    colors: Seq<(u8, u8, u8)>,
    levels: Seq<u8>,
) -> Seq<Seq<Node>> {
    Seq::new(hh as nat, |y: int| Seq::new(ww as nat, |x: int| grid_cell(ww, hh, colors, levels, x, y)))
}

/// Of two pictures of the same scaled size, putting the changed cells of the
/// second into the first gives the second: the diff of decoded frames loses
/// no change.
pub proof fn lemma_picture_updates_rebuild(
    ww: u32,
    hh: u32,
    c1: Seq<(u8, u8, u8)>,
    l1: Seq<u8>,
    c2: Seq<(u8, u8, u8)>,
    l2: Seq<u8>,
)
    ensures
        apply_updates(
            picture_grid(ww, hh, c1, l1),
            grid_diff(picture_grid(ww, hh, c2, l2), picture_grid(ww, hh, c1, l1), ww as nat, hh as nat),
        ) == picture_grid(ww, hh, c2, l2),
{
    let g1 = picture_grid(ww, hh, c1, l1);
    let g2 = picture_grid(ww, hh, c2, l2);
    assert(rect(g1, ww as nat, hh as nat));
    assert(rect(g2, ww as nat, hh as nat));
    assert forall|y: int, x: int|
        0 <= y < hh && 0 <= x < ww && #[trigger] g2[y][x] != g1[y][x] implies g2[y][x].pos.0 == x + 1
        && g2[y][x].pos.1 == y + 1 by {
        assert(g2[y][x] == grid_cell(ww, hh, c2, l2, x, y));
        assert(g1[y][x] == grid_cell(ww, hh, c1, l1, x, y));
    }
    lemma_updates_rebuild_frame(g2, g1, ww as nat, hh as nat);
}

} // verus!
