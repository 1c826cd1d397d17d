//! Replaying a queue of frames on a character screen: the screen's cells and
//! what showing one cell does to them.
use crate::color::Color;
use crate::node::{style_char, Node, NodeQue};
use vstd::prelude::*;

verus! {

/// One character on the screen: its colour and glyph.
#[derive(Clone, Copy, Debug)]
pub struct PNode {
    pub node_col: Color,
    pub style: char,
}

/// A blank screen character: black, a space.
pub open spec fn blank_pnode() -> PNode {
    PNode { node_col: Color::Rgb([0, 0, 0]), style: ' ' }
}

impl PNode {
    /// A screen character of the given colour and glyph.
    pub fn new(node_col: Color, style: char) -> (p: PNode)
        ensures
            p == (PNode { node_col, style }),
    {
        PNode { node_col, style }
    }

    /// Takes on the colour and glyph of cell `node`.
    pub fn change_to(&mut self, node: &Node)
        requires
            node.node_style < 16,
        ensures
            *final(self) == (PNode { node_col: node.node_col, style: style_char(node.node_style) }),
    {
        self.node_col = node.get_node_col();
        self.style = node.get_node_style();
    }
}

/// The characters of a screen, row after row, `width` to a row.
pub struct Screen {
    width: u16,
    screen: Vec<PNode>,
}

impl View for Screen {
    type V = (u16, Seq<PNode>);

    closed spec fn view(&self) -> (u16, Seq<PNode>) {
        (self.width, self.screen@)
    }
}

impl Screen {
    /// A blank screen of `width` x `height` characters.
    pub fn new(width: u16, height: u16) -> (s: Screen)
        ensures
            s@.0 == width,
            s@.1 == Seq::new((width as nat) * (height as nat), |i: int| blank_pnode()),
    {
        let mut screen: Vec<PNode> = Vec::new();
        for i in 0..width
            invariant
                screen@ == Seq::new((i as nat) * (height as nat), |k: int| blank_pnode()),
        {
            for j in 0..height
                invariant
                    screen@ == Seq::new(
                        (i as nat) * (height as nat) + j as nat,
                        |k: int| blank_pnode(),
                    ),
            {
                screen.push(PNode::new(Color::Rgb([0u8, 0u8, 0u8]), ' '));
                assert(screen@ =~= Seq::new(
                    (i as nat) * (height as nat) + (j + 1) as nat,
                    |k: int| blank_pnode(),
                ));
            }
            assert((i as nat) * (height as nat) + height as nat == ((i + 1) as nat) * (
            height as nat)) by (nonlinear_arith);
        }
        Screen { width, screen }
    }

    /// The index of column `x`, row `y`.
    pub fn get_index(&self, x: usize, y: usize) -> (idx: usize)
        requires
            x + y * self@.0 <= usize::MAX,
        ensures
            idx == x + y * self@.0,
    {
        x + y * self.width as usize
    }
}

/// A player: its frame rate, its screen and the frames still to show.
pub struct Player {
    fps: u8,
    screen: Screen,
    node_que: NodeQue,
}

/// What a player holds: rate, screen width, screen characters, frames to show.
pub struct PlayerModel {
    pub fps: u8,
    pub width: u16,
    pub cells: Seq<PNode>,
    pub queue: Seq<Seq<Node>>,
}

impl View for Player {
    type V = PlayerModel;

    closed spec fn view(&self) -> PlayerModel {
        PlayerModel {
            fps: self.fps,
            width: self.screen@.0,
            cells: self.screen@.1,
            queue: self.node_que@,
        }
    }
}

impl Player {
    /// A player for a video of `width` x `height` cells on a terminal of
    /// `s_width` x `s_height`; `None` when the video does not fit.
    pub fn new(fps: u8, width: u16, height: u16, s_width: u16, s_height: u16, node_que: NodeQue) -> (r:
        Option<Player>)
        ensures
            (s_width < width || s_height < height) ==> r is None,
            !(s_width < width || s_height < height) ==> (r matches Some(p) && p@ == (PlayerModel {
                fps,
                width,
                cells: Seq::new((width as nat) * (height as nat), |i: int| blank_pnode()),
                queue: node_que@,
            })),
    {
        if s_width < width || s_height < height {
            return None;
        }
        let screen = Screen::new(width, height);
        Some(Player { fps, screen, node_que })
    }

    /// The frame rate.
    pub fn get_fps(&self) -> (fps: u8)
        ensures
            fps == self@.fps,
    {
        self.fps
    }

    /// Takes the next frame to show, or `None` when all have been shown.
    pub fn next_frame(&mut self) -> (frame: Option<Vec<Node>>)
        ensures
            old(self)@.queue.len() == 0 ==> frame is None && final(self)@ == old(self)@,
            old(self)@.queue.len() > 0 ==> frame is Some && frame->0@ == old(self)@.queue[0]
                && final(self)@ == (PlayerModel { queue: old(self)@.queue.drop_first(), ..old(self)@ }),
    {
        self.node_que.get_front()
    }

    /// Puts cell `node` on the screen at its position; `false` (and nothing
    /// changes) when the position lies outside the screen.
    pub fn paint(&mut self, node: &Node) -> (shown: bool)
        requires
            node.node_style < 16,
        ensures
            ({
                let idx = node.pos.0 + node.pos.1 * old(self)@.width;
                &&& shown == (idx < old(self)@.cells.len())
                &&& shown ==> final(self)@ == (PlayerModel {
                    cells: old(self)@.cells.update(
                        idx,
                        PNode { node_col: node.node_col, style: style_char(node.node_style) },
                    ),
                    ..old(self)@
                })
                &&& !shown ==> final(self)@ == old(self)@
            }),
    {
        let pos = node.get_pos();
        assert((pos.1 as int) * (self.screen@.0 as int) <= 65535 * 65535) by (nonlinear_arith)
            requires
                pos.1 <= 65535,
                self.screen@.0 <= 65535,
        ;
        let idx = self.screen.get_index(pos.0 as usize, pos.1 as usize);
        if idx < self.screen.screen.len() {
            let mut cell = self.screen.screen[idx];
            cell.change_to(node);
            self.screen.screen.set(idx, cell);
            true
        } else {
            false
        }
    }
}

} // verus!
