//! Character cells and the queue of frames that holds them.
use crate::color::Color;
use std::collections::VecDeque;
use vstd::prelude::*;
use vstd::std_specs::cmp::PartialEqSpecImpl;

verus! {

/// The glyph drawn for a brightness level (0 darkest, 15 brightest).
pub open spec fn style_char(style: u8) -> char {
    seq!['.', '.', ':', ';', 'i', '7', 'r', 'a', 'Z', 'S', '0', '8', 'X', 'M', 'W', '@'][style as int]
}

/// One character cell: its colour, its brightness level and its position on
/// the screen (column, row).
#[derive(Clone, Copy, Debug)]
pub struct Node {
    pub node_col: Color,
    pub node_style: u8,
    pub pos: (u16, u16),
}

/// Two cells look the same when colour and brightness agree; where they stand
/// does not matter.
pub open spec fn same_look(a: Node, b: Node) -> bool {
    a.node_col == b.node_col && a.node_style == b.node_style
}

impl PartialEq for Node {
    fn eq(&self, other: &Node) -> (same: bool) {
        self.node_col == other.node_col && self.node_style == other.node_style
    }
}

impl PartialEqSpecImpl for Node {
    open spec fn obeys_eq_spec() -> bool {
        true
    }

    open spec fn eq_spec(&self, other: &Node) -> bool {
        same_look(*self, *other)
    }
}

impl Node {
    /// A cell with the given colour, brightness and position.
    pub fn new(color: Color, style: u8, pos: (u16, u16)) -> (node: Node)
        ensures
            node.node_col == color,
            node.node_style == style,
            node.pos == pos,
    {
        Node { node_col: color, node_style: style, pos }
    }

    /// The glyph of this cell's brightness level.
    pub fn get_node_style(&self) -> (c: char)
        requires
            self.node_style < 16,
        ensures
            c == style_char(self.node_style),
    {
        let chars: [char; 16] = [
            '.', '.', ':', ';', 'i', '7', 'r', 'a', 'Z', 'S', '0', '8', 'X', 'M', 'W', '@',
        ];
        proof {
            assert(chars@ =~= seq!['.', '.', ':', ';', 'i', '7', 'r', 'a', 'Z', 'S', '0', '8', 'X', 'M', 'W', '@']);
        }
        chars[self.node_style as usize]
    }

    /// The colour of this cell.
    pub fn get_node_col(&self) -> (c: Color)
        ensures
            c == self.node_col,
    {
        self.node_col
    }

    /// Where this cell stands: (column, row).
    pub fn get_pos(&self) -> (p: (u16, u16))
        ensures
            p == self.pos,
    {
        self.pos
    }

    /// Moves the cell to column `x`, row `y`; colour and brightness stay.
    pub fn set_xy(&mut self, x: u16, y: u16)
        ensures
            final(self).pos == (x, y),
            final(self).node_col == old(self).node_col,
            final(self).node_style == old(self).node_style,
    {
        self.pos = (x, y);
    }
}

/// A first-in first-out queue of frames, each frame the cells that change in it.
pub struct NodeQue {
    queue: VecDeque<Vec<Node>>,
}

impl View for NodeQue {
    type V = Seq<Seq<Node>>;

    closed spec fn view(&self) -> Seq<Seq<Node>> {
        self.queue@.map_values(|f: Vec<Node>| f@)
    }
}

impl NodeQue {
    /// An empty queue.
    pub fn new() -> (que: NodeQue)
        ensures
            que@ == Seq::<Seq<Node>>::empty(),
    {
        let queue: VecDeque<Vec<Node>> = VecDeque::new();
        let que = NodeQue { queue };
        assert(que@ =~= Seq::<Seq<Node>>::empty());
        que
    }

    /// Takes the oldest frame off the queue, or `None` when it is empty.
    pub fn get_front(&mut self) -> (frame: Option<Vec<Node>>)
        ensures
            old(self)@.len() == 0 ==> frame is None && final(self)@ == old(self)@,
            old(self)@.len() > 0 ==> frame is Some && frame->0@ == old(self)@[0]
                && final(self)@ == old(self)@.drop_first(),
    {
        let frame = self.queue.pop_front();
        proof {
            if old(self)@.len() > 0 {
                assert(self@ =~= old(self)@.drop_first());
            }
        }
        frame
    }

    /// Appends a frame at the back of the queue.
    pub fn add_back(&mut self, a_frame: Vec<Node>)
        ensures
            final(self)@ == old(self)@.push(a_frame@),
    {
        self.queue.push_back(a_frame);
        assert(self@ =~= old(self)@.push(a_frame@));
    }

    /// How many frames wait in the queue.
    pub fn len(&self) -> (n: usize)
        ensures
            n == self@.len(),
    {
        self.queue.len()
    }
}

} // verus!
