//! The package of a converted video: its settings, the number of changed
//! cells of each frame and all changed cells one after another, with its
//! binary layout.
//!
//! Layout, all integers big-endian: the magic bytes `I2A`, fps (1 byte),
//! width (2), height (2), the number of frames (4), each frame's cell count
//! (4 each), the number of cells (8), then each cell: a colour tag (0 true
//! colour followed by red, green, blue; 1 cube index; 2 packed index, each
//! followed by the index byte), the brightness level (1), column (2), row (2).
use crate::bytes::{
    lemma_u16_roundtrip, lemma_u32_roundtrip, lemma_u64_roundtrip, push_u16, push_u32, push_u64, read_u16,
    read_u32, read_u64, u16_at, u16_be, u32_at, u32_be, u64_at, u64_be,
};
use crate::color::Color;
use crate::node::{Node, NodeQue};
use vstd::prelude::*;

verus! {

/// What a package holds.
pub struct PackageModel {
    pub fps: u8,
    pub width: u16,
    pub height: u16,
    pub num_per_frame: Seq<u32>,
    pub nodes: Seq<Node>,
}

/// The three magic bytes `I2A` that start every package.
pub open spec fn magic() -> Seq<u8> {
    seq![0x49u8, 0x32u8, 0x41u8]
}

/// The bytes of a colour: a tag, then its payload.
pub open spec fn encode_color(c: Color) -> Seq<u8> {
    match c {
        Color::Rgb(a) => seq![0u8, a[0], a[1], a[2]],
        Color::My256(i) => seq![1u8, i],
        Color::Df256(i) => seq![2u8, i],
    }
}

/// The bytes of a cell.
pub open spec fn encode_node(n: Node) -> Seq<u8> {
    encode_color(n.node_col) + seq![n.node_style] + u16_be(n.pos.0) + u16_be(n.pos.1)
}

/// The bytes of cells one after another.
pub open spec fn encode_nodes(ns: Seq<Node>) -> Seq<u8>
    decreases ns.len(),
{
    if ns.len() == 0 {
        seq![]
    } else {
        encode_nodes(ns.drop_last()) + encode_node(ns.last())
    }
}

/// The bytes of counts one after another.
pub open spec fn encode_u32s(vs: Seq<u32>) -> Seq<u8>
    decreases vs.len(),
{
    if vs.len() == 0 {
        seq![]
    } else {
        encode_u32s(vs.drop_last()) + u32_be(vs.last())
    }
}

/// The bytes of a package.
pub open spec fn encode_package(m: PackageModel) -> Seq<u8> {
    magic() + seq![m.fps] + u16_be(m.width) + u16_be(m.height) + u32_be(
        m.num_per_frame.len() as u32,
    ) + encode_u32s(m.num_per_frame) + u64_be(m.nodes.len() as u64) + encode_nodes(m.nodes)
}

/// The colour stored at `s[p]` and the position after it, if the bytes hold one.
pub open spec fn decode_color_at(s: Seq<u8>, p: int) -> Option<(Color, int)> {
    if p < 0 || p >= s.len() {
        None
    } else if s[p] == 0 {
        if p + 4 <= s.len() {
            Some((Color::Rgb([s[p + 1], s[p + 2], s[p + 3]]), p + 4))
        } else {
            None
        }
    } else if s[p] == 1 {
        if p + 2 <= s.len() {
            Some((Color::My256(s[p + 1]), p + 2))
        } else {
            None
        }
    } else if s[p] == 2 {
        if p + 2 <= s.len() {
            Some((Color::Df256(s[p + 1]), p + 2))
        } else {
            None
        }
    } else {
        None
    }
}

/// The cell stored at `s[p]` and the position after it, if the bytes hold one.
pub open spec fn decode_node_at(s: Seq<u8>, p: int) -> Option<(Node, int)> {
    match decode_color_at(s, p) {
        Some((c, q)) => if q + 5 <= s.len() {
            Some((Node { node_col: c, node_style: s[q], pos: (u16_at(s, q + 1), u16_at(s, q + 3)) }, q + 5))
        } else {
            None
        },
        None => None,
    }
}

/// `n` cells stored one after another from `s[p]`, and the position after them.
pub open spec fn decode_nodes_at(s: Seq<u8>, p: int, n: nat) -> Option<(Seq<Node>, int)>
    decreases n,
{
    if n == 0 {
        Some((seq![], p))
    } else {
        match decode_nodes_at(s, p, (n - 1) as nat) {
            Some((ns, q)) => match decode_node_at(s, q) {
                Some((nd, r)) => Some((ns.push(nd), r)),
                None => None,
            },
            None => None,
        }
    }
}

/// `n` counts stored one after another from `s[p]`, and the position after them.
pub open spec fn decode_u32s_at(s: Seq<u8>, p: int, n: nat) -> Option<(Seq<u32>, int)>
    decreases n,
{
    if n == 0 {
        Some((seq![], p))
    } else {
        match decode_u32s_at(s, p, (n - 1) as nat) {
            Some((vs, q)) => if 0 <= q && q + 4 <= s.len() {
                Some((vs.push(u32_at(s, q)), q + 4))
            } else {
                None
            },
            None => None,
        }
    }
}

/// The package stored at the start of `s`, if `s` starts with one; bytes after
/// it are ignored.
pub open spec fn decode_package(s: Seq<u8>) -> Option<PackageModel> {
    if s.len() < 12 || s.subrange(0, 3) != magic() {
        None
    } else {
        match decode_u32s_at(s, 12, u32_at(s, 8) as nat) {
            Some((counts, q)) => if q + 8 <= s.len() {
                match decode_nodes_at(s, q + 8, u64_at(s, q) as nat) {
                    Some((nodes, _)) => Some(
                        PackageModel {
                            fps: s[3],
                            width: u16_at(s, 4),
                            height: u16_at(s, 6),
                            num_per_frame: counts,
                            nodes,
                        },
                    ),
                    None => None,
                }
            } else {
                None
            },
            None => None,
        }
    }
}

// Reading integers back from a window of bytes.
proof fn lemma_u16_window(s: Seq<u8>, p: int, v: u16)
    requires
        0 <= p,
        p + 2 <= s.len(),
        s.subrange(p, p + 2) == u16_be(v),
    ensures
        u16_at(s, p) == v,
{
    lemma_u16_roundtrip(v);
    assert(s[p] == s.subrange(p, p + 2)[0]);
    assert(s[p + 1] == s.subrange(p, p + 2)[1]);
}

proof fn lemma_u32_window(s: Seq<u8>, p: int, v: u32)
    requires
        0 <= p,
        p + 4 <= s.len(),
        s.subrange(p, p + 4) == u32_be(v),
    ensures
        u32_at(s, p) == v,
{
    lemma_u32_roundtrip(v);
    let w = s.subrange(p, p + 4);
    assert(s[p] == w[0] && s[p + 1] == w[1] && s[p + 2] == w[2] && s[p + 3] == w[3]);
}

proof fn lemma_u64_window(s: Seq<u8>, p: int, v: u64)
    requires
        0 <= p,
        p + 8 <= s.len(),
        s.subrange(p, p + 8) == u64_be(v),
    ensures
        u64_at(s, p) == v,
{
    lemma_u64_roundtrip(v);
    let w = s.subrange(p, p + 8);
    assert(s[p] == w[0] && s[p + 1] == w[1] && s[p + 2] == w[2] && s[p + 3] == w[3]);
    assert(s[p + 4] == w[4] && s[p + 5] == w[5] && s[p + 6] == w[6] && s[p + 7] == w[7]);
}

/// Splitting a window `a + b` into its two parts.
proof fn lemma_split_window(s: Seq<u8>, p: int, a: Seq<u8>, b: Seq<u8>)
    requires
        0 <= p,
        p + a.len() + b.len() <= s.len(),
        s.subrange(p, p + a.len() + b.len()) == a + b,
    ensures
        s.subrange(p, p + a.len()) == a,
        s.subrange(p + a.len(), p + a.len() + b.len()) == b,
{
    let w = s.subrange(p, p + a.len() + b.len());
    assert(s.subrange(p, p + a.len()) =~= w.subrange(0, a.len() as int));
    assert(w.subrange(0, a.len() as int) =~= a);
    assert(s.subrange(p + a.len(), p + a.len() + b.len()) =~= w.subrange(
        a.len() as int,
        (a.len() + b.len()) as int,
    ));
    assert(w.subrange(a.len() as int, (a.len() + b.len()) as int) =~= b);
}

proof fn lemma_decode_node_window(s: Seq<u8>, p: int, n: Node)
    requires
        0 <= p,
        p + encode_node(n).len() <= s.len(),
        s.subrange(p, p + encode_node(n).len()) == encode_node(n),
    ensures
        decode_node_at(s, p) == Some((n, p + encode_node(n).len())),
{
    broadcast use vstd::array::group_array_axioms;

    let c = encode_color(n.node_col);
    let x = u16_be(n.pos.0);
    let y = u16_be(n.pos.1);
    let st = seq![n.node_style];
    assert(encode_node(n) == c + st + x + y);
    lemma_split_window(s, p, c + st + x, y);
    lemma_split_window(s, p, c + st, x);
    lemma_split_window(s, p, c, st);
    let q = p + c.len();
    lemma_u16_window(s, q + 1, n.pos.0);
    lemma_u16_window(s, q + 3, n.pos.1);
    assert(s[q] == s.subrange(q, q + 1)[0]);
    let w = s.subrange(p, p + c.len());
    assert(s[p] == w[0]);
    match n.node_col {
        Color::Rgb(a) => {
            assert(s[p + 1] == w[1] && s[p + 2] == w[2] && s[p + 3] == w[3]);
            assert([s[p + 1], s[p + 2], s[p + 3]] =~= a);
        },
        Color::My256(i) => {
            assert(s[p + 1] == w[1]);
        },
        Color::Df256(i) => {
            assert(s[p + 1] == w[1]);
        },
    }
}

proof fn lemma_decode_u32s_window(s: Seq<u8>, p: int, vs: Seq<u32>)
    requires
        0 <= p,
        p + encode_u32s(vs).len() <= s.len(),
        s.subrange(p, p + encode_u32s(vs).len()) == encode_u32s(vs),
    ensures
        encode_u32s(vs).len() == 4 * vs.len(),
        decode_u32s_at(s, p, vs.len()) == Some((vs, p + 4 * vs.len())),
    decreases vs.len(),
{
    if vs.len() == 0 {
        assert(vs =~= seq![]);
    } else {
        let init = vs.drop_last();
        let e = encode_u32s(init);
        lemma_split_window(s, p, e, u32_be(vs.last()));
        lemma_decode_u32s_window(s, p, init);
        let q = p + 4 * init.len();
        lemma_u32_window(s, q, vs.last());
        assert(init.push(vs.last()) =~= vs);
    }
}

proof fn lemma_decode_nodes_window(s: Seq<u8>, p: int, ns: Seq<Node>)
    requires
        0 <= p,
        p + encode_nodes(ns).len() <= s.len(),
        s.subrange(p, p + encode_nodes(ns).len()) == encode_nodes(ns),
    ensures
        decode_nodes_at(s, p, ns.len()) == Some((ns, p + encode_nodes(ns).len())),
    decreases ns.len(),
{
    if ns.len() == 0 {
        assert(ns =~= seq![]);
    } else {
        let init = ns.drop_last();
        let e = encode_nodes(init);
        lemma_split_window(s, p, e, encode_node(ns.last()));
        lemma_decode_nodes_window(s, p, init);
        lemma_decode_node_window(s, p + e.len(), ns.last());
        assert(init.push(ns.last()) =~= ns);
    }
}

proof fn lemma_package_layout(m: PackageModel, rest: Seq<u8>)
    requires
        m.num_per_frame.len() <= u32::MAX,
        m.nodes.len() <= u64::MAX,
    ensures
        ({
            let s = encode_package(m) + rest;
            let q = (12 + 4 * m.num_per_frame.len()) as int;
            &&& s.len() >= 12
            &&& s.subrange(0, 3) == magic()
            &&& s[3] == m.fps
            &&& u16_at(s, 4) == m.width
            &&& u16_at(s, 6) == m.height
            &&& u32_at(s, 8) == m.num_per_frame.len()
            &&& decode_u32s_at(s, 12, m.num_per_frame.len()) == Some((m.num_per_frame, q))
            &&& q + 8 <= s.len()
            &&& u64_at(s, q) == m.nodes.len()
            &&& decode_nodes_at(s, q + 8, m.nodes.len()) == Some(
                (m.nodes, q + 8 + encode_nodes(m.nodes).len()),
            )
        }),
{
    let cnt = m.num_per_frame.len() as u32;
    let nlen = m.nodes.len() as u64;
    let a1 = magic() + seq![m.fps];
    let a2 = a1 + u16_be(m.width);
    let a3 = a2 + u16_be(m.height);
    let a4 = a3 + u32_be(cnt);
    let u = encode_u32s(m.num_per_frame);
    let a5 = a4 + u;
    let a6 = a5 + u64_be(nlen);
    let ns = encode_nodes(m.nodes);
    let e = encode_package(m);
    assert(e == a6 + ns);
    let s = e + rest;
    assert(s.subrange(0, e.len() as int) =~= e);
    lemma_split_window(s, 0, a6, ns);
    lemma_split_window(s, 0, a5, u64_be(nlen));
    lemma_split_window(s, 0, a4, u);
    lemma_split_window(s, 0, a3, u32_be(cnt));
    lemma_split_window(s, 0, a2, u16_be(m.height));
    lemma_split_window(s, 0, a1, u16_be(m.width));
    lemma_split_window(s, 0, magic(), seq![m.fps]);
    assert(s[3] == s.subrange(3, 4)[0]);
    lemma_u16_window(s, 4, m.width);
    lemma_u16_window(s, 6, m.height);
    lemma_u32_window(s, 8, cnt);
    lemma_decode_u32s_window(s, 12, m.num_per_frame);
    let q = (12 + 4 * m.num_per_frame.len()) as int;
    lemma_u64_window(s, q, nlen);
    lemma_decode_nodes_window(s, q + 8, m.nodes);
}

/// Decoding what was encoded gives back the package, whatever bytes follow it.
pub proof fn lemma_decode_encode(m: PackageModel, rest: Seq<u8>)
    requires
        m.num_per_frame.len() <= u32::MAX,
        m.nodes.len() <= u64::MAX,
    ensures
        decode_package(encode_package(m) + rest) == Some(m),
{
    lemma_package_layout(m, rest);
}

/// Once `i` counts cannot be read, more cannot either.
proof fn lemma_u32s_fail(s: Seq<u8>, p: int, i: nat, n: nat)
    requires
        i <= n,
        decode_u32s_at(s, p, i) is None,
    ensures
        decode_u32s_at(s, p, n) is None,
    decreases n - i,
{
    if i < n {
        lemma_u32s_fail(s, p, i + 1, n);
    }
}

/// Once `i` cells cannot be read, more cannot either.
proof fn lemma_nodes_fail(s: Seq<u8>, p: int, i: nat, n: nat)
    requires
        i <= n,
        decode_nodes_at(s, p, i) is None,
    ensures
        decode_nodes_at(s, p, n) is None,
    decreases n - i,
{
    if i < n {
        lemma_nodes_fail(s, p, i + 1, n);
    }
}

/// Appends the bytes of a colour.
fn encode_color_into(out: &mut Vec<u8>, c: &Color)
    ensures
        final(out)@ == old(out)@ + encode_color(*c),
{
    match c {
        Color::Rgb(a) => {
            out.push(0u8);
            out.push(a[0]);
            out.push(a[1]);
            out.push(a[2]);
        },
        Color::My256(i) => {
            out.push(1u8);
            out.push(*i);
        },
        Color::Df256(i) => {
            out.push(2u8);
            out.push(*i);
        },
    }
    assert(out@ =~= old(out)@ + encode_color(*c));
}

/// Appends the bytes of a cell.
fn encode_node_into(out: &mut Vec<u8>, n: &Node)
    ensures
        final(out)@ == old(out)@ + encode_node(*n),
{
    let ghost start = out@;
    encode_color_into(out, &n.node_col);
    out.push(n.node_style);
    push_u16(out, n.pos.0);
    push_u16(out, n.pos.1);
    assert(out@ =~= start + encode_node(*n));
}

/// Reads the colour stored at `s[p]`.
fn decode_color(s: &[u8], p: usize) -> (r: Option<(Color, usize)>)
    ensures
        match r {
            Some((c, q)) => decode_color_at(s@, p as int) == Some((c, q as int)),
            None => decode_color_at(s@, p as int) is None,
        },
{
    let len = s.len();
    if p >= len {
        return None;
    }
    let tag = s[p];
    if tag == 0 {
        if len - p >= 4 {
            Some((Color::Rgb([s[p + 1], s[p + 2], s[p + 3]]), p + 4))
        } else {
            None
        }
    } else if tag == 1 {
        if len - p >= 2 {
            Some((Color::My256(s[p + 1]), p + 2))
        } else {
            None
        }
    } else if tag == 2 {
        if len - p >= 2 {
            Some((Color::Df256(s[p + 1]), p + 2))
        } else {
            None
        }
    } else {
        None
    }
}

/// Reads the cell stored at `s[p]`.
fn decode_node(s: &[u8], p: usize) -> (r: Option<(Node, usize)>)
    ensures
        match r {
            Some((n, q)) => decode_node_at(s@, p as int) == Some((n, q as int)) && q <= s@.len(),
            None => decode_node_at(s@, p as int) is None,
        },
{
    match decode_color(s, p) {
        Some((c, q)) => {
            if s.len() - q >= 5 {
                let style = s[q];
                let x = read_u16(s, q + 1);
                let y = read_u16(s, q + 3);
                Some((Node { node_col: c, node_style: style, pos: (x, y) }, q + 5))
            } else {
                None
            }
        },
        None => None,
    }
}

/// Reads `n` counts stored from `s[p]`.
fn decode_u32s(s: &[u8], p: usize, n: u32) -> (r: Option<(Vec<u32>, usize)>)
    requires
        p <= s@.len(),
    ensures
        match r {
            Some((vs, q)) => decode_u32s_at(s@, p as int, n as nat) == Some((vs@, q as int))
                && vs@.len() == n && q <= s@.len(),
            None => decode_u32s_at(s@, p as int, n as nat) is None,
        },
{
    let mut out: Vec<u32> = Vec::new();
    let mut pos = p;
    let mut i: u32 = 0;
    while i < n
        invariant
            i <= n,
            p <= pos <= s@.len(),
            out@.len() == i,
            decode_u32s_at(s@, p as int, i as nat) == Some((out@, pos as int)),
        decreases n - i,
    {
        if s.len() - pos < 4 {
            proof {
                lemma_u32s_fail(s@, p as int, (i + 1) as nat, n as nat);
            }
            return None;
        }
        let v = read_u32(s, pos);
        out.push(v);
        pos = pos + 4;
        i = i + 1;
    }
    Some((out, pos))
}

/// Reads `n` cells stored from `s[p]`.
fn decode_nodes(s: &[u8], p: usize, n: u64) -> (r: Option<(Vec<Node>, usize)>)
    requires
        p <= s@.len(),
    ensures
        match r {
            Some((ns, q)) => decode_nodes_at(s@, p as int, n as nat) == Some((ns@, q as int))
                && ns@.len() == n,
            None => decode_nodes_at(s@, p as int, n as nat) is None,
        },
{
    let mut out: Vec<Node> = Vec::new();
    let mut pos = p;
    let mut i: u64 = 0;
    while i < n
        invariant
            i <= n,
            pos <= s@.len(),
            out@.len() == i,
            decode_nodes_at(s@, p as int, i as nat) == Some((out@, pos as int)),
        decreases n - i,
    {
        match decode_node(s, pos) {
            Some((nd, q)) => {
                out.push(nd);
                pos = q;
                i = i + 1;
            },
            None => {
                proof {
                    lemma_nodes_fail(s@, p as int, (i + 1) as nat, n as nat);
                }
                return None;
            },
        }
    }
    Some((out, pos))
}

/// The smaller of `a` and `n`.
pub open spec fn clamp(a: int, n: int) -> int {
    if a < n {
        a
    } else {
        n
    }
}

/// The sum of all counts.
pub open spec fn sum_counts(cs: Seq<u32>) -> nat
    decreases cs.len(),
{
    if cs.len() == 0 {
        0
    } else {
        sum_counts(cs.drop_last()) + cs.last() as nat
    }
}

/// The frames that counts `cs` cut out of the cells `nodes`, in order: each
/// frame takes the next `cs[i]` cells, or what is left when fewer remain.
pub open spec fn split_frames(cs: Seq<u32>, nodes: Seq<Node>) -> Seq<Seq<Node>>
    decreases cs.len(),
{
    if cs.len() == 0 {
        seq![]
    } else {
        let prev = cs.drop_last();
        let start = clamp(sum_counts(prev) as int, nodes.len() as int);
        let end = clamp(sum_counts(prev) + cs.last(), nodes.len() as int);
        split_frames(prev, nodes).push(nodes.subrange(start, end))
    }
}

/// The number of cells of each frame.
pub open spec fn frame_lens(frames: Seq<Seq<Node>>) -> Seq<u32> {
    frames.map_values(|f: Seq<Node>| f.len() as u32)
}

/// All cells of all frames, frame after frame.
pub open spec fn flatten_frames(frames: Seq<Seq<Node>>) -> Seq<Node>
    decreases frames.len(),
{
    if frames.len() == 0 {
        seq![]
    } else {
        flatten_frames(frames.drop_last()) + frames.last()
    }
}

/// A package: playback settings, how many changed cells each frame has, and
/// the changed cells of all frames one after another.
pub struct Package {
    fps: u8,
    width: u16,
    height: u16,
    num_per_frame_count: u32,
    num_per_frame: Vec<u32>,
    nodes_count: u64,
    nodes: Vec<Node>,
}

impl View for Package {
    type V = PackageModel;

    closed spec fn view(&self) -> PackageModel {
        PackageModel {
            fps: self.fps,
            width: self.width,
            height: self.height,
            num_per_frame: self.num_per_frame@,
            nodes: self.nodes@,
        }
    }
}

impl Package {
    /// The stored counts are the lengths of what they count.
    #[verifier::type_invariant]
    spec fn counts_match(self) -> bool {
        &&& self.num_per_frame_count == self.num_per_frame@.len() as u32
        &&& self.nodes_count == self.nodes@.len()
    }

    /// A package of the given settings, frame cell counts and cells.
    pub fn new(fps: u8, width: u16, height: u16, num_per_frame: Vec<u32>, nodes: Vec<Node>) -> (pkg:
        Package)
        ensures
            pkg@ == (PackageModel {
                fps,
                width,
                height,
                num_per_frame: num_per_frame@,
                nodes: nodes@,
            }),
    {
        let num_per_frame_count = num_per_frame.len() as u32;
        let nodes_count = nodes.len() as u64;
        Package { fps, width, height, num_per_frame_count, num_per_frame, nodes_count, nodes }
    }

    /// (fps, width, height).
    pub fn get_config(&self) -> (cfg: (u8, u16, u16))
        ensures
            cfg == (self@.fps, self@.width, self@.height),
    {
        (self.fps, self.width, self.height)
    }

    /// The bytes of this package.
    pub fn to_bytes(&self) -> (out: Vec<u8>)
        ensures
            out@ == encode_package(self@),
            self@.nodes.len() <= u64::MAX,
    {
        proof {
            use_type_invariant(self);
        }
        let mut out: Vec<u8> = Vec::new();
        out.push(0x49u8);
        out.push(0x32u8);
        out.push(0x41u8);
        out.push(self.fps);
        push_u16(&mut out, self.width);
        push_u16(&mut out, self.height);
        push_u32(&mut out, self.num_per_frame_count);
        let ghost head = out@;
        let counts = &self.num_per_frame;
        for i in 0..counts.len()
            invariant
                out@ == head + encode_u32s(counts@.take(i as int)),
        {
            proof {
                assert(counts@.take(i + 1).drop_last() =~= counts@.take(i as int));
            }
            push_u32(&mut out, counts[i]);
            assert(out@ =~= head + encode_u32s(counts@.take(i + 1)));
        }
        assert(counts@.take(counts@.len() as int) =~= counts@);
        push_u64(&mut out, self.nodes_count);
        let ghost head2 = out@;
        let nodes = &self.nodes;
        for i in 0..nodes.len()
            invariant
                out@ == head2 + encode_nodes(nodes@.take(i as int)),
        {
            proof {
                assert(nodes@.take(i + 1).drop_last() =~= nodes@.take(i as int));
            }
            encode_node_into(&mut out, &nodes[i]);
            assert(out@ =~= head2 + encode_nodes(nodes@.take(i + 1)));
        }
        assert(nodes@.take(nodes@.len() as int) =~= nodes@);
        assert(out@ =~= encode_package(self@));
        out
    }

    /// The package stored at the start of `bytes`, or `None` when the bytes
    /// do not start with one.
    pub fn from_bytes(bytes: &[u8]) -> (r: Option<Package>)
        ensures
            match r {
                Some(pkg) => decode_package(bytes@) == Some(pkg@),
                None => decode_package(bytes@) is None,
            },
    {
        if bytes.len() < 12 {
            return None;
        }
        if bytes[0] != 0x49u8 || bytes[1] != 0x32u8 || bytes[2] != 0x41u8 {
            proof {
                let h = bytes@.subrange(0, 3);
                assert(h[0] == bytes@[0] && h[1] == bytes@[1] && h[2] == bytes@[2]);
                assert(h != magic()) by {
                    if h == magic() {
                        assert(magic()[0] == 0x49u8 && magic()[1] == 0x32u8 && magic()[2] == 0x41u8);
                    }
                }
            }
            return None;
        }
        assert(bytes@.subrange(0, 3) =~= magic());
        let fps = bytes[3];
        let width = read_u16(bytes, 4);
        let height = read_u16(bytes, 6);
        let count = read_u32(bytes, 8);
        match decode_u32s(bytes, 12, count) {
            Some((num_per_frame, q)) => {
                if bytes.len() - q < 8 {
                    return None;
                }
                let n = read_u64(bytes, q);
                match decode_nodes(bytes, q + 8, n) {
                    Some((nodes, _)) => Some(
                        Package {
                            fps,
                            width,
                            height,
                            num_per_frame_count: count,
                            num_per_frame,
                            nodes_count: n,
                            nodes,
                        },
                    ),
                    None => None,
                }
            },
            None => None,
        }
    }

    /// Cuts the cells into frames by the frame cell counts and queues the
    /// frames in order; a frame whose count runs past the last cell gets the
    /// cells that are left.
    pub fn open(pkg: Package) -> (que: NodeQue)
        ensures
            que@ == split_frames(pkg@.num_per_frame, pkg@.nodes),
    {
        let mut que = NodeQue::new();
        let counts = &pkg.num_per_frame;
        let nodes = &pkg.nodes;
        let ghost cs = counts@;
        let ghost ns = nodes@;
        let mut pos: usize = 0;
        for k in 0..counts.len()
            invariant
                cs == counts@,
                ns == nodes@,
                pos == clamp(sum_counts(cs.take(k as int)) as int, ns.len() as int),
                que@ == split_frames(cs.take(k as int), ns),
        {
            let lmt = counts[k];
            let ghost start = pos as int;
            let mut tmp: Vec<Node> = Vec::new();
            let mut j: u32 = 0;
            while j < lmt
                invariant
                    ns == nodes@,
                    j <= lmt,
                    0 <= start <= ns.len(),
                    pos == clamp(start + j, ns.len() as int),
                    tmp@ == ns.subrange(start, pos as int),
                decreases lmt - j,
            {
                if pos < nodes.len() {
                    tmp.push(nodes[pos]);
                    pos = pos + 1;
                    assert(tmp@ =~= ns.subrange(start, pos as int));
                }
                j = j + 1;
            }
            proof {
                let t = cs.take(k + 1);
                assert(t.drop_last() =~= cs.take(k as int));
                assert(t.last() == lmt);
            }
            que.add_back(tmp);
        }
        assert(cs.take(cs.len() as int) =~= cs);
        que
    }
}

proof fn lemma_sum_lens(frames: Seq<Seq<Node>>)
    requires
        forall|i: int| 0 <= i < frames.len() ==> #[trigger] frames[i].len() <= u32::MAX,
    ensures
        sum_counts(frame_lens(frames)) == flatten_frames(frames).len(),
    decreases frames.len(),
{
    if frames.len() > 0 {
        let init = frames.drop_last();
        assert(frame_lens(frames).drop_last() =~= frame_lens(init));
        lemma_sum_lens(init);
    }
}

/// Cells past what the counts reach do not change the frames.
proof fn lemma_split_extend(cs: Seq<u32>, nodes: Seq<Node>, more: Seq<Node>)
    requires
        sum_counts(cs) <= nodes.len(),
    ensures
        split_frames(cs, nodes + more) == split_frames(cs, nodes),
    decreases cs.len(),
{
    if cs.len() > 0 {
        let prev = cs.drop_last();
        lemma_split_extend(prev, nodes, more);
        let start = sum_counts(prev) as int;
        let end = start + cs.last();
        assert((nodes + more).subrange(start, end) =~= nodes.subrange(start, end));
    }
}

/// Opening a package made from frames (their cell counts and all their cells)
/// gives back the frames.
pub proof fn lemma_open_inverts_flatten(frames: Seq<Seq<Node>>)
    requires
        forall|i: int| 0 <= i < frames.len() ==> #[trigger] frames[i].len() <= u32::MAX,
    ensures
        split_frames(frame_lens(frames), flatten_frames(frames)) == frames,
    decreases frames.len(),
{
    if frames.len() > 0 {
        let init = frames.drop_last();
        let last = frames.last();
        lemma_open_inverts_flatten(init);
        lemma_sum_lens(init);
        assert(frame_lens(frames).drop_last() =~= frame_lens(init));
        let flat = flatten_frames(frames);
        assert(flat == flatten_frames(init) + last);
        lemma_split_extend(frame_lens(init), flatten_frames(init), last);
        let start = flatten_frames(init).len() as int;
        assert(flat.subrange(start, start + last.len()) =~= last);
        assert(split_frames(frame_lens(frames), flat) =~= frames);
    }
}

proof fn lemma_sum_bound(cs: Seq<u32>)
    ensures
        sum_counts(cs) <= cs.len() * (u32::MAX as nat),
    decreases cs.len(),
{
    if cs.len() > 0 {
        lemma_sum_bound(cs.drop_last());
        assert((cs.len() - 1) * (u32::MAX as nat) + u32::MAX == cs.len() * (u32::MAX as nat))
            by (nonlinear_arith)
            requires
                cs.len() >= 1,
        ;
    }
}

/// The package of a video's frames (their cell counts and all their cells)
/// decodes from its bytes, whatever follows them, and opens into the same
/// frames again.
pub proof fn lemma_frames_roundtrip(
    fps: u8,
    width: u16,
    height: u16,
    frames: Seq<Seq<Node>>,
    rest: Seq<u8>,
)
    requires
        frames.len() <= u32::MAX,
        forall|i: int| 0 <= i < frames.len() ==> #[trigger] frames[i].len() <= u32::MAX,
    ensures
        ({
            let m = PackageModel {
                fps,
                width,
                height,
                num_per_frame: frame_lens(frames),
                nodes: flatten_frames(frames),
            };
            &&& decode_package(encode_package(m) + rest) == Some(m)
            &&& split_frames(m.num_per_frame, m.nodes) == frames
        }),
{
    let m = PackageModel {
        fps,
        width,
        height,
        num_per_frame: frame_lens(frames),
        nodes: flatten_frames(frames),
    };
    lemma_sum_lens(frames);
    lemma_sum_bound(frame_lens(frames));
    assert(frames.len() * (u32::MAX as nat) <= u64::MAX) by (nonlinear_arith)
        requires
            frames.len() <= u32::MAX,
    ;
    lemma_decode_encode(m, rest);
    lemma_open_inverts_flatten(frames);
}

} // verus!
