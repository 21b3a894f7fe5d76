use vstd::prelude::*;
use vstd::string::StringSliceAdditionalSpecFns;
use vstd::utf8::*;

use crate::ast::{node_tree, nodes_trees, Limits, Node, Tree, CLOSE_BRACE, OPEN_BRACE};
use crate::error::Error;

verus! {

broadcast use vstd::utf8::encode_utf8_valid_utf8;

/// Model of one open nesting level during a scan.
pub struct FrameModel {
    /// Offset of the `{{` that opened this level (unused at the top level).
    pub open: int,
    /// Nodes completed so far at this level.
    pub children: Seq<Tree>,
    /// Start of the pending literal text run, if one is in progress.
    pub text_start: Option<int>,
}

/// A `{{` starts at `pos`.
pub open spec fn opens_at(b: Seq<u8>, pos: int) -> bool {
    0 <= pos && pos + 1 < b.len() && b[pos] == OPEN_BRACE && b[pos + 1] == OPEN_BRACE
}

/// A `}}` starts at `pos`.
pub open spec fn closes_at(b: Seq<u8>, pos: int) -> bool {
    0 <= pos && pos + 1 < b.len() && b[pos] == CLOSE_BRACE && b[pos + 1] == CLOSE_BRACE
}

/// The frame with no completed nodes and no pending text.
pub open spec fn empty_frame(open: int) -> FrameModel {
    FrameModel { open, children: seq![], text_start: None }
}

/// Turns the pending text run of `f`, which ends at `end`, into a text node,
/// counting it against `max_nodes` when `count` nodes already exist.
pub open spec fn flush_model(b: Seq<u8>, max_nodes: usize, f: FrameModel, end: int, count: int) -> Result<(FrameModel, int), Error> {
    match f.text_start {
        None => Ok((f, count)),
        Some(s) => if count >= max_nodes {
            Err(Error::NodeLimitExceeded { limit: max_nodes, offset: s as usize })
        } else {
            Ok((FrameModel { open: f.open, children: f.children.push(Tree::Text(b.subrange(s, end))), text_start: None }, count + 1))
        },
    }
}

/// The outcome of scanning `b` from `pos` on, where `stack` holds the enclosing
/// levels (outermost first), `cur` the innermost one and `count` the nodes made so far.
pub open spec fn run(b: Seq<u8>, lim: Limits, pos: int, stack: Seq<FrameModel>, cur: FrameModel, count: int) -> Result<Seq<Tree>, Error>
    decreases b.len() - pos,
{
    if pos >= b.len() {
        if stack.len() > 0 {
            Err(Error::UnclosedVariable { offset: cur.open as usize })
        } else {
            match flush_model(b, lim.max_nodes, cur, b.len() as int, count) {
                Ok(p) => Ok(p.0.children),
                Err(e) => Err(e),
            }
        }
    } else if opens_at(b, pos) {
        match flush_model(b, lim.max_nodes, cur, pos, count) {
            Err(e) => Err(e),
            Ok(p) => if p.1 >= lim.max_nodes {
                Err(Error::NodeLimitExceeded { limit: lim.max_nodes, offset: pos as usize })
            } else if stack.len() >= lim.max_depth {
                Err(Error::DepthExceeded { limit: lim.max_depth, offset: pos as usize })
            } else {
                run(b, lim, pos + 2, stack.push(p.0), empty_frame(pos), p.1 + 1)
            },
        }
    } else if stack.len() > 0 && closes_at(b, pos) {
        match flush_model(b, lim.max_nodes, cur, pos, count) {
            Err(e) => Err(e),
            Ok(p) => if p.0.children.len() == 0 {
                Err(Error::EmptyVariable { offset: cur.open as usize })
            } else {
                let parent = stack.last();
                run(
                    b,
                    lim,
                    pos + 2,
                    stack.subrange(0, stack.len() - 1),
                    FrameModel { open: parent.open, children: parent.children.push(Tree::Var(p.0.children)), text_start: parent.text_start },
                    p.1,
                )
            },
        }
    } else if cur.text_start is None {
        run(b, lim, pos + 1, stack, FrameModel { open: cur.open, children: cur.children, text_start: Some(pos) }, count)
    } else {
        run(b, lim, pos + 1, stack, cur, count)
    }
}

/// What parsing the bytes `b` under `lim` yields.
pub open spec fn parse_model(b: Seq<u8>, lim: Limits) -> Result<Seq<Tree>, Error> {
    run(b, lim, 0, seq![], empty_frame(0), 0)
}

/// The model of a parse result.
pub open spec fn result_model(r: Result<Vec<Node>, Error>) -> Result<Seq<Tree>, Error> {
    match r {
        Ok(v) => Ok(nodes_trees(v@)),
        Err(e) => Err(e),
    }
}

/// Counters and ceilings shared by every level of one parse.
struct ParserState {
    node_count: usize,
    depth: usize,
    max_nodes: usize,
    max_depth: usize,
}

impl ParserState {
    fn new(limits: &Limits) -> (r: Self)
        ensures
            r.node_count == 0,
            r.depth == 0,
            r.max_nodes == limits.max_nodes,
            r.max_depth == limits.max_depth,
    {
        ParserState { node_count: 0, depth: 0, max_nodes: limits.max_nodes, max_depth: limits.max_depth }
    }

    /// Counts one more node, failing at `offset` when the node limit is reached.
    fn inc_node(&mut self, offset: usize) -> (r: Result<(), Error>)
        ensures
            final(self).depth == old(self).depth,
            final(self).max_nodes == old(self).max_nodes,
            final(self).max_depth == old(self).max_depth,
            old(self).node_count >= old(self).max_nodes ==> r == Err::<(), Error>(
                Error::NodeLimitExceeded { limit: old(self).max_nodes, offset },
            ) && final(self).node_count == old(self).node_count,
            old(self).node_count < old(self).max_nodes ==> r is Ok && final(self).node_count == old(self).node_count + 1,
    {
        if self.node_count >= self.max_nodes {
            return Err(Error::NodeLimitExceeded { limit: self.max_nodes, offset });
        }
        self.node_count = self.node_count + 1;
        Ok(())
    }

    /// Enters one more nesting level, failing at `offset` when the depth limit is reached.
    fn enter_depth(&mut self, offset: usize) -> (r: Result<(), Error>)
        ensures
            final(self).node_count == old(self).node_count,
            final(self).max_nodes == old(self).max_nodes,
            final(self).max_depth == old(self).max_depth,
            old(self).depth >= old(self).max_depth ==> r == Err::<(), Error>(
                Error::DepthExceeded { limit: old(self).max_depth, offset },
            ) && final(self).depth == old(self).depth,
            old(self).depth < old(self).max_depth ==> r is Ok && final(self).depth == old(self).depth + 1,
    {
        if self.depth >= self.max_depth {
            return Err(Error::DepthExceeded { limit: self.max_depth, offset });
        }
        self.depth = self.depth + 1;
        Ok(())
    }

    /// Leaves one nesting level; at depth zero this reports `UnbalancedTag` at `offset`.
    fn exit_depth(&mut self, offset: usize) -> (r: Result<(), Error>)
        ensures
            final(self).node_count == old(self).node_count,
            final(self).max_nodes == old(self).max_nodes,
            final(self).max_depth == old(self).max_depth,
            old(self).depth == 0 ==> r == Err::<(), Error>(Error::UnbalancedTag { offset })
                && final(self).depth == 0,
            old(self).depth > 0 ==> r is Ok && final(self).depth == old(self).depth - 1,
    {
        match self.depth.checked_sub(1) {
            Some(d) => {
                self.depth = d;
                Ok(())
            },
            None => Err(Error::UnbalancedTag { offset }),
        }
    }
}


/// One open nesting level of a scan in progress.
struct Frame {
    open: usize,
    children: Vec<Node>,
    text_start: Option<usize>,
}

impl Frame {
    /// The model of this level.
    spec fn model(&self) -> FrameModel {
        FrameModel {
            open: self.open as int,
            children: nodes_trees(self.children@),
            text_start: match self.text_start {
                Some(s) => Some(s as int),
                None => None,
            },
        }
    }
}

/// The models of the enclosing levels, outermost first.
spec fn stack_model(s: Seq<Frame>) -> Seq<FrameModel> {
    Seq::new(s.len(), |i: int| s[i].model())
}

/// In valid UTF-8, the byte after an ASCII byte begins a character or ends the input.
proof fn lemma_boundary_after_ascii(b: Seq<u8>, j: int)
    requires
        valid_utf8(b),
        0 <= j < b.len(),
        b[j] < 0x80,
    ensures
        is_char_boundary(b, j + 1),
{
    is_char_boundary_start_end_of_seq(b);
    if j + 1 < b.len() {
        is_char_boundary_iff_not_is_continuation_byte(b, j);
        valid_utf8_split(b, j);
        let rest = b.subrange(j, b.len() as int);
        assert(rest[0] == b[j]);
        assert(pop_first_scalar(rest) =~= b.subrange(j + 1, b.len() as int));
        let rest2 = b.subrange(j + 1, b.len() as int);
        assert(valid_utf8(rest2));
        assert(rest2[0] == b[j + 1]);
        is_char_boundary_iff_not_is_continuation_byte(b, j + 1);
    }
}

/// A brace byte always begins a character.
proof fn lemma_boundary_at_ascii(b: Seq<u8>, j: int)
    requires
        valid_utf8(b),
        0 <= j < b.len(),
        b[j] < 0x80,
    ensures
        is_char_boundary(b, j),
{
    is_char_boundary_iff_not_is_continuation_byte(b, j);
}

/// A character boundary at or before `e` stays one in the prefix that ends at the boundary `e`.
proof fn lemma_boundary_in_prefix(b: Seq<u8>, s: int, e: int)
    requires
        valid_utf8(b),
        0 <= s <= e <= b.len(),
        is_char_boundary(b, s),
        is_char_boundary(b, e),
    ensures
        valid_utf8(b.subrange(0, e)),
        is_char_boundary(b.subrange(0, e), s),
{
    valid_utf8_split(b, e);
    let p = b.subrange(0, e);
    is_char_boundary_start_end_of_seq(p);
    if s < e {
        is_char_boundary_iff_not_is_continuation_byte(b, s);
        assert(p[s] == b[s]);
        is_char_boundary_iff_not_is_continuation_byte(p, s);
    }
}

/// The text of `input` between the byte offsets `start` and `end`.
fn text_between(input: &str, start: usize, end: usize) -> (r: String)
    requires
        start <= end <= input.spec_bytes().len(),
        is_char_boundary(input.spec_bytes(), start as int),
        is_char_boundary(input.spec_bytes(), end as int),
    ensures
        encode_utf8(r@) == input.spec_bytes().subrange(start as int, end as int),
{
    proof {
        lemma_boundary_in_prefix(input.spec_bytes(), start as int, end as int);
    }
    let (head, _) = input.split_at(end);
    let (_, piece) = head.split_at(start);
    proof {
        assert(piece.spec_bytes() =~= input.spec_bytes().subrange(start as int, end as int));
    }
    piece.to_owned()
}

/// Moves the pending text run of `frame`, which ends at `end`, into a text node.
fn flush_text(input: &str, frame: &mut Frame, end: usize, state: &mut ParserState) -> (r: Result<(), Error>)
    requires
        end <= input.spec_bytes().len(),
        is_char_boundary(input.spec_bytes(), end as int),
        old(frame).text_start matches Some(s) ==> s < end && is_char_boundary(input.spec_bytes(), s as int),
    ensures
        final(state).depth == old(state).depth,
        final(state).max_nodes == old(state).max_nodes,
        final(state).max_depth == old(state).max_depth,
        final(frame).open == old(frame).open,
        flush_model(input.spec_bytes(), old(state).max_nodes, old(frame).model(), end as int, old(state).node_count as int) matches Ok(p)
            ==> r is Ok && (*final(frame)).model() == p.0 && final(state).node_count == p.1,
        flush_model(input.spec_bytes(), old(state).max_nodes, old(frame).model(), end as int, old(state).node_count as int) matches Err(e)
            ==> r == Err::<(), Error>(e),
{
    match frame.text_start {
        None => Ok(()),
        Some(start) => {
            match state.inc_node(start) {
                Err(e) => {
                    return Err(e);
                },
                Ok(()) => {},
            }
            let text = text_between(input, start, end);
            let ghost tv = text;
            let ghost before = frame.children@;
            frame.children.push(Node::Text(text));
            frame.text_start = None;
            proof {
                assert(frame.children@.subrange(0, frame.children@.len() - 1) =~= before);
                assert(nodes_trees(frame.children@) == nodes_trees(before).push(node_tree(Node::Text(tv))));
                assert(frame.model().children == old(frame).model().children.push(Tree::Text(input.spec_bytes().subrange(start as int, end as int))));
            }
            Ok(())
        },
    }
}

/// Scans `input` once, left to right, keeping the open nesting levels on an explicit stack.
pub(crate) fn parse_inner(input: &str, limits: &Limits) -> (r: Result<Vec<Node>, Error>)
    ensures
        result_model(r) == parse_model(input.spec_bytes(), *limits),
{
    let bytes = input.as_bytes();
    let n = bytes.len();
    let ghost b = input.spec_bytes();
    let mut state = ParserState::new(limits);
    let mut stack: Vec<Frame> = Vec::new();
    let mut cur = Frame { open: 0, children: Vec::new(), text_start: None };
    let mut pos: usize = 0;
    proof {
        is_char_boundary_start_end_of_seq(b);
        assert(stack_model(stack@) =~= seq![]);
        assert(cur.model() == empty_frame(0));
    }
    while pos < n
        invariant
            b == input.spec_bytes(),
            bytes@ == b,
            n == b.len(),
            valid_utf8(b),
            pos <= n,
            state.max_nodes == limits.max_nodes,
            state.max_depth == limits.max_depth,
            state.depth == stack@.len(),
            forall|i: int| 0 <= i < stack@.len() ==> (#[trigger] stack@[i]).text_start is None,
            cur.text_start matches Some(s) ==> s < pos && is_char_boundary(b, s as int),
            cur.text_start is None ==> is_char_boundary(b, pos as int),
            run(b, *limits, pos as int, stack_model(stack@), cur.model(), state.node_count as int)
                == parse_model(b, *limits),
        decreases n - pos,
    {
        let ghost stack0 = stack_model(stack@);
        let ghost cur0 = cur.model();
        let ghost count0 = state.node_count as int;
        if bytes[pos] == OPEN_BRACE && pos + 1 < n && bytes[pos + 1] == OPEN_BRACE {
            proof {
                lemma_boundary_at_ascii(b, pos as int);
            }
            match flush_text(input, &mut cur, pos, &mut state) {
                Err(e) => {
                    return Err(e);
                },
                Ok(()) => {},
            }
            match state.inc_node(pos) {
                Err(e) => {
                    return Err(e);
                },
                Ok(()) => {},
            }
            match state.enter_depth(pos) {
                Err(e) => {
                    return Err(e);
                },
                Ok(()) => {},
            }
            let ghost flushed = cur.model();
            stack.push(cur);
            cur = Frame { open: pos, children: Vec::new(), text_start: None };
            proof {
                lemma_boundary_after_ascii(b, pos + 1);
                assert(stack_model(stack@) =~= stack0.push(flushed));
                assert(cur.model() =~= empty_frame(pos as int));
            }
            pos = pos + 2;
        } else if stack.len() > 0 && bytes[pos] == CLOSE_BRACE && pos + 1 < n && bytes[pos + 1] == CLOSE_BRACE {
            proof {
                lemma_boundary_at_ascii(b, pos as int);
            }
            match flush_text(input, &mut cur, pos, &mut state) {
                Err(e) => {
                    return Err(e);
                },
                Ok(()) => {},
            }
            if cur.children.len() == 0 {
                return Err(Error::EmptyVariable { offset: cur.open });
            }
            let ghost flushed = cur.model();
            let parent = stack.pop().unwrap();
            let done = cur;
            cur = parent;
            match state.exit_depth(done.open) {
                Err(e) => {
                    return Err(e);
                },
                Ok(()) => {},
            }
            let ghost before = cur.children@;
            let var = Node::Variable { parts: done.children };
            proof {
                assert(node_tree(var) == Tree::Var(flushed.children));
            }
            cur.children.push(var);
            proof {
                lemma_boundary_after_ascii(b, pos + 1);
                assert(stack_model(stack@) =~= stack0.subrange(0, stack0.len() - 1));
                assert(cur.children@.subrange(0, cur.children@.len() - 1) =~= before);
                assert(cur.model().children == nodes_trees(before).push(Tree::Var(flushed.children)));
            }
            pos = pos + 2;
        } else {
            if cur.text_start.is_none() {
                cur.text_start = Some(pos);
            }
            pos = pos + 1;
        }
    }
    if stack.len() > 0 {
        return Err(Error::UnclosedVariable { offset: cur.open });
    }
    proof {
        is_char_boundary_start_end_of_seq(b);
    }
    match flush_text(input, &mut cur, n, &mut state) {
        Err(e) => {
            return Err(e);
        },
        Ok(()) => {},
    }
    Ok(cur.children)
}


/// The limits that `Limits::default` gives.
pub open spec fn default_limits() -> Limits {
    Limits { max_depth: 5, max_nodes: 50 }
}

/// A parser bound to one set of limits, reusable for any number of inputs.
#[derive(Debug, Clone, Copy)]
pub struct Parser {
    limits: Limits,
}

impl View for Parser {
    type V = Limits;

    closed spec fn view(&self) -> Limits {
        self.limits
    }
}

impl Default for Parser {
    fn default() -> (r: Self)
        ensures
            r@ == default_limits(),
    {
        Parser { limits: Limits::default() }
    }
}

impl Parser {
    /// Creates a parser that applies `limits` to every parse.
    #[must_use]
    pub fn new(limits: Limits) -> (r: Self)
        ensures
            r@ == limits,
    {
        Parser { limits }
    }

    /// Parses `input` under this parser's limits.
    pub fn parse(&self, input: &str) -> (r: Result<Vec<Node>, Error>)
        ensures
            result_model(r) == parse_model(input.spec_bytes(), self@),
    {
        parse_inner(input, &self.limits)
    }
}

/// Parses `input` under the default limits.
pub fn parse(input: &str) -> (r: Result<Vec<Node>, Error>)
    ensures
        result_model(r) == parse_model(input.spec_bytes(), default_limits()),
{
    Parser::default().parse(input)
}

} // verus!
