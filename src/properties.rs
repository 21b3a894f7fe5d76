use vstd::prelude::*;

use crate::ast::{
    count, depth, lemma_push, render, tree_count, tree_depth, vars_nonempty, Limits, Tree, CLOSE_BRACE,
    OPEN_BRACE,
};
use crate::parser::{closes_at, empty_frame, flush_model, opens_at, parse_model, run, FrameModel};

verus! {

/// The bytes covered by the enclosing levels: each one's nodes followed by the `{{` that opened the next.
spec fn stack_render(stack: Seq<FrameModel>) -> Seq<u8>
    decreases stack.len(),
{
    if stack.len() == 0 {
        seq![]
    } else {
        stack_render(stack.subrange(0, stack.len() - 1)) + render(stack[stack.len() - 1].children)
            + seq![OPEN_BRACE, OPEN_BRACE]
    }
}

/// Nodes made so far on the enclosing levels, each still open variable included.
spec fn stack_count(stack: Seq<FrameModel>) -> nat
    decreases stack.len(),
{
    if stack.len() == 0 {
        0
    } else {
        stack_count(stack.subrange(0, stack.len() - 1)) + count(stack[stack.len() - 1].children) + 1
    }
}

/// Where the bytes accounted for by completed nodes end.
spec fn covered(cur: FrameModel, pos: int) -> int {
    match cur.text_start {
        Some(s) => s,
        None => pos,
    }
}

/// What holds of every state that a scan goes through.
spec fn scan_inv(b: Seq<u8>, lim: Limits, pos: int, stack: Seq<FrameModel>, cur: FrameModel, n: int) -> bool {
    &&& 0 <= pos <= b.len()
    &&& forall|i: int| 0 <= i < stack.len() ==> (#[trigger] stack[i]).text_start is None
    &&& cur.text_start matches Some(s) ==> 0 <= s <= pos
    &&& stack_render(stack) + render(cur.children) == b.subrange(0, covered(cur, pos))
    &&& forall|i: int| 0 <= i < stack.len() ==> vars_nonempty((#[trigger] stack[i]).children)
    &&& vars_nonempty(cur.children)
    &&& n == stack_count(stack) + count(cur.children)
    &&& n <= lim.max_nodes
    &&& stack.len() <= lim.max_depth
    &&& forall|i: int| 0 <= i < stack.len() ==> i + depth((#[trigger] stack[i]).children) <= lim.max_depth
    &&& stack.len() + depth(cur.children) <= lim.max_depth
}

proof fn lemma_stack_push(stack: Seq<FrameModel>, f: FrameModel)
    ensures
        stack_render(stack.push(f)) == stack_render(stack) + render(f.children) + seq![OPEN_BRACE, OPEN_BRACE],
        stack_count(stack.push(f)) == stack_count(stack) + count(f.children) + 1,
{
    assert(stack.push(f).subrange(0, stack.len() as int) =~= stack);
}

proof fn lemma_flush(b: Seq<u8>, lim: Limits, pos: int, stack: Seq<FrameModel>, cur: FrameModel, n: int)
    requires
        scan_inv(b, lim, pos, stack, cur, n),
        flush_model(b, lim.max_nodes, cur, pos, n) is Ok,
    ensures
        ({
            let p = flush_model(b, lim.max_nodes, cur, pos, n)->Ok_0;
            &&& scan_inv(b, lim, pos, stack, p.0, p.1)
            &&& p.0.text_start is None
            &&& p.0.open == cur.open
            &&& depth(p.0.children) == depth(cur.children)
        }),
{
    if let Some(s) = cur.text_start {
        let t = Tree::Text(b.subrange(s, pos));
        lemma_push(cur.children, t);
        assert(b.subrange(0, s) + b.subrange(s, pos) =~= b.subrange(0, pos));
        assert(stack_render(stack) + render(cur.children.push(t)) =~= stack_render(stack) + render(cur.children) + b.subrange(s, pos));
    }
}

proof fn lemma_run(b: Seq<u8>, lim: Limits, pos: int, stack: Seq<FrameModel>, cur: FrameModel, n: int)
    requires
        scan_inv(b, lim, pos, stack, cur, n),
    ensures
        run(b, lim, pos, stack, cur, n) matches Ok(ts) ==> {
            &&& render(ts) == b
            &&& vars_nonempty(ts)
            &&& count(ts) <= lim.max_nodes
            &&& depth(ts) <= lim.max_depth
        },
    decreases b.len() - pos,
{
    if pos >= b.len() {
        if stack.len() == 0 && flush_model(b, lim.max_nodes, cur, b.len() as int, n) is Ok {
            lemma_flush(b, lim, pos, stack, cur, n);
            assert(stack_render(stack) =~= seq![]);
            assert(b.subrange(0, b.len() as int) =~= b);
        }
    } else if opens_at(b, pos) {
        if flush_model(b, lim.max_nodes, cur, pos, n) is Ok {
            lemma_flush(b, lim, pos, stack, cur, n);
            let p = flush_model(b, lim.max_nodes, cur, pos, n)->Ok_0;
            if p.1 < lim.max_nodes && stack.len() < lim.max_depth {
                let stack2 = stack.push(p.0);
                let cur2 = empty_frame(pos);
                lemma_stack_push(stack, p.0);
                assert(render(cur2.children) =~= seq![]);
                assert(b.subrange(0, pos + 2) =~= b.subrange(0, pos) + seq![OPEN_BRACE, OPEN_BRACE]);
                assert(stack_render(stack2) + render(cur2.children) =~= b.subrange(0, pos + 2));
                assert(forall|i: int| 0 <= i < stack.len() ==> stack2[i] == stack[i]);
                assert(scan_inv(b, lim, pos + 2, stack2, cur2, p.1 + 1));
                lemma_run(b, lim, pos + 2, stack2, cur2, p.1 + 1);
            }
        }
    } else if stack.len() > 0 && closes_at(b, pos) {
        if flush_model(b, lim.max_nodes, cur, pos, n) is Ok {
            lemma_flush(b, lim, pos, stack, cur, n);
            let p = flush_model(b, lim.max_nodes, cur, pos, n)->Ok_0;
            if p.0.children.len() > 0 {
                let k = stack.len() - 1;
                let parent = stack.last();
                let rest = stack.subrange(0, k);
                let v = Tree::Var(p.0.children);
                let cur2 = FrameModel { open: parent.open, children: parent.children.push(v), text_start: parent.text_start };
                assert(rest.push(parent) =~= stack);
                lemma_stack_push(rest, parent);
                lemma_push(parent.children, v);
                assert(b.subrange(0, pos + 2) =~= b.subrange(0, pos) + seq![CLOSE_BRACE, CLOSE_BRACE]);
                assert(stack_render(rest) + render(cur2.children) =~= b.subrange(0, pos + 2));
                assert(stack[k].text_start is None);
                assert(vars_nonempty(stack[k].children));
                assert(k + depth(stack[k].children) <= lim.max_depth);
                assert(forall|i: int| 0 <= i < k ==> rest[i] == stack[i]);
                assert(tree_count(v) == 1 + count(p.0.children));
                assert(tree_depth(v) == 1 + depth(p.0.children));
                assert(scan_inv(b, lim, pos + 2, rest, cur2, p.1));
                lemma_run(b, lim, pos + 2, rest, cur2, p.1);
            }
        }
    } else if cur.text_start is None {
        let cur2 = FrameModel { open: cur.open, children: cur.children, text_start: Some(pos) };
        lemma_run(b, lim, pos + 1, stack, cur2, n);
    } else {
        lemma_run(b, lim, pos + 1, stack, cur, n);
    }
}

/// Every variable in a successful parse, nested ones included, has at least one child.
pub proof fn lemma_variables_nonempty(b: Seq<u8>, lim: Limits)
    ensures
        parse_model(b, lim) matches Ok(ts) ==> vars_nonempty(ts),
{
    lemma_parse_start(b, lim);
}

/// Writing back the text of a successful parse, and each variable between `{{` and `}}`,
/// gives back the input.
pub proof fn lemma_round_trip(b: Seq<u8>, lim: Limits)
    ensures
        parse_model(b, lim) matches Ok(ts) ==> render(ts) == b,
{
    lemma_parse_start(b, lim);
}

/// A successful parse holds at most `max_nodes` nodes and nests at most `max_depth` deep.
pub proof fn lemma_within_limits(b: Seq<u8>, lim: Limits)
    ensures
        parse_model(b, lim) matches Ok(ts) ==> count(ts) <= lim.max_nodes && depth(ts) <= lim.max_depth,
{
    lemma_parse_start(b, lim);
}

/// Parsing depends on the input and the limits alone: equal inputs under equal limits give equal outcomes.
pub proof fn lemma_deterministic(b1: Seq<u8>, lim1: Limits, b2: Seq<u8>, lim2: Limits)
    requires
        b1 == b2,
        lim1 == lim2,
    ensures
        parse_model(b1, lim1) == parse_model(b2, lim2),
{
}

proof fn lemma_parse_start(b: Seq<u8>, lim: Limits)
    ensures
        parse_model(b, lim) matches Ok(ts) ==> {
            &&& render(ts) == b
            &&& vars_nonempty(ts)
            &&& count(ts) <= lim.max_nodes
            &&& depth(ts) <= lim.max_depth
        },
{
    let cur = empty_frame(0);
    let stack = Seq::<FrameModel>::empty();
    assert(stack_render(stack) + render(cur.children) =~= b.subrange(0, 0));
    lemma_run(b, lim, 0, stack, cur, 0);
}

} // verus!
