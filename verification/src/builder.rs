//! The hierarchy builder: from the token sequence to a forest.
//!
//! What the forest is, is said without a stack: a token's node owns the run
//! of tokens that follow it and are indented more deeply than it is. The
//! executable builder reaches the same forest in one pass with a stack of
//! open nodes: before a token is placed, every open node that is indented
//! as deeply as the token, or more deeply, is closed.
//!
//! Indentation is only ever compared, never measured against a unit, so
//! irregular widths nest by comparison. Two things are refused, each with
//! the line that shows it: an entry without a name, and an entry nested
//! under a file.

use crate::node::{
    well_formed, well_formed_forest, ErrorView, NodeView, SketchNode, StructuralError,
};
use crate::text::copy_strings;
use crate::token::{scan, tokenize_sketch, LineToken, TokenView};
use vstd::prelude::*;

verus! {

/// The node that a token describes, with the given children.
pub open spec fn node_of(token: TokenView, children: Seq<NodeView>) -> NodeView {
    NodeView {
        name: token.name,
        is_dir: token.is_dir,
        decorators: token.decorators,
        children,
    }
}

/// The first index in `[from, hi)` whose token is indented by `depth` or
/// less, or `hi` when every token there is indented more deeply.
pub open spec fn block_end(tokens: Seq<TokenView>, depth: nat, from: int, hi: int) -> int
    decreases hi - from,
{
    if from >= hi {
        hi
    } else if tokens[from].indent <= depth {
        from
    } else {
        block_end(tokens, depth, from + 1, hi)
    }
}

/// The forest that the tokens in `[lo, hi)` describe. The first token opens
/// a node; the tokens after it that are indented more deeply, up to the
/// first that is not, describe the node's children; the rest describe the
/// node's later siblings.
pub open spec fn forest_of(tokens: Seq<TokenView>, lo: int, hi: int) -> Seq<NodeView>
    decreases hi - lo,
{
    if lo >= hi {
        Seq::empty()
    } else {
        let end = block_end(tokens, tokens[lo].indent, lo + 1, hi);
        proof {
            lemma_block_end(tokens, tokens[lo].indent, lo + 1, hi);
        }
        seq![node_of(tokens[lo], forest_of(tokens, lo + 1, end))] + forest_of(tokens, end, hi)
    }
}

/// The index of the last token before `before` that is indented by less
/// than `depth`, or -1 when there is none.
pub open spec fn last_shallower(tokens: Seq<TokenView>, depth: nat, before: int) -> int
    decreases before,
{
    if before <= 0 {
        -1
    } else if tokens[before - 1].indent < depth {
        before - 1
    } else {
        last_shallower(tokens, depth, before - 1)
    }
}

/// The index of the token under which token `i` is nested: the last token
/// before it that is indented by less. -1 when token `i` is a root.
pub open spec fn parent_index(tokens: Seq<TokenView>, i: int) -> int {
    last_shallower(tokens, tokens[i].indent, i)
}

/// Whether token `i` breaks the structure: it has no name, or it is nested
/// under a file.
pub open spec fn offends(tokens: Seq<TokenView>, i: int) -> bool {
    ||| tokens[i].name.len() == 0
    ||| parent_index(tokens, i) >= 0 && !tokens[parent_index(tokens, i)].is_dir
}

/// The error that an offending token gives. A missing name is reported
/// before a file as parent.
pub open spec fn offence(tokens: Seq<TokenView>, i: int) -> ErrorView {
    if tokens[i].name.len() == 0 {
        ErrorView::EmptyName { line: tokens[i].line_num }
    } else {
        ErrorView::FileHasChildren {
            parent_line: tokens[parent_index(tokens, i)].line_num,
            child_line: tokens[i].line_num,
        }
    }
}

/// The index of the first offending token at or after `from`, or the number
/// of tokens when there is none.
pub open spec fn first_offender(tokens: Seq<TokenView>, from: int) -> int
    decreases tokens.len() - from,
{
    if from >= tokens.len() {
        tokens.len() as int
    } else if offends(tokens, from) {
        from
    } else {
        first_offender(tokens, from + 1)
    }
}

/// What building gives: the error of the first offending token, or, when no
/// token offends, the forest of all tokens.
pub open spec fn build_outcome(tokens: Seq<TokenView>) -> Result<Seq<NodeView>, ErrorView> {
    let i = first_offender(tokens, 0);
    if i < tokens.len() {
        Err(offence(tokens, i))
    } else {
        Ok(forest_of(tokens, 0, tokens.len() as int))
    }
}

/// The mathematical value of what the builder returns.
pub open spec fn outcome_view(r: Result<Vec<SketchNode>, StructuralError>) -> Result<
    Seq<NodeView>,
    ErrorView,
> {
    match r {
        Ok(forest) => Ok(forest.deep_view()),
        Err(e) => Err(e@),
    }
}

/// `block_end` stays in `[from, hi]`, stops only at a token that is not
/// deeper than `depth`, and passes over deeper tokens only.
pub proof fn lemma_block_end(tokens: Seq<TokenView>, depth: nat, from: int, hi: int)
    requires
        from <= hi,
    ensures
        from <= block_end(tokens, depth, from, hi) <= hi,
        block_end(tokens, depth, from, hi) < hi ==> tokens[block_end(
            tokens,
            depth,
            from,
            hi,
        )].indent <= depth,
        forall|t: int|
            from <= t < block_end(tokens, depth, from, hi) ==> (#[trigger] tokens[t]).indent
                > depth,
    decreases hi - from,
{
    if from < hi && tokens[from].indent > depth {
        lemma_block_end(tokens, depth, from + 1, hi);
    }
}

/// An index is the `block_end` as soon as every token before it is deeper
/// than `depth` and it is either `hi` or a token that is not.
pub(crate) proof fn lemma_block_end_is(
    tokens: Seq<TokenView>,
    depth: nat,
    from: int,
    hi: int,
    end: int,
)
    requires
        from <= end <= hi,
        forall|t: int| from <= t < end ==> (#[trigger] tokens[t]).indent > depth,
        end < hi ==> tokens[end].indent <= depth,
    ensures
        block_end(tokens, depth, from, hi) == end,
    decreases end - from,
{
    if from < end {
        assert(tokens[from].indent > depth);
        lemma_block_end_is(tokens, depth, from + 1, hi, end);
    }
}

/// An index is `last_shallower` as soon as it is -1 or a token indented by
/// less than `depth`, and no token after it is.
pub(crate) proof fn lemma_last_shallower_is(tokens: Seq<TokenView>, depth: nat, before: int, p: int)
    requires
        -1 <= p < before,
        p >= 0 ==> tokens[p].indent < depth,
        forall|t: int| p < t < before ==> (#[trigger] tokens[t]).indent >= depth,
    ensures
        last_shallower(tokens, depth, before) == p,
    decreases before - p,
{
    if before > 0 && p < before - 1 {
        assert(tokens[before - 1].indent >= depth);
        lemma_last_shallower_is(tokens, depth, before - 1, p);
    }
}

/// `first_offender` is an offending token, or the number of tokens, and no
/// token from `from` up to it offends.
pub(crate) proof fn lemma_first_offender(tokens: Seq<TokenView>, from: int)
    requires
        0 <= from <= tokens.len(),
    ensures
        from <= first_offender(tokens, from) <= tokens.len(),
        first_offender(tokens, from) < tokens.len() ==> offends(
            tokens,
            first_offender(tokens, from),
        ),
        forall|j: int| from <= j < first_offender(tokens, from) ==> !offends(tokens, j),
    decreases tokens.len() - from,
{
    if from < tokens.len() && !offends(tokens, from) {
        lemma_first_offender(tokens, from + 1);
    }
}

/// When no token in `[from, upto)` offends, the first offender at or after
/// `from` is the first at or after `upto`.
pub(crate) proof fn lemma_first_offender_skips(tokens: Seq<TokenView>, from: int, upto: int)
    requires
        0 <= from <= upto <= tokens.len(),
        forall|j: int| from <= j < upto ==> !offends(tokens, j),
    ensures
        first_offender(tokens, from) == first_offender(tokens, upto),
    decreases upto - from,
{
    if from < upto {
        lemma_first_offender_skips(tokens, from + 1, upto);
    }
}

/// A forest can be cut at a token `mid` that no earlier token of the range
/// is shallower than; and when every later token of the range is deeper
/// than `mid`, what follows the cut is the one tree of `mid`.
pub(crate) proof fn lemma_forest_closes(tokens: Seq<TokenView>, lo: int, mid: int, hi: int)
    requires
        0 <= lo <= mid < hi <= tokens.len(),
        forall|t: int| lo <= t < mid ==> (#[trigger] tokens[t]).indent >= tokens[mid].indent,
        forall|t: int| mid < t < hi ==> (#[trigger] tokens[t]).indent > tokens[mid].indent,
    ensures
        forest_of(tokens, lo, hi) == forest_of(tokens, lo, mid).push(
            node_of(tokens[mid], forest_of(tokens, mid + 1, hi)),
        ),
    decreases mid - lo,
{
    if lo == mid {
        lemma_block_end_is(tokens, tokens[mid].indent, mid + 1, hi, hi);
        assert(forest_of(tokens, hi, hi) =~= Seq::<NodeView>::empty());
        assert(forest_of(tokens, mid, hi) =~= Seq::<NodeView>::empty().push(
            node_of(tokens[mid], forest_of(tokens, mid + 1, hi)),
        ));
    } else {
        let depth = tokens[lo].indent;
        let end = block_end(tokens, depth, lo + 1, mid);
        lemma_block_end(tokens, depth, lo + 1, mid);
        assert(tokens[mid].indent <= depth);
        lemma_block_end_is(tokens, depth, lo + 1, hi, end);
        let head = node_of(tokens[lo], forest_of(tokens, lo + 1, end));
        if end < mid {
            lemma_forest_closes(tokens, end, mid, hi);
        } else {
            lemma_forest_closes(tokens, mid, mid, hi);
        }
        assert(forest_of(tokens, lo, hi) =~= (seq![head] + forest_of(tokens, end, mid)).push(
            node_of(tokens[mid], forest_of(tokens, mid + 1, hi)),
        ));
    }
}

/// When no token of `[lo, hi)` offends, every tree of its forest is well
/// formed: every node has a name and no file has children.
pub proof fn lemma_forest_well_formed(tokens: Seq<TokenView>, lo: int, hi: int)
    requires
        0 <= lo <= hi <= tokens.len(),
        forall|j: int| lo <= j < hi ==> !offends(tokens, j),
    ensures
        well_formed_forest(forest_of(tokens, lo, hi)),
    decreases hi - lo,
{
    if lo < hi {
        let depth = tokens[lo].indent;
        let end = block_end(tokens, depth, lo + 1, hi);
        lemma_block_end(tokens, depth, lo + 1, hi);
        lemma_forest_well_formed(tokens, lo + 1, end);
        lemma_forest_well_formed(tokens, end, hi);
        let children = forest_of(tokens, lo + 1, end);
        let head = node_of(tokens[lo], children);
        assert(!offends(tokens, lo));
        if lo + 1 < end {
            assert(tokens[lo + 1].indent > depth);
            lemma_last_shallower_is(tokens, tokens[lo + 1].indent, lo + 1, lo);
            assert(!offends(tokens, lo + 1));
        } else {
            assert(children =~= Seq::<NodeView>::empty());
        }
        assert(well_formed(head));
        let forest = forest_of(tokens, lo, hi);
        let rest = forest_of(tokens, end, hi);
        assert forall|i: int| 0 <= i < forest.len() implies well_formed(#[trigger] forest[i]) by {
            if i > 0 {
                assert(forest[i] == rest[i - 1]);
            }
        }
    }
}

/// A node whose subtree is still open: later tokens may yet be nested
/// under it.
struct OpenNode {
    indent: usize,
    line: usize,
    node: SketchNode,
}

/// Where the closed part of open node `m` ends: at the open node above it,
/// or at `pos` for the innermost one. For `m == -1` this is where the
/// finished roots end.
spec fn limit(at: Seq<int>, m: int, pos: int) -> int {
    if m + 1 < at.len() {
        at[m + 1]
    } else {
        pos
    }
}

/// The token of the innermost open node, or -1 when no node is open.
spec fn innermost(at: Seq<int>) -> int {
    if at.len() > 0 {
        at.last()
    } else {
        -1
    }
}

/// What holds of open node `m`, which stands for token `at[m]`: it carries
/// the token's fields and the forest of the tokens between itself and the
/// next open node, all of which are at least as deep as that next node.
spec fn frame_ok(
    tokens: Seq<TokenView>,
    open: Seq<OpenNode>,
    at: Seq<int>,
    pos: int,
    m: int,
) -> bool {
    let a = at[m];
    let end = limit(at, m, pos);
    &&& 0 <= a < end <= pos
    &&& open[m].indent == tokens[a].indent
    &&& open[m].line == tokens[a].line_num
    &&& open[m].node@ == node_of(tokens[a], forest_of(tokens, a + 1, end))
    &&& m + 1 < at.len() ==> tokens[a].indent < tokens[end].indent
    &&& forall|t: int|
        a < t < end ==> (#[trigger] tokens[t]).indent >= (if m + 1 < at.len() {
            tokens[end].indent
        } else {
            tokens[a].indent + 1
        })
}

/// The builder's state after the tokens before `pos`: the stack `open`
/// holds the chain of nodes from an unfinished root down to the token
/// before `pos`, and `roots` holds the trees that are finished.
spec fn chain(
    tokens: Seq<TokenView>,
    open: Seq<OpenNode>,
    at: Seq<int>,
    roots: Seq<NodeView>,
    pos: int,
) -> bool {
    &&& 0 <= pos <= tokens.len()
    &&& at.len() == open.len()
    &&& forall|m: int| 0 <= m < at.len() ==> #[trigger] frame_ok(tokens, open, at, pos, m)
    &&& roots == forest_of(tokens, 0, limit(at, -1, pos))
    &&& at.len() > 0 ==> forall|t: int|
        0 <= t < at[0] ==> (#[trigger] tokens[t]).indent >= tokens[at[0]].indent
}

/// Closes the innermost open node: it becomes the last child of the open
/// node below it, or the last root when there is none.
fn close_innermost(
    open: &mut Vec<OpenNode>,
    roots: &mut Vec<SketchNode>,
    Ghost(tokens): Ghost<Seq<TokenView>>,
    Ghost(at): Ghost<Seq<int>>,
    Ghost(pos): Ghost<int>,
)
    requires
        old(open)@.len() > 0,
        chain(tokens, old(open)@, at, old(roots).deep_view(), pos),
    ensures
        final(open)@.len() == old(open)@.len() - 1,
        chain(tokens, final(open)@, at.drop_last(), final(roots).deep_view(), pos),
{
    let ghost before = open@;
    let ghost top = at.len() - 1;
    let ghost child_at = at[top];
    assert(frame_ok(tokens, before, at, pos, top));
    let closed = open.pop().unwrap();
    match open.pop() {
        None => {
            let ghost finished = roots.deep_view();
            roots.push(closed.node);
            proof {
                lemma_forest_closes(tokens, 0, child_at, pos);
                assert(roots.deep_view() =~= finished.push(closed.node@));
            }
        },
        Some(mut parent) => {
            let ghost below = top - 1;
            let ghost parent_at = at[below];
            assert(frame_ok(tokens, before, at, pos, below));
            let ghost earlier = parent.node@.children;
            parent.node.children.push(closed.node);
            proof {
                lemma_forest_closes(tokens, parent_at + 1, child_at, pos);
                assert(parent.node@.children =~= earlier.push(closed.node@));
            }
            open.push(parent);
            proof {
                let rest = at.drop_last();
                assert forall|m: int| 0 <= m < rest.len() implies #[trigger] frame_ok(
                    tokens,
                    open@,
                    rest,
                    pos,
                    m,
                ) by {
                    assert(frame_ok(tokens, before, at, pos, m));
                }
            }
        },
    }
}

/// Builds the forest that a token sequence describes.
///
/// Fails on the first token, in order, that has an empty name or is nested
/// under a file, and then returns no part of a forest. Otherwise every
/// token becomes one node: a root when no earlier token is indented by
/// less, else a child of the last earlier token that is.
pub fn build(tokens: &[LineToken]) -> (r: Result<Vec<SketchNode>, StructuralError>)
    ensures
        outcome_view(r) == build_outcome(tokens.deep_view()),
        r is Ok <==> forall|i: int| 0 <= i < tokens@.len() ==> !offends(tokens.deep_view(), i),
        r matches Ok(forest) ==> well_formed_forest(forest.deep_view()),
{
    let ghost all = tokens.deep_view();
    let ghost mut at: Seq<int> = Seq::empty();
    let mut roots: Vec<SketchNode> = Vec::new();
    let mut open: Vec<OpenNode> = Vec::new();
    let mut i: usize = 0;
    assert(roots.deep_view() =~= forest_of(all, 0, 0));
    while i < tokens.len()
        invariant
            i <= tokens@.len(),
            all == tokens.deep_view(),
            all.len() == tokens@.len(),
            chain(all, open@, at, roots.deep_view(), i as int),
            innermost(at) == i - 1,
            forall|j: int| 0 <= j < i ==> !offends(all, j),
        decreases tokens@.len() - i,
    {
        let token = &tokens[i];
        assert(token@ == all[i as int]);
        proof {
            lemma_first_offender_skips(all, 0, i as int);
        }
        if token.name.as_str().is_empty() {
            return Err(StructuralError::EmptyName { line: token.line_num });
        }
        while open.len() > 0 && open[open.len() - 1].indent >= token.indent
            invariant
                i < tokens@.len(),
                all.len() == tokens@.len(),
                token@ == all[i as int],
                chain(all, open@, at, roots.deep_view(), i as int),
                forall|t: int|
                    0 <= t < i && innermost(at) < t ==> (#[trigger] all[t]).indent
                        >= token.indent,
            decreases open@.len(),
        {
            proof {
                let top = at.len() - 1;
                assert(frame_ok(all, open@, at, i as int, top));
                if top > 0 {
                    assert(frame_ok(all, open@, at, i as int, top - 1));
                }
            }
            close_innermost(&mut open, &mut roots, Ghost(all), Ghost(at), Ghost(i as int));
            proof {
                at = at.drop_last();
            }
        }
        let ghost parent_at = innermost(at);
        proof {
            if at.len() > 0 {
                assert(frame_ok(all, open@, at, i as int, at.len() - 1));
            }
            lemma_last_shallower_is(all, all[i as int].indent, i as int, parent_at);
        }
        if open.len() > 0 && !open[open.len() - 1].node.is_dir {
            return Err(
                StructuralError::FileHasChildren {
                    parent_line: open[open.len() - 1].line,
                    child_line: token.line_num,
                },
            );
        }
        let ghost before = open@;
        let ghost earlier = at;
        let node = SketchNode {
            name: token.name.clone(),
            is_dir: token.is_dir,
            decorators: copy_strings(&token.decorators),
            children: Vec::new(),
        };
        open.push(OpenNode { indent: token.indent, line: token.line_num, node });
        proof {
            at = at.push(i as int);
            assert(node@.children =~= forest_of(all, i + 1, i + 1));
            assert forall|m: int| 0 <= m < at.len() implies #[trigger] frame_ok(
                all,
                open@,
                at,
                i + 1,
                m,
            ) by {
                if m < earlier.len() {
                    assert(frame_ok(all, before, earlier, i as int, m));
                }
            }
        }
        i += 1;
    }
    while open.len() > 0
        invariant
            all == tokens.deep_view(),
            all.len() == tokens@.len(),
            chain(all, open@, at, roots.deep_view(), tokens@.len() as int),
            forall|j: int| 0 <= j < tokens@.len() ==> !offends(all, j),
        decreases open@.len(),
    {
        close_innermost(&mut open, &mut roots, Ghost(all), Ghost(at), Ghost(tokens@.len() as int));
        proof {
            at = at.drop_last();
        }
    }
    proof {
        lemma_first_offender_skips(all, 0, all.len() as int);
        lemma_forest_well_formed(all, 0, all.len() as int);
    }
    Ok(roots)
}

/// Compiles a sketch: scans the text and builds the forest of its tokens.
pub fn parse_sketch(content: &str) -> (r: Result<Vec<SketchNode>, StructuralError>)
    ensures
        outcome_view(r) == build_outcome(scan(content@)),
        r is Ok <==> forall|i: int| 0 <= i < scan(content@).len() ==> !offends(scan(content@), i),
        r matches Ok(forest) ==> well_formed_forest(forest.deep_view()),
{
    let tokens = tokenize_sketch(content);
    build(tokens.as_slice())
}

} // verus!
