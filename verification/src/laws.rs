//! Laws that relate the scanner and the builder, proved over the same
//! functions that their contracts use.

use crate::builder::{
    block_end, build_outcome, first_offender, forest_of, last_shallower, lemma_block_end,
    lemma_block_end_is, lemma_first_offender, lemma_first_offender_skips, lemma_last_shallower_is,
    node_of, offence, offends, outcome_view, parent_index,
};
use crate::node::{preorder, ErrorView, NodeView, SketchNode, StructuralError};
use crate::text::{
    is_blank, lemma_pieces_hold_no_separator, lemma_trim_is_trimmed, lemma_trim_keeps_absent,
    split_on, trim,
};
use crate::token::{
    entry_name, is_file_entry, lemma_one_token_per_non_blank_line, line_token, lines_of, scan,
    scan_lines, without_colon, LineToken, TokenView,
};
use vstd::prelude::*;

verus! {

/// The scanner emits exactly one token for each line of the text that is
/// not blank.
pub proof fn token_count_is_non_blank_line_count(content: Seq<char>)
    ensures
        scan(content).len() == lines_of(content).filter(|line: Seq<char>| !is_blank(line)).len(),
{
    lemma_one_token_per_non_blank_line(lines_of(content));
}

/// The nodes of a range of tokens when none of them is nested: one leaf
/// for each token, in order.
pub open spec fn leaves_of(tokens: Seq<TokenView>, lo: int, hi: int) -> Seq<NodeView> {
    Seq::new((hi - lo) as nat, |j: int| node_of(tokens[lo + j], Seq::empty()))
}

proof fn lemma_flat_range(tokens: Seq<TokenView>, lo: int, hi: int)
    requires
        0 <= lo <= hi <= tokens.len(),
        forall|i: int| 0 <= i < tokens.len() ==> (#[trigger] tokens[i]).indent == 0,
    ensures
        forest_of(tokens, lo, hi) == leaves_of(tokens, lo, hi),
    decreases hi - lo,
{
    if lo < hi {
        lemma_block_end_is(tokens, 0, lo + 1, hi, lo + 1);
        lemma_flat_range(tokens, lo + 1, hi);
        assert(forest_of(tokens, lo + 1, lo + 1) =~= Seq::<NodeView>::empty());
        assert(forest_of(tokens, lo, hi) =~= leaves_of(tokens, lo, hi));
    } else {
        assert(forest_of(tokens, lo, hi) =~= leaves_of(tokens, lo, hi));
    }
}

/// A flat sketch gives sibling roots: when every token has indentation zero
/// and a name, building succeeds, and the forest has one root for each
/// token, in order, none of them with a child.
pub proof fn flat_tokens_become_sibling_roots(tokens: Seq<TokenView>)
    requires
        forall|i: int| 0 <= i < tokens.len() ==> (#[trigger] tokens[i]).indent == 0,
        forall|i: int| 0 <= i < tokens.len() ==> (#[trigger] tokens[i]).name.len() > 0,
    ensures
        build_outcome(tokens) == Ok::<Seq<NodeView>, ErrorView>(
            leaves_of(tokens, 0, tokens.len() as int),
        ),
        leaves_of(tokens, 0, tokens.len() as int).len() == tokens.len(),
{
    assert forall|i: int| 0 <= i < tokens.len() implies !offends(tokens, i) by {
        lemma_last_shallower_is(tokens, 0, i, -1);
    }
    lemma_first_offender_skips(tokens, 0, tokens.len() as int);
    lemma_flat_range(tokens, 0, tokens.len() as int);
}

/// Building succeeds exactly when no token offends. When one does, the
/// error is that of the first offending token, whatever comes after it.
pub proof fn building_fails_on_the_first_offender(tokens: Seq<TokenView>)
    ensures
        build_outcome(tokens) is Ok <==> forall|i: int|
            0 <= i < tokens.len() ==> !offends(tokens, i),
        build_outcome(tokens) matches Ok(forest) ==> forest == forest_of(
            tokens,
            0,
            tokens.len() as int,
        ),
        build_outcome(tokens) matches Err(error) ==> exists|i: int|
            0 <= i < tokens.len() && #[trigger] offends(tokens, i) && error == offence(tokens, i)
                && forall|j: int| 0 <= j < i ==> !offends(tokens, j),
{
    lemma_first_offender(tokens, 0);
    let first = first_offender(tokens, 0);
    if first < tokens.len() {
        assert(offends(tokens, first));
    }
}

/// Building has no hidden state: whenever two runs are given token
/// sequences of the same value, what they return has the same value, be it
/// a forest or an error.
pub proof fn rebuilding_gives_the_same_outcome(
    first_tokens: Vec<LineToken>,
    second_tokens: Vec<LineToken>,
    first: Result<Vec<SketchNode>, StructuralError>,
    second: Result<Vec<SketchNode>, StructuralError>,
)
    requires
        first_tokens.deep_view() == second_tokens.deep_view(),
        outcome_view(first) == build_outcome(first_tokens.deep_view()),
        outcome_view(second) == build_outcome(second_tokens.deep_view()),
    ensures
        outcome_view(first) == outcome_view(second),
        first is Ok <==> second is Ok,
{
}

/// Tokens come in the order of their lines: line numbers rise strictly
/// along the token sequence, and each lies between 1 and the number of
/// lines.
pub proof fn line_numbers_rise(lines: Seq<Seq<char>>)
    ensures
        forall|i: int|
            0 <= i < scan_lines(lines).len() ==> 1 <= (#[trigger] scan_lines(lines)[i]).line_num
                <= lines.len(),
        forall|i: int, j: int|
            0 <= i < j < scan_lines(lines).len() ==> (#[trigger] scan_lines(lines)[i]).line_num < (
            #[trigger] scan_lines(lines)[j]).line_num,
    decreases lines.len(),
{
    if lines.len() > 0 {
        line_numbers_rise(lines.drop_last());
        let earlier = scan_lines(lines.drop_last());
        let tokens = scan_lines(lines);
        assert forall|i: int| 0 <= i < tokens.len() implies 1 <= (#[trigger] tokens[i]).line_num
            <= lines.len() by {
            if i < earlier.len() {
                assert(tokens[i] == earlier[i]);
            }
        }
        assert forall|i: int, j: int| 0 <= i < j < tokens.len() implies (
        #[trigger] tokens[i]).line_num < (#[trigger] tokens[j]).line_num by {
            assert(tokens[i] == earlier[i]);
            if j < earlier.len() {
                assert(tokens[j] == earlier[j]);
            }
        }
    }
}

/// What the scanner emits is clean: the name and every decorator of a
/// token are trimmed, and none of them holds an `@`.
pub proof fn scanned_entries_are_clean(line: Seq<char>, number: nat)
    ensures
        trim(line_token(line, number).name) == line_token(line, number).name,
        !line_token(line, number).name.contains('@'),
        forall|d: int|
            0 <= d < line_token(line, number).decorators.len() ==> {
                let decorator = #[trigger] line_token(line, number).decorators[d];
                &&& trim(decorator) == decorator
                &&& !decorator.contains('@')
            },
{
    let parts = split_on(trim(line), '@');
    lemma_pieces_hold_no_separator(trim(line), '@');
    let raw = trim(parts[0]);
    lemma_trim_keeps_absent(parts[0], '@');
    let stem = if is_file_entry(raw) {
        raw.skip(2)
    } else {
        without_colon(raw)
    };
    assert forall|i: int| 0 <= i < stem.len() implies #[trigger] stem[i] != '@' by {
        if is_file_entry(raw) {
            assert(stem[i] == raw[i + 2]);
        } else {
            assert(stem[i] == raw[i]);
        }
    }
    lemma_trim_keeps_absent(stem, '@');
    lemma_trim_is_trimmed(stem);
    assert(entry_name(raw) == trim(stem));
    let token = line_token(line, number);
    assert forall|d: int| 0 <= d < token.decorators.len() implies {
        let decorator = #[trigger] token.decorators[d];
        &&& trim(decorator) == decorator
        &&& !decorator.contains('@')
    } by {
        let piece = parts[d + 1];
        assert(token.decorators[d] == trim(piece));
        lemma_trim_keeps_absent(piece, '@');
        lemma_trim_is_trimmed(piece);
    }
}

/// Nothing is lost or made up: listing the nodes of the forest in source
/// order gives, token by token, the entry of each token.
pub proof fn forest_lists_every_token_once(tokens: Seq<TokenView>, lo: int, hi: int)
    requires
        0 <= lo <= hi <= tokens.len(),
    ensures
        preorder(forest_of(tokens, lo, hi)) == leaves_of(tokens, lo, hi),
        preorder(forest_of(tokens, lo, hi)).len() == hi - lo,
    decreases hi - lo,
{
    let forest = forest_of(tokens, lo, hi);
    if lo < hi {
        let end = block_end(tokens, tokens[lo].indent, lo + 1, hi);
        lemma_block_end(tokens, tokens[lo].indent, lo + 1, hi);
        forest_lists_every_token_once(tokens, lo + 1, end);
        forest_lists_every_token_once(tokens, end, hi);
        let children = forest_of(tokens, lo + 1, end);
        let rest = forest_of(tokens, end, hi);
        assert(forest.first() == node_of(tokens[lo], children));
        assert(forest.drop_first() =~= rest);
        assert(preorder(forest) =~= leaves_of(tokens, lo, hi));
    } else {
        assert(preorder(forest) =~= leaves_of(tokens, lo, hi));
    }
}

/// The token under which a token is nested is the nearest one that
/// encloses it: the token lies in its parent's run of deeper tokens, and in
/// the run of no token between the two. A root lies in no earlier token's
/// run.
pub proof fn parent_is_the_nearest_enclosing_token(tokens: Seq<TokenView>, i: int)
    requires
        0 <= i < tokens.len(),
    ensures
        -1 <= parent_index(tokens, i) < i,
        parent_index(tokens, i) >= 0 ==> tokens[parent_index(tokens, i)].indent
            < tokens[i].indent && i < block_end(
            tokens,
            tokens[parent_index(tokens, i)].indent,
            parent_index(tokens, i) + 1,
            tokens.len() as int,
        ),
        forall|q: int|
            parent_index(tokens, i) < q < i ==> block_end(
                tokens,
                (#[trigger] tokens[q]).indent,
                q + 1,
                tokens.len() as int,
            ) <= i,
{
    let depth = tokens[i].indent;
    let n = tokens.len() as int;
    lemma_last_shallower(tokens, depth, i);
    let p = parent_index(tokens, i);
    if p >= 0 {
        lemma_block_end(tokens, tokens[p].indent, p + 1, n);
        let end = block_end(tokens, tokens[p].indent, p + 1, n);
        if end <= i {
            assert(tokens[end].indent <= tokens[p].indent);
        }
    }
    assert forall|q: int| p < q < i implies block_end(
        tokens,
        (#[trigger] tokens[q]).indent,
        q + 1,
        n,
    ) <= i by {
        lemma_block_end(tokens, tokens[q].indent, q + 1, n);
        let end = block_end(tokens, tokens[q].indent, q + 1, n);
        if end > i {
            assert(tokens[i].indent > tokens[q].indent);
        }
    }
}

/// The tree of token `i`: its node, with the forest of the tokens that
/// follow it and are indented more deeply.
pub open spec fn tree_of(tokens: Seq<TokenView>, i: int) -> NodeView {
    node_of(
        tokens[i],
        forest_of(
            tokens,
            i + 1,
            block_end(tokens, tokens[i].indent, i + 1, tokens.len() as int),
        ),
    )
}

/// The trees of the tokens in `[from, hi)` that are nested directly under
/// token `parent`, in order; with -1 for `parent`, the trees of the roots.
pub open spec fn trees_under(tokens: Seq<TokenView>, parent: int, from: int, hi: int) -> Seq<
    NodeView,
>
    decreases hi - from,
{
    if from >= hi {
        Seq::empty()
    } else if parent_index(tokens, from) == parent {
        seq![tree_of(tokens, from)] + trees_under(tokens, parent, from + 1, hi)
    } else {
        trees_under(tokens, parent, from + 1, hi)
    }
}

/// Tokens that are not nested under `parent` add nothing to `trees_under`,
/// neither at the start of the range nor at its end.
proof fn lemma_trees_under_skips(tokens: Seq<TokenView>, parent: int, from: int, mid: int, hi: int)
    requires
        from <= mid <= hi,
    ensures
        (forall|t: int| from <= t < mid ==> parent_index(tokens, t) != parent) ==> trees_under(
            tokens,
            parent,
            from,
            hi,
        ) == trees_under(tokens, parent, mid, hi),
        (forall|t: int| mid <= t < hi ==> parent_index(tokens, t) != parent) ==> trees_under(
            tokens,
            parent,
            from,
            hi,
        ) == trees_under(tokens, parent, from, mid),
    decreases hi - from,
{
    if from < mid {
        lemma_trees_under_skips(tokens, parent, from + 1, mid, hi);
    } else if from < hi {
        lemma_trees_under_skips(tokens, parent, from + 1, from + 1, hi);
        if forall|t: int| mid <= t < hi ==> parent_index(tokens, t) != parent {
            assert(parent_index(tokens, from) != parent);
            assert(trees_under(tokens, parent, from + 1, from + 1) =~= Seq::<NodeView>::empty());
        }
    }
}

/// Within the run of tokens that `parent` owns, which ends at `hi`, the
/// forest from a token nested directly under `parent` consists of the trees
/// of the tokens nested directly under `parent`.
proof fn lemma_forest_is_trees_under(tokens: Seq<TokenView>, parent: int, from: int, hi: int)
    requires
        -1 <= parent < from <= hi <= tokens.len(),
        parent >= 0 ==> forall|t: int|
            parent < t < hi ==> (#[trigger] tokens[t]).indent > tokens[parent].indent,
        hi == tokens.len() || (parent >= 0 && tokens[hi].indent <= tokens[parent].indent),
        from < hi ==> parent_index(tokens, from) == parent,
    ensures
        forest_of(tokens, from, hi) == trees_under(tokens, parent, from, hi),
    decreases hi - from,
{
    if from < hi {
        let n = tokens.len() as int;
        let depth = tokens[from].indent;
        let end = block_end(tokens, depth, from + 1, hi);
        lemma_block_end(tokens, depth, from + 1, hi);
        lemma_block_end_is(tokens, depth, from + 1, n, end);
        lemma_last_shallower(tokens, depth, from);
        assert forall|t: int| from < t < end implies parent_index(tokens, t) != parent by {
            lemma_last_shallower(tokens, tokens[t].indent, t);
            if parent_index(tokens, t) < from {
                assert(tokens[from].indent >= tokens[t].indent);
            }
        }
        lemma_trees_under_skips(tokens, parent, from + 1, end, hi);
        if end < hi {
            lemma_last_shallower_is(tokens, tokens[end].indent, end, parent);
        }
        lemma_forest_is_trees_under(tokens, parent, end, hi);
    }
}

/// The forest is what the nesting rule says: its roots are the trees of the
/// tokens that no earlier token is shallower than, and the children of a
/// token's node are the trees of the tokens whose last shallower
/// predecessor it is.
pub proof fn forest_follows_the_nesting_rule(tokens: Seq<TokenView>)
    ensures
        forest_of(tokens, 0, tokens.len() as int) == trees_under(
            tokens,
            -1,
            0,
            tokens.len() as int,
        ),
        forall|p: int|
            0 <= p < tokens.len() ==> (#[trigger] tree_of(tokens, p)).children == trees_under(
                tokens,
                p,
                p + 1,
                tokens.len() as int,
            ),
{
    let n = tokens.len() as int;
    if n > 0 {
        lemma_last_shallower_is(tokens, tokens[0].indent, 0, -1);
    }
    lemma_forest_is_trees_under(tokens, -1, 0, n);
    assert forall|p: int| 0 <= p < n implies (#[trigger] tree_of(tokens, p)).children
        == trees_under(tokens, p, p + 1, n) by {
        let depth = tokens[p].indent;
        let end = block_end(tokens, depth, p + 1, n);
        lemma_block_end(tokens, depth, p + 1, n);
        if p + 1 < end {
            lemma_last_shallower_is(tokens, tokens[p + 1].indent, p + 1, p);
        }
        lemma_forest_is_trees_under(tokens, p, p + 1, end);
        assert forall|t: int| end <= t < n implies parent_index(tokens, t) != p by {
            lemma_last_shallower(tokens, tokens[t].indent, t);
            if parent_index(tokens, t) == p && end < t {
                assert(tokens[end].indent >= tokens[t].indent);
            }
        }
        lemma_trees_under_skips(tokens, p, p + 1, end, n);
    }
}

/// `last_shallower` is -1 or an earlier token indented by less than
/// `depth`, and no token after it is indented by less.
proof fn lemma_last_shallower(tokens: Seq<TokenView>, depth: nat, before: int)
    requires
        0 <= before <= tokens.len(),
    ensures
        -1 <= last_shallower(tokens, depth, before) < before || before == 0,
        last_shallower(tokens, depth, before) >= 0 ==> tokens[last_shallower(
            tokens,
            depth,
            before,
        )].indent < depth,
        forall|t: int|
            last_shallower(tokens, depth, before) < t < before ==> (#[trigger] tokens[t]).indent
                >= depth,
    decreases before,
{
    if before > 0 && tokens[before - 1].indent >= depth {
        lemma_last_shallower(tokens, depth, before - 1);
    }
}

} // verus!
