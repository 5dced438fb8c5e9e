//! The line scanner: from raw text to one token per non-blank line.
//!
//! The scanner refuses nothing. A line whose name comes out empty still
//! gives a token; it is the builder that rejects it. Indentation is the
//! plain count of leading whitespace characters: a tab counts as one
//! character, like a space, and mixing the two is not an error.

use crate::text::{
    chars_of, copy_strings, is_blank, leading_spaces, lemma_blank_trims_to_nothing, skip_spaces,
    skip_spaces_back, split_on, split_ranges, string_of, trim,
};
use vstd::prelude::*;

verus! {

/// What the scanner reports of one non-blank line.
#[derive(Debug, PartialEq, Eq)]
pub struct LineToken {
    /// The line's number in the source, counted from 1.
    pub line_num: usize,
    /// How many whitespace characters the line starts with; every
    /// character counts as one, a tab as much as a space.
    pub indent: usize,
    /// The entry's name, without its file or folder marker.
    pub name: String,
    /// Whether the entry is a folder.
    pub is_dir: bool,
    /// The decorators in the order in which the line gives them.
    pub decorators: Vec<String>,
}

/// The mathematical value of a [`LineToken`].
pub struct TokenView {
    pub line_num: nat,
    pub indent: nat,
    pub name: Seq<char>,
    pub is_dir: bool,
    pub decorators: Seq<Seq<char>>,
}

impl View for LineToken {
    type V = TokenView;

    open spec fn view(&self) -> TokenView {
        TokenView {
            line_num: self.line_num as nat,
            indent: self.indent as nat,
            name: self.name@,
            is_dir: self.is_dir,
            decorators: self.decorators.deep_view(),
        }
    }
}

impl Clone for LineToken {
    fn clone(&self) -> (copy: Self)
        ensures
            copy@ == self@,
    {
        LineToken {
            line_num: self.line_num,
            indent: self.indent,
            name: self.name.clone(),
            is_dir: self.is_dir,
            decorators: copy_strings(&self.decorators),
        }
    }
}

impl DeepView for LineToken {
    type V = TokenView;

    open spec fn deep_view(&self) -> TokenView {
        self.view()
    }
}

/// A name candidate stands for a file when it starts with the marker `->`.
pub open spec fn is_file_entry(raw: Seq<char>) -> bool {
    raw.len() >= 2 && raw[0] == '-' && raw[1] == '>'
}

/// A folder's name candidate without the one `:` that may end it.
pub open spec fn without_colon(raw: Seq<char>) -> Seq<char> {
    if raw.len() > 0 && raw.last() == ':' {
        raw.drop_last()
    } else {
        raw
    }
}

/// The name that a trimmed name candidate stands for: a file's candidate
/// loses its leading `->`, a folder's its one trailing `:`, and what is left
/// is trimmed.
pub open spec fn entry_name(raw: Seq<char>) -> Seq<char> {
    if is_file_entry(raw) {
        trim(raw.skip(2))
    } else {
        trim(without_colon(raw))
    }
}

/// The token of one line. The trimmed line is cut at every `@`; the first
/// piece, trimmed, is the name candidate and every later piece, trimmed, is
/// a decorator, an empty one included.
pub open spec fn line_token(line: Seq<char>, number: nat) -> TokenView {
    let parts = split_on(trim(line), '@');
    let raw = trim(parts[0]);
    TokenView {
        line_num: number,
        indent: leading_spaces(line),
        name: entry_name(raw),
        is_dir: !is_file_entry(raw),
        decorators: parts.skip(1).map_values(|piece: Seq<char>| trim(piece)),
    }
}

/// The tokens of a sequence of lines: one for each line that is not blank,
/// in order, numbered by the line's place in the sequence, from 1.
pub open spec fn scan_lines(lines: Seq<Seq<char>>) -> Seq<TokenView>
    decreases lines.len(),
{
    if lines.len() == 0 {
        Seq::empty()
    } else {
        let earlier = scan_lines(lines.drop_last());
        if is_blank(lines.last()) {
            earlier
        } else {
            earlier.push(line_token(lines.last(), lines.len()))
        }
    }
}

/// The lines of a text: its pieces between line feeds. A carriage return
/// before a line feed stays in its line, where it is trailing whitespace
/// and so changes no token.
pub open spec fn lines_of(content: Seq<char>) -> Seq<Seq<char>> {
    split_on(content, '\n')
}

/// The tokens of a text.
pub open spec fn scan(content: Seq<char>) -> Seq<TokenView> {
    scan_lines(lines_of(content))
}

/// There are as many tokens as there are lines that are not blank.
pub(crate) proof fn lemma_one_token_per_non_blank_line(lines: Seq<Seq<char>>)
    ensures
        scan_lines(lines).len() == lines.filter(|line: Seq<char>| !is_blank(line)).len(),
    decreases lines.len(),
{
    reveal(Seq::filter);
    if lines.len() > 0 {
        lemma_one_token_per_non_blank_line(lines.drop_last());
    }
}

/// The token of the line that `[lo, hi)` of `chars` holds.
fn scan_line(chars: &[char], lo: usize, hi: usize, number: usize) -> (token: LineToken)
    requires
        lo <= hi <= chars@.len(),
    ensures
        token@ == line_token(chars@.subrange(lo as int, hi as int), number as nat),
{
    let ghost line = chars@.subrange(lo as int, hi as int);
    let from = skip_spaces(chars, lo, hi);
    let to = skip_spaces_back(chars, from, hi);
    let pieces = split_ranges(chars, from, to, '@');
    let ghost parts = split_on(trim(line), '@');
    assert(parts.len() == pieces@.len());

    let first = pieces[0];
    let raw_from = skip_spaces(chars, first.0, first.1);
    let raw_to = skip_spaces_back(chars, raw_from, first.1);
    let ghost raw = chars@.subrange(raw_from as int, raw_to as int);
    assert(raw == trim(parts[0]));

    let is_file = raw_to - raw_from >= 2 && chars[raw_from] == '-' && chars[raw_from + 1] == '>';
    assert(is_file == is_file_entry(raw));
    let name_from: usize;
    let name_to: usize;
    if is_file {
        assert(raw.skip(2) =~= chars@.subrange(raw_from as int + 2, raw_to as int));
        name_from = skip_spaces(chars, raw_from + 2, raw_to);
        name_to = skip_spaces_back(chars, name_from, raw_to);
    } else if raw_to > raw_from && chars[raw_to - 1] == ':' {
        assert(raw.drop_last() =~= chars@.subrange(raw_from as int, raw_to as int - 1));
        name_from = skip_spaces(chars, raw_from, raw_to - 1);
        name_to = skip_spaces_back(chars, name_from, raw_to - 1);
    } else {
        name_from = skip_spaces(chars, raw_from, raw_to);
        name_to = skip_spaces_back(chars, name_from, raw_to);
    }
    let name = string_of(chars, name_from, name_to);
    assert(name@ == entry_name(raw));

    let mut decorators: Vec<String> = Vec::new();
    let mut i: usize = 1;
    while i < pieces.len()
        invariant
            1 <= i <= pieces@.len(),
            lo <= from <= to <= hi <= chars@.len(),
            parts.len() == pieces@.len(),
            forall|j: int|
                0 <= j < pieces@.len() ==> {
                    let r = #[trigger] pieces@[j];
                    &&& from <= r.0 <= r.1 <= to
                    &&& chars@.subrange(r.0 as int, r.1 as int) == parts[j]
                },
            decorators@.len() == i - 1,
            forall|j: int| 0 <= j < i - 1 ==> (#[trigger] decorators@[j])@ == trim(parts[j + 1]),
        decreases pieces@.len() - i,
    {
        let piece = pieces[i];
        let piece_from = skip_spaces(chars, piece.0, piece.1);
        let piece_to = skip_spaces_back(chars, piece_from, piece.1);
        decorators.push(string_of(chars, piece_from, piece_to));
        i += 1;
    }
    proof {
        lemma_blank_trims_to_nothing(line);
        assert(decorators.deep_view() =~= parts.skip(1).map_values(
            |piece: Seq<char>| trim(piece),
        ));
    }
    LineToken { line_num: number, indent: from - lo, name, is_dir: !is_file, decorators }
}

/// Scans a sketch: every line that is not blank gives one token, in the
/// order of the lines. No input is refused.
pub fn tokenize_sketch(content: &str) -> (tokens: Vec<LineToken>)
    ensures
        tokens.deep_view() == scan(content@),
        tokens@.len() == lines_of(content@).filter(|line: Seq<char>| !is_blank(line)).len(),
{
    let chars = chars_of(content);
    let lines = split_ranges(chars.as_slice(), 0, chars.len(), '\n');
    let ghost all = lines_of(content@);
    assert(chars@.subrange(0, chars@.len() as int) =~= content@);
    let mut tokens: Vec<LineToken> = Vec::new();
    let mut k: usize = 0;
    while k < lines.len()
        invariant
            k <= lines@.len(),
            all.len() == lines@.len(),
            forall|j: int|
                0 <= j < lines@.len() ==> {
                    let r = #[trigger] lines@[j];
                    &&& r.0 <= r.1 <= chars@.len()
                    &&& chars@.subrange(r.0 as int, r.1 as int) == all[j]
                },
            tokens.deep_view() == scan_lines(all.take(k as int)),
        decreases lines@.len() - k,
    {
        let line = lines[k];
        let first = skip_spaces(chars.as_slice(), line.0, line.1);
        proof {
            lemma_blank_trims_to_nothing(all[k as int]);
            assert(all.take(k as int + 1).drop_last() =~= all.take(k as int));
        }
        if first < line.1 {
            let ghost before = tokens.deep_view();
            let token = scan_line(chars.as_slice(), line.0, line.1, k + 1);
            tokens.push(token);
            assert(tokens.deep_view() =~= before.push(token@));
        }
        k += 1;
    }
    proof {
        assert(all.take(k as int) =~= all);
        lemma_one_token_per_non_blank_line(all);
    }
    tokens
}

} // verus!
