//! Character-level building blocks of the scanner: whitespace, trimming and
//! splitting, each as a mathematical function on `Seq<char>` together with
//! an executable counterpart that works on index ranges of a character slice.

use vstd::prelude::*;

verus! {

/// Whether `c` is a whitespace character: one of the code points that carry
/// the Unicode `White_Space` property.
pub open spec fn is_space(c: char) -> bool {
    let n = c as u32;
    ||| 0x09 <= n <= 0x0D
    ||| n == 0x20
    ||| n == 0x85
    ||| n == 0xA0
    ||| n == 0x1680
    ||| 0x2000 <= n <= 0x200A
    ||| n == 0x2028
    ||| n == 0x2029
    ||| n == 0x202F
    ||| n == 0x205F
    ||| n == 0x3000
}

/// A sequence is blank when it is empty or consists of whitespace only.
pub open spec fn is_blank(s: Seq<char>) -> bool {
    forall|i: int| 0 <= i < s.len() ==> is_space(#[trigger] s[i])
}

/// `s` without its leading whitespace.
pub open spec fn trim_start(s: Seq<char>) -> Seq<char>
    decreases s.len(),
{
    if s.len() > 0 && is_space(s.first()) {
        trim_start(s.drop_first())
    } else {
        s
    }
}

/// `s` without its trailing whitespace.
pub open spec fn trim_end(s: Seq<char>) -> Seq<char>
    decreases s.len(),
{
    if s.len() > 0 && is_space(s.last()) {
        trim_end(s.drop_last())
    } else {
        s
    }
}

/// `s` without its leading and trailing whitespace.
pub open spec fn trim(s: Seq<char>) -> Seq<char> {
    trim_end(trim_start(s))
}

/// The number of whitespace characters that `s` starts with.
pub open spec fn leading_spaces(s: Seq<char>) -> nat {
    (s.len() - trim_start(s).len()) as nat
}

/// The index of the first occurrence of `c` in `s`, or `s.len()` when `c`
/// does not occur.
pub open spec fn position(s: Seq<char>, c: char) -> int
    decreases s.len(),
{
    if s.len() == 0 || s.first() == c {
        0
    } else {
        1 + position(s.drop_first(), c)
    }
}

/// The pieces of `s` that lie between the occurrences of `sep`, in order.
/// There is always one piece more than there are separators, so the result
/// is never empty; a piece may be.
pub open spec fn split_on(s: Seq<char>, sep: char) -> Seq<Seq<char>>
    decreases s.len(),
{
    let k = position(s, sep);
    if 0 <= k < s.len() {
        seq![s.take(k)] + split_on(s.skip(k + 1), sep)
    } else {
        seq![s]
    }
}

/// `position` stays within the sequence, finds `c` when it stops early, and
/// passes over no occurrence of `c`.
pub(crate) proof fn lemma_position(s: Seq<char>, c: char)
    ensures
        0 <= position(s, c) <= s.len(),
        position(s, c) < s.len() ==> s[position(s, c)] == c,
        forall|i: int| 0 <= i < position(s, c) ==> #[trigger] s[i] != c,
    decreases s.len(),
{
    if s.len() == 0 || s.first() == c {
    } else {
        let rest = s.drop_first();
        lemma_position(rest, c);
        assert forall|i: int| 0 <= i < position(s, c) implies #[trigger] s[i] != c by {
            if i > 0 {
                assert(s[i] == rest[i - 1]);
            }
        }
    }
}

/// An index is the `position` of `c` as soon as nothing before it is `c` and
/// it is either the end of the sequence or an occurrence of `c`.
pub(crate) proof fn lemma_position_is(s: Seq<char>, c: char, k: int)
    requires
        0 <= k <= s.len(),
        forall|i: int| 0 <= i < k ==> #[trigger] s[i] != c,
        k < s.len() ==> s[k] == c,
    ensures
        position(s, c) == k,
{
    lemma_position(s, c);
    let p = position(s, c);
    if p < k {
        assert(s[p] == c);
    } else if p > k {
        assert(s[k] != c);
    }
}

/// A sequence is blank exactly when trimming its start leaves nothing.
pub(crate) proof fn lemma_blank_trims_to_nothing(s: Seq<char>)
    ensures
        is_blank(s) <==> trim_start(s).len() == 0,
        trim_start(s).len() <= s.len(),
        trim_start(s).len() > 0 ==> !is_space(trim_start(s).first()),
    decreases s.len(),
{
    if s.len() > 0 && is_space(s.first()) {
        let rest = s.drop_first();
        lemma_blank_trims_to_nothing(rest);
        if is_blank(rest) {
            assert forall|i: int| 0 <= i < s.len() implies is_space(#[trigger] s[i]) by {
                if i > 0 {
                    assert(s[i] == rest[i - 1]);
                }
            }
        } else {
            let j = choose|j: int| 0 <= j < rest.len() && !is_space(#[trigger] rest[j]);
            assert(s[j + 1] == rest[j]);
        }
    } else if s.len() > 0 {
        assert(!is_space(s[0]));
    }
}

/// Trimming the end removes nothing from the front: the result is a prefix
/// that keeps every character up to the last one that is not whitespace.
pub(crate) proof fn lemma_trim_end_is_prefix(s: Seq<char>)
    ensures
        trim_end(s).len() <= s.len(),
        trim_end(s) == s.take(trim_end(s).len() as int),
        trim_end(s).len() > 0 ==> !is_space(trim_end(s).last()),
        forall|i: int| 0 <= i < s.len() && !is_space(#[trigger] s[i]) ==> i < trim_end(s).len(),
    decreases s.len(),
{
    if s.len() > 0 && is_space(s.last()) {
        let rest = s.drop_last();
        lemma_trim_end_is_prefix(rest);
        let n = trim_end(rest).len() as int;
        assert(rest.take(n) =~= s.take(n));
        assert forall|i: int| 0 <= i < s.len() && !is_space(#[trigger] s[i]) implies i
            < trim_end(s).len() by {
            assert(i < s.len() - 1);
            assert(rest[i] == s[i]);
        }
    } else {
        assert(s.take(s.len() as int) =~= s);
    }
}

/// What trimming leaves neither starts nor ends with whitespace, so that
/// trimming it again changes nothing.
pub(crate) proof fn lemma_trim_is_trimmed(s: Seq<char>)
    ensures
        trim(s).len() > 0 ==> !is_space(trim(s).first()) && !is_space(trim(s).last()),
        trim(trim(s)) == trim(s),
{
    let t = trim_start(s);
    let u = trim(s);
    lemma_blank_trims_to_nothing(s);
    lemma_trim_end_is_prefix(t);
    if u.len() > 0 {
        assert(u.first() == t.take(u.len() as int)[0]);
    }
    assert(trim_start(u) == u);
    assert(trim_end(u) == u);
}

/// Trimming brings in no character: one that `s` does not hold, `trim(s)`
/// does not hold either.
pub(crate) proof fn lemma_trim_keeps_absent(s: Seq<char>, c: char)
    requires
        forall|i: int| 0 <= i < s.len() ==> #[trigger] s[i] != c,
    ensures
        forall|i: int| 0 <= i < trim(s).len() ==> #[trigger] trim(s)[i] != c,
{
    lemma_trim_start_is_suffix(s);
    let t = trim_start(s);
    lemma_trim_end_is_prefix(t);
    let u = trim(s);
    assert forall|i: int| 0 <= i < u.len() implies #[trigger] u[i] != c by {
        assert(u[i] == t.take(u.len() as int)[i]);
        assert(t[i] == s.skip(s.len() - t.len())[i]);
    }
}

/// Trimming the start removes nothing from the end: the result is a suffix.
pub(crate) proof fn lemma_trim_start_is_suffix(s: Seq<char>)
    ensures
        trim_start(s).len() <= s.len(),
        trim_start(s) == s.skip(s.len() - trim_start(s).len()),
    decreases s.len(),
{
    if s.len() > 0 && is_space(s.first()) {
        let rest = s.drop_first();
        lemma_trim_start_is_suffix(rest);
        let n = trim_start(rest).len() as int;
        assert(rest.skip(rest.len() - n) =~= s.skip(s.len() - n));
    } else {
        assert(s.skip(0) =~= s);
    }
}

/// No piece of a split holds the separator.
pub(crate) proof fn lemma_pieces_hold_no_separator(s: Seq<char>, sep: char)
    ensures
        split_on(s, sep).len() >= 1,
        forall|i: int, j: int|
            0 <= i < split_on(s, sep).len() && 0 <= j < split_on(s, sep)[i].len() ==> split_on(
                s,
                sep,
            )[i][j] != sep,
    decreases s.len(),
{
    lemma_position(s, sep);
    let k = position(s, sep);
    if 0 <= k < s.len() {
        let rest = s.skip(k + 1);
        lemma_pieces_hold_no_separator(rest, sep);
        let pieces = split_on(s, sep);
        assert forall|i: int, j: int|
            0 <= i < pieces.len() && 0 <= j < pieces[i].len() implies pieces[i][j] != sep by {
            if i == 0 {
                assert(pieces[0] == s.take(k));
                assert(pieces[0][j] == s[j]);
            } else {
                assert(pieces[i] == split_on(rest, sep)[i - 1]);
            }
        }
    } else {
        assert(split_on(s, sep) =~= seq![s]);
    }
}

/// The first index in `[lo, hi)` whose character is not whitespace, or `hi`.
pub(crate) fn skip_spaces(v: &[char], lo: usize, hi: usize) -> (k: usize)
    requires
        lo <= hi <= v@.len(),
    ensures
        lo <= k <= hi,
        v@.subrange(k as int, hi as int) == trim_start(v@.subrange(lo as int, hi as int)),
{
    let mut i: usize = lo;
    while i < hi && is_whitespace(v[i])
        invariant
            lo <= i <= hi <= v@.len(),
            trim_start(v@.subrange(i as int, hi as int)) == trim_start(
                v@.subrange(lo as int, hi as int),
            ),
        decreases hi - i,
    {
        assert(v@.subrange(i as int, hi as int).drop_first() =~= v@.subrange(
            i as int + 1,
            hi as int,
        ));
        i += 1;
    }
    i
}

/// The end of the part of `[lo, hi)` that remains when trailing whitespace
/// is dropped.
pub(crate) fn skip_spaces_back(v: &[char], lo: usize, hi: usize) -> (k: usize)
    requires
        lo <= hi <= v@.len(),
    ensures
        lo <= k <= hi,
        v@.subrange(lo as int, k as int) == trim_end(v@.subrange(lo as int, hi as int)),
{
    let mut i: usize = hi;
    while i > lo && is_whitespace(v[i - 1])
        invariant
            lo <= i <= hi <= v@.len(),
            trim_end(v@.subrange(lo as int, i as int)) == trim_end(
                v@.subrange(lo as int, hi as int),
            ),
        decreases i - lo,
    {
        assert(v@.subrange(lo as int, i as int).drop_last() =~= v@.subrange(
            lo as int,
            i as int - 1,
        ));
        i -= 1;
    }
    i
}

/// The index of the first `c` in `[lo, hi)`, or `hi` when there is none.
pub(crate) fn find_char(v: &[char], lo: usize, hi: usize, c: char) -> (k: usize)
    requires
        lo <= hi <= v@.len(),
    ensures
        lo <= k <= hi,
        k - lo == position(v@.subrange(lo as int, hi as int), c),
{
    let mut i: usize = lo;
    while i < hi && v[i] != c
        invariant
            lo <= i <= hi <= v@.len(),
            forall|j: int| lo <= j < i ==> v@[j] != c,
        decreases hi - i,
    {
        i += 1;
    }
    proof {
        lemma_position_is(v@.subrange(lo as int, hi as int), c, i - lo);
    }
    i
}

/// The pieces of `[lo, hi)` between the occurrences of `sep`, each as the
/// pair of its first index and the index after its last.
pub(crate) fn split_ranges(v: &[char], lo: usize, hi: usize, sep: char) -> (ranges: Vec<
    (usize, usize),
>)
    requires
        lo <= hi <= v@.len(),
    ensures
        ranges@.len() == split_on(v@.subrange(lo as int, hi as int), sep).len(),
        forall|i: int|
            0 <= i < ranges@.len() ==> {
                let r = #[trigger] ranges@[i];
                &&& lo <= r.0 <= r.1 <= hi
                &&& v@.subrange(r.0 as int, r.1 as int) == split_on(
                    v@.subrange(lo as int, hi as int),
                    sep,
                )[i]
            },
{
    let ghost whole = split_on(v@.subrange(lo as int, hi as int), sep);
    let ghost done: Seq<Seq<char>> = Seq::empty();
    let mut ranges: Vec<(usize, usize)> = Vec::new();
    let mut start: usize = lo;
    let mut end: usize = find_char(v, lo, hi, sep);
    while end < hi
        invariant
            lo <= start <= end <= hi <= v@.len(),
            end - start == position(v@.subrange(start as int, hi as int), sep),
            whole == split_on(v@.subrange(lo as int, hi as int), sep),
            whole == done + split_on(v@.subrange(start as int, hi as int), sep),
            ranges@.len() == done.len(),
            forall|i: int|
                0 <= i < ranges@.len() ==> {
                    let r = #[trigger] ranges@[i];
                    &&& lo <= r.0 <= r.1 <= hi
                    &&& v@.subrange(r.0 as int, r.1 as int) == done[i]
                },
        decreases hi - start,
    {
        proof {
            let rest = v@.subrange(start as int, hi as int);
            assert(rest.take(end - start) =~= v@.subrange(start as int, end as int));
            assert(rest.skip(end - start + 1) =~= v@.subrange(end as int + 1, hi as int));
            assert(done + (seq![rest.take(end - start)] + split_on(
                rest.skip(end - start + 1),
                sep,
            )) =~= done.push(rest.take(end - start)) + split_on(rest.skip(end - start + 1), sep));
            done = done.push(rest.take(end - start));
        }
        ranges.push((start, end));
        start = end + 1;
        end = find_char(v, start, hi, sep);
    }
    proof {
        let rest = v@.subrange(start as int, hi as int);
        assert(done + seq![rest] =~= done.push(rest));
        done = done.push(rest);
    }
    ranges.push((start, end));
    ranges
}

/// Whether `c` is a whitespace character.
pub fn is_whitespace(c: char) -> (r: bool)
    ensures
        r == is_space(c),
{
    let n: u32 = c as u32;
    (0x09 <= n && n <= 0x0D) || n == 0x20 || n == 0x85 || n == 0xA0 || n == 0x1680 || (0x2000 <= n
        && n <= 0x200A) || n == 0x2028 || n == 0x2029 || n == 0x202F || n == 0x205F || n == 0x3000
}

/// The characters of `s`, one element each.
pub(crate) fn chars_of(s: &str) -> (v: Vec<char>)
    ensures
        v@ == s@,
{
    let mut v: Vec<char> = Vec::new();
    for c in it: s.chars()
        invariant
            v@ == it.seq().take(it.index() as int),
            it.seq() == s@,
    {
        v.push(c);
    }
    v
}

/// `String::push` appends one character to the end of the string and leaves
/// what was there before untouched.
pub assume_specification[ String::push ](s: &mut String, ch: char)
    ensures
        final(s)@ == old(s)@.push(ch),
;

/// The characters of `v` in `[lo, hi)` as an owned string.
pub(crate) fn string_of(v: &[char], lo: usize, hi: usize) -> (s: String)
    requires
        lo <= hi <= v@.len(),
    ensures
        s@ == v@.subrange(lo as int, hi as int),
{
    let mut s = String::new();
    let mut i: usize = lo;
    while i < hi
        invariant
            lo <= i <= hi <= v@.len(),
            s@ == v@.subrange(lo as int, i as int),
        decreases hi - i,
    {
        s.push(v[i]);
        i += 1;
    }
    s
}

/// A copy of `strings`, string by string.
pub(crate) fn copy_strings(strings: &Vec<String>) -> (copy: Vec<String>)
    ensures
        copy@ == strings@,
        copy.deep_view() == strings.deep_view(),
{
    let mut copy: Vec<String> = Vec::new();
    let mut i: usize = 0;
    while i < strings.len()
        invariant
            i <= strings@.len(),
            copy@ == strings@.take(i as int),
        decreases strings@.len() - i,
    {
        copy.push(strings[i].clone());
        assert(copy@ =~= strings@.take(i as int + 1));
        i += 1;
    }
    assert(copy@ =~= strings@);
    assert(copy.deep_view() =~= strings.deep_view());
    copy
}

} // verus!
