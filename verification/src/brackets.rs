//! Brackets and the loops they delimit.
//!
//! Everything here is about a sequence of characters in which `[` opens a
//! loop and `]` closes one; all other characters are passed over.

use vstd::prelude::*;

verus! {

/// What one character adds to the nesting depth.
pub open spec fn bracket_delta(c: char) -> int {
    if c == '[' {
        1
    } else if c == ']' {
        -1
    } else {
        0
    }
}

/// The number of `[` in `s` minus the number of `]`: how many loops are open
/// at the end of `s`, where every `]` had a loop to close.
pub open spec fn depth(s: Seq<char>) -> int
    decreases s.len(),
{
    if s.len() == 0 {
        0
    } else {
        depth(s.drop_last()) + bracket_delta(s.last())
    }
}

/// The `[` at `open` and the `]` at `close` delimit one loop: the depth after
/// the `]` is the depth before the `[` for the first time since the `[`.
pub open spec fn paired(s: Seq<char>, open: int, close: int) -> bool {
    &&& 0 <= open < close < s.len()
    &&& s[open] == '['
    &&& s[close] == ']'
    &&& depth(s.take(close + 1)) == depth(s.take(open))
    &&& forall|k: int| open < k <= close ==> depth(#[trigger] s.take(k)) > depth(s.take(open))
}

/// No `]` closes the `[` at `open`.
pub open spec fn unclosed(s: Seq<char>, open: int) -> bool {
    forall|close: int| !paired(s, open, close)
}

/// Every `]` of `text` has a `[` to close.
pub open spec fn closes_only_open_loops(text: Seq<char>) -> bool {
    forall|k: int| 0 <= k <= text.len() ==> depth(#[trigger] text.take(k)) >= 0
}

/// Every `]` of `text` has a `[` to close, and every `[` is closed.
pub open spec fn balanced(text: Seq<char>) -> bool {
    closes_only_open_loops(text) && depth(text) == 0
}

/// The character at index `i` of `text` is the first `]` with no `[` to close.
pub open spec fn first_stray_close(text: Seq<char>, i: int) -> bool {
    &&& 0 <= i < text.len()
    &&& text[i] == ']'
    &&& depth(text.take(i)) == 0
    &&& forall|k: int| 0 <= k <= i ==> depth(#[trigger] text.take(k)) >= 0
}

/// The depth of a sequence with one more character.
pub(crate) proof fn lemma_depth_push(s: Seq<char>, c: char)
    ensures
        depth(s.push(c)) == depth(s) + bracket_delta(c),
{
    assert(s.push(c).drop_last() =~= s);
}

/// The depth behind a character is the depth before it plus what it adds.
pub(crate) proof fn lemma_depth_next(s: Seq<char>, k: int)
    requires
        0 <= k < s.len(),
    ensures
        depth(s.take(k + 1)) == depth(s.take(k)) + bracket_delta(s[k]),
{
    assert(s.take(k + 1).drop_last() =~= s.take(k));
}

/// A prefix of `s` is a prefix of `s.push(c)`.
pub(crate) proof fn lemma_take_push(s: Seq<char>, c: char, k: int)
    requires
        0 <= k <= s.len(),
    ensures
        s.push(c).take(k) == s.take(k),
{
    assert(s.push(c).take(k) =~= s.take(k));
}

/// Whether two brackets of `s` are paired does not depend on what follows them.
pub(crate) proof fn lemma_paired_push(s: Seq<char>, c: char, open: int, close: int)
    requires
        close < s.len(),
    ensures
        paired(s.push(c), open, close) == paired(s, open, close),
{
    let t = s.push(c);
    if 0 <= open < close {
        lemma_take_push(s, c, open);
        lemma_take_push(s, c, close + 1);
        assert forall|k: int| open < k <= close implies depth(#[trigger] t.take(k)) == depth(
            s.take(k),
        ) by {
            lemma_take_push(s, c, k);
        }
        if paired(s, open, close) {
            assert forall|k: int| open < k <= close implies depth(#[trigger] t.take(k)) > depth(
                t.take(open),
            ) by {
                lemma_take_push(s, c, k);
            }
        }
        if paired(t, open, close) {
            assert forall|k: int| open < k <= close implies depth(#[trigger] s.take(k)) > depth(
                s.take(open),
            ) by {
                lemma_take_push(s, c, k);
            }
        }
    }
}

/// A `[` has at most one `]` that closes it.
pub proof fn lemma_close_is_unique(s: Seq<char>, open: int, c1: int, c2: int)
    requires
        paired(s, open, c1),
        paired(s, open, c2),
    ensures
        c1 == c2,
{
    if c1 < c2 {
        assert(depth(s.take(c1 + 1)) > depth(s.take(open)));
    } else if c2 < c1 {
        assert(depth(s.take(c2 + 1)) > depth(s.take(open)));
    }
}

/// A `]` closes at most one `[`.
pub proof fn lemma_open_is_unique(s: Seq<char>, o1: int, o2: int, close: int)
    requires
        paired(s, o1, close),
        paired(s, o2, close),
    ensures
        o1 == o2,
{
    if o1 < o2 {
        assert(depth(s.take(o2)) > depth(s.take(o1)));
    } else if o2 < o1 {
        assert(depth(s.take(o1)) > depth(s.take(o2)));
    }
}

/// Loops nest: a loop that starts inside another ends inside it.
pub proof fn lemma_loops_nest(s: Seq<char>, o1: int, c1: int, o2: int, c2: int)
    requires
        paired(s, o1, c1),
        paired(s, o2, c2),
        o1 < o2 < c1,
    ensures
        c2 < c1,
{
    if c2 == c1 {
        lemma_open_is_unique(s, o1, o2, c1);
    } else if c2 > c1 {
        assert(depth(s.take(o2)) > depth(s.take(o1)));
        assert(depth(s.take(c1 + 1)) > depth(s.take(o2)));
    }
}

/// A `[` is closed where the depth at the end is no more than the depth
/// before it: the search from `k` finds the `]`.
proof fn lemma_close_exists(s: Seq<char>, open: int, k: int) -> (close: int)
    requires
        0 <= open < k <= s.len(),
        s[open] == '[',
        depth(s) <= depth(s.take(open)),
        forall|j: int| open < j <= k ==> depth(#[trigger] s.take(j)) > depth(s.take(open)),
    ensures
        paired(s, open, close),
    decreases s.len() - k,
{
    if k == s.len() {
        assert(s.take(k) =~= s);
        0
    } else {
        lemma_depth_next(s, k);
        if depth(s.take(k + 1)) > depth(s.take(open)) {
            lemma_close_exists(s, open, k + 1)
        } else {
            k
        }
    }
}

/// In a balanced sequence every `[` is closed.
pub proof fn lemma_balanced_closes_every_loop(s: Seq<char>, open: int)
    requires
        balanced(s),
        0 <= open < s.len(),
        s[open] == '[',
    ensures
        !unclosed(s, open),
{
    lemma_depth_next(s, open);
    assert(depth(s.take(open)) >= 0);
    let close = lemma_close_exists(s, open, open + 1);
    assert(paired(s, open, close));
}

} // verus!
