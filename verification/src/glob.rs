//! Line-bounded multi-fragment literal matching.
//!
//! A pattern is an ordered list of literal fragments plus a set of
//! end-of-line byte values. The matcher makes a single left-to-right pass:
//! an end-of-line byte resets all matching state and starts a new line (a
//! match never spans a line boundary); a byte that continues the current
//! fragment advances it, completing fragments in order; any other byte
//! restarts the current fragment. When the last fragment completes, the
//! half-open range of the matched line is returned at once — first match
//! wins. The line's end is the position just past the next end-of-line
//! byte, or the end of the text.

use vstd::prelude::*;

verus! {

/// A usable pattern: at least one fragment, and no empty fragment.
pub open spec fn glob_wf(pats: Seq<Seq<u8>>) -> bool {
    &&& pats.len() > 0
    &&& forall|p: int| 0 <= p < pats.len() ==> (#[trigger] pats[p]).len() > 0
}

/// Position just past the first end-of-line byte at or after `i`, or the
/// end of the text when none follows.
pub open spec fn find_line_end(text: Seq<u8>, eol: Seq<u8>, i: int) -> int
    decreases text.len() - i,
{
    if i < 0 || i >= text.len() {
        text.len() as int
    } else if eol.contains(text[i]) {
        i + 1
    } else {
        find_line_end(text, eol, i + 1)
    }
}

/// One step of the matcher per character, from position `i` in state
/// `(pi, po, ls)`: fragment `pi` is matched up to offset `po`, and the
/// current line starts at `ls`.
pub open spec fn spec_glob_from(
    text: Seq<u8>,
    pats: Seq<Seq<u8>>,
    eol: Seq<u8>,
    i: int,
    pi: int,
    po: int,
    ls: int,
) -> Option<(int, int)>
    decreases text.len() - i,
{
    if i < 0 || i >= text.len() {
        None
    } else {
        let ch = text[i];
        if eol.contains(ch) {
            spec_glob_from(text, pats, eol, i + 1, 0, 0, i + 1)
        } else if ch == pats[pi][po] {
            if po == pats[pi].len() - 1 {
                if pi == pats.len() - 1 {
                    Some((ls, find_line_end(text, eol, i + 1)))
                } else {
                    spec_glob_from(text, pats, eol, i + 1, pi + 1, 0, ls)
                }
            } else {
                spec_glob_from(text, pats, eol, i + 1, pi, po + 1, ls)
            }
        } else {
            spec_glob_from(text, pats, eol, i + 1, pi, 0, ls)
        }
    }
}

/// The matcher's result on the whole text: the first line on which all
/// fragments complete in order, as a half-open byte range, or nothing.
pub open spec fn spec_lined_glob(text: Seq<u8>, pats: Seq<Seq<u8>>, eol: Seq<u8>) -> Option<
    (int, int),
> {
    spec_glob_from(text, pats, eol, 0, 0, 0, 0)
}

/// Whether `b` is one of the bytes of `set`.
fn contains_byte(set: &[u8], b: u8) -> (r: bool)
    ensures
        r == set@.contains(b),
{
    let mut i: usize = 0;
    while i < set.len()
        invariant
            i <= set@.len(),
            forall|j: int| 0 <= j < i ==> set@[j] != b,
        decreases set@.len() - i,
    {
        if set[i] == b {
            return true;
        }
        i += 1;
    }
    false
}

/// Position just past the first end-of-line byte at or after `start`, or
/// the end of the text.
fn find_eol(text: &[u8], eol: &[u8], start: usize) -> (r: usize)
    requires
        start <= text@.len(),
    ensures
        r == find_line_end(text@, eol@, start as int),
{
    let mut j: usize = start;
    while j < text.len()
        invariant
            start <= j <= text@.len(),
            find_line_end(text@, eol@, start as int) == find_line_end(text@, eol@, j as int),
        decreases text@.len() - j,
    {
        if contains_byte(eol, text[j]) {
            return j + 1;
        }
        j += 1;
    }
    text.len()
}

/// Searches `text` for the given fragments under the lined constraint:
/// all fragments must complete, in order, within a single line, where the
/// bytes of `eol` end lines. Returns the half-open range of the first
/// matching line (its terminating end-of-line byte included), or `None`.
///
/// Fragments are literal; they need not be contiguous on the line.
pub fn lined_glob(text: &[u8], patterns: &Vec<&[u8]>, eol: &[u8]) -> (r: Option<(usize, usize)>)
    requires
        glob_wf(patterns.deep_view()),
    ensures
        match r {
            Some(p) => spec_lined_glob(text@, patterns.deep_view(), eol@) == Some(
                (p.0 as int, p.1 as int),
            ),
            None => spec_lined_glob(text@, patterns.deep_view(), eol@) is None,
        },
{
    let ghost pats = patterns.deep_view();
    proof {
        assert(forall|p: int|
            0 <= p < patterns@.len() ==> #[trigger] pats[p] == patterns@[p]@);
    }
    let mut pattern_idx: usize = 0;
    let mut pattern_elm_idx: usize = 0;
    let mut line_start: usize = 0;
    let mut i: usize = 0;
    while i < text.len()
        invariant
            pats == patterns.deep_view(),
            glob_wf(pats),
            forall|p: int| 0 <= p < patterns@.len() ==> #[trigger] pats[p] == patterns@[p]@,
            i <= text@.len(),
            pattern_idx < pats.len(),
            pattern_elm_idx < pats[pattern_idx as int].len(),
            line_start <= i,
            spec_lined_glob(text@, pats, eol@) == spec_glob_from(
                text@,
                pats,
                eol@,
                i as int,
                pattern_idx as int,
                pattern_elm_idx as int,
                line_start as int,
            ),
        decreases text@.len() - i,
    {
        let ch = text[i];
        let selected_pattern: &[u8] = patterns[pattern_idx];
        if contains_byte(eol, ch) {
            line_start = i + 1;
            pattern_idx = 0;
            pattern_elm_idx = 0;
        } else if ch == selected_pattern[pattern_elm_idx] {
            if pattern_elm_idx == selected_pattern.len() - 1 {
                if pattern_idx == patterns.len() - 1 {
                    let line_end = find_eol(text, eol, i + 1);
                    return Some((line_start, line_end));
                } else {
                    pattern_idx += 1;
                    pattern_elm_idx = 0;
                }
            } else {
                pattern_elm_idx += 1;
            }
        } else {
            pattern_elm_idx = 0;
        }
        i += 1;
    }
    None
}

} // verus!
