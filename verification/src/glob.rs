//! Glob patterns for the paths that are left out: `*` stands for any run
//! of characters, `?` for any one character, every other character for
//! itself.

use vstd::prelude::*;
use crate::text::characters;

verus! {

/// Whether the pattern from position `i` on matches the text from position `j` on.
pub open spec fn glob_from(pattern: Seq<char>, text: Seq<char>, i: int, j: int) -> bool
    decreases pattern.len() - i, text.len() - j,
{
    if i < 0 || j < 0 {
        false
    } else if i >= pattern.len() {
        j >= text.len()
    } else if pattern[i] == '*' {
        glob_from(pattern, text, i + 1, j) || (j < text.len() && glob_from(pattern, text, i, j + 1))
    } else if j < text.len() && (pattern[i] == '?' || pattern[i] == text[j]) {
        glob_from(pattern, text, i + 1, j + 1)
    } else {
        false
    }
}

/// Whether the pattern matches the whole text.
pub open spec fn glob_matches(pattern: Seq<char>, text: Seq<char>) -> bool {
    glob_from(pattern, text, 0, 0)
}

/// Whether one of the patterns matches the text.
pub open spec fn any_matches(patterns: Seq<Seq<char>>, text: Seq<char>) -> bool {
    exists|k: int| 0 <= k < patterns.len() && glob_matches(#[trigger] patterns[k], text)
}

/// Whether the pattern matches the whole text.
pub fn matches_glob(pattern: &str, text: &str) -> (matched: bool)
    ensures
        matched == glob_matches(pattern@, text@),
{
    let p = characters(pattern);
    let t = characters(text);
    let n = t.len();
    // The row for the end of the pattern: only the end of the text matches.
    let mut below: Vec<bool> = Vec::new();
    let mut j: usize = 0;
    while j < n
        invariant
            n == t@.len(),
            j <= n,
            below@.len() == j,
            forall|k: int| 0 <= k < j ==> below@[k] == glob_from(p@, t@, p@.len() as int, k),
        decreases n - j,
    {
        below.push(false);
        j += 1;
    }
    below.push(true);
    let mut i: usize = p.len();
    while i > 0
        invariant
            n == t@.len(),
            i <= p@.len(),
            below@.len() == n + 1,
            forall|k: int| 0 <= k <= n ==> below@[k] == glob_from(p@, t@, i as int, k),
        decreases i,
    {
        i -= 1;
        let symbol = p[i];
        let mut row: Vec<bool> = Vec::new();
        let mut k: usize = 0;
        while k < n
            invariant
                k <= n,
                row@.len() == k,
            decreases n - k,
        {
            row.push(false);
            k += 1;
        }
        row.push(symbol == '*' && below[n]);
        let mut j: usize = n;
        while j > 0
            invariant
                n == t@.len(),
                i < p@.len(),
                symbol == p@[i as int],
                j <= n,
                row@.len() == n + 1,
                below@.len() == n + 1,
                forall|k: int| 0 <= k <= n ==> below@[k] == glob_from(p@, t@, i + 1, k),
                forall|k: int| j <= k <= n ==> row@[k] == glob_from(p@, t@, i as int, k),
            decreases j,
        {
            j -= 1;
            let cell = if symbol == '*' {
                below[j] || row[j + 1]
            } else if symbol == '?' || symbol == t[j] {
                below[j + 1]
            } else {
                false
            };
            row.set(j, cell);
        }
        below = row;
    }
    below[0]
}

/// Whether one of the patterns matches the text.
pub fn matches_any(patterns: &Vec<String>, text: &str) -> (matched: bool)
    ensures
        matched == any_matches(patterns.deep_view(), text@),
{
    let mut k: usize = 0;
    while k < patterns.len()
        invariant
            k <= patterns@.len(),
            forall|m: int| 0 <= m < k ==> !glob_matches(#[trigger] patterns.deep_view()[m], text@),
        decreases patterns@.len() - k,
    {
        assert(patterns.deep_view()[k as int] == patterns@[k as int]@);
        if matches_glob(patterns[k].as_str(), text) {
            return true;
        }
        k += 1;
    }
    false
}

} // verus!
