//! The trivia skipper's model: where whitespace and comments end.
//!
//! `trivia_end` says, for a scan that starts at byte offset `i`, at which
//! offset the first significant byte of the next token stands — or that the
//! buffer runs out first, which ends the token sequence (running out of bytes
//! in the middle of a comment is deliberately end of sequence, not an error).

use vstd::prelude::*;

use crate::ascii::BANG;
use crate::ascii::HASH;
use crate::ascii::NEWLINE;

verus! {

/// True for the five ASCII whitespace bytes: space, tab, line feed, form
/// feed and carriage return.
pub open spec fn is_ws(b: u8) -> bool {
    b == 32 || b == 9 || b == 10 || b == 12 || b == 13
}

/// The first offset at or after `i` that holds a non-whitespace byte, or the
/// buffer length when only whitespace remains.
pub open spec fn ws_end(s: Seq<u8>, i: int) -> int
    recommends
        0 <= i <= s.len(),
    decreases s.len() - i,
{
    if i < s.len() && is_ws(s[i]) {
        ws_end(s, i + 1)
    } else {
        i
    }
}

/// Where scanning resumes after a line comment whose body starts at `i`:
/// just past the first newline at or after `i`, or nowhere when the buffer
/// ends first.
pub open spec fn line_end(s: Seq<u8>, i: int) -> Option<int>
    recommends
        0 <= i <= s.len(),
    decreases s.len() - i,
{
    if i >= s.len() {
        None
    } else if s[i] == NEWLINE {
        Some(i + 1)
    } else {
        line_end(s, i + 1)
    }
}

/// Where scanning resumes after a block comment whose body starts at `i`:
/// the offset of the first `#` that directly follows a consumed `!`. That
/// closing `#` is left unconsumed, to be re-examined as a fresh potential
/// comment start. `None` when the buffer ends before such a pair.
pub open spec fn block_end(s: Seq<u8>, i: int) -> Option<int>
    recommends
        0 <= i <= s.len(),
    decreases s.len() - i,
{
    if i >= s.len() {
        None
    } else if s[i] != BANG {
        block_end(s, i + 1)
    } else if i + 1 >= s.len() {
        None
    } else if s[i + 1] == HASH {
        Some(i + 1)
    } else {
        block_end(s, i + 1)
    }
}

/// The offset of the first significant byte at or after `i`, once whitespace
/// and comments are skipped; `None` when the buffer ends during the skip.
/// A `#` starts a comment; the byte after it picks the kind: `!` a block
/// comment, a newline an empty comment, anything else a line comment.
pub open spec fn trivia_end(s: Seq<u8>, i: int) -> Option<int>
    recommends
        0 <= i <= s.len(),
    decreases s.len() - i,
    when 0 <= i <= s.len()
    via trivia_end_decreases
{
    let j = ws_end(s, i);
    if j >= s.len() {
        None
    } else if s[j] != HASH {
        Some(j)
    } else if j + 1 >= s.len() {
        None
    } else if s[j + 1] == BANG {
        match block_end(s, j + 2) {
            None => None,
            Some(q) => trivia_end(s, q),
        }
    } else if s[j + 1] == NEWLINE {
        trivia_end(s, j + 2)
    } else {
        match line_end(s, j + 2) {
            None => None,
            Some(k) => trivia_end(s, k),
        }
    }
}

#[via_fn]
proof fn trivia_end_decreases(s: Seq<u8>, i: int) {
    lemma_ws_end(s, i);
    let j = ws_end(s, i);
    if i <= s.len() && j < s.len() && s[j] == HASH && j + 1 < s.len() {
        if s[j + 1] == BANG {
            lemma_block_end(s, j + 2);
        } else if s[j + 1] != NEWLINE {
            lemma_line_end(s, j + 2);
        }
    }
}

/// Characterizes `ws_end`: it stays within the buffer, everything before it
/// (from `i` on) is whitespace, and the byte at it, if any, is not.
pub proof fn lemma_ws_end(s: Seq<u8>, i: int)
    requires
        0 <= i <= s.len(),
    ensures
        i <= ws_end(s, i) <= s.len(),
        ws_end(s, i) < s.len() ==> !is_ws(s[ws_end(s, i)]),
        forall|k: int| i <= k < ws_end(s, i) ==> is_ws(s[k]),
    decreases s.len() - i,
{
    if i < s.len() && is_ws(s[i]) {
        lemma_ws_end(s, i + 1);
    }
}

/// Characterizes `line_end`: when it finds a resume point, a newline stands
/// right before it and none earlier; when it finds none, no newline remains.
pub proof fn lemma_line_end(s: Seq<u8>, i: int)
    requires
        0 <= i <= s.len(),
    ensures
        match line_end(s, i) {
            Some(k) => i < k <= s.len() && s[k - 1] == NEWLINE && forall|m: int|
                i <= m < k - 1 ==> s[m] != NEWLINE,
            None => forall|m: int| i <= m < s.len() ==> s[m] != NEWLINE,
        },
    decreases s.len() - i,
{
    if i < s.len() && s[i] != NEWLINE {
        lemma_line_end(s, i + 1);
    }
}

/// Characterizes `block_end`: the resume point, when there is one, holds a
/// `#` directly after a `!`, and it lies within the buffer.
pub proof fn lemma_block_end(s: Seq<u8>, i: int)
    requires
        0 <= i <= s.len(),
    ensures
        match block_end(s, i) {
            Some(q) => i < q < s.len() && s[q] == HASH && s[q - 1] == BANG,
            None => true,
        },
    decreases s.len() - i,
{
    if i < s.len() {
        if s[i] != BANG {
            lemma_block_end(s, i + 1);
        } else if i + 1 < s.len() && s[i + 1] != HASH {
            lemma_block_end(s, i + 1);
        }
    }
}

/// Characterizes `trivia_end`: the first significant byte, when there is
/// one, lies within the buffer, is not whitespace and is not a comment
/// start.
pub proof fn lemma_trivia_end(s: Seq<u8>, i: int)
    requires
        0 <= i <= s.len(),
    ensures
        match trivia_end(s, i) {
            Some(j) => i <= j < s.len() && !is_ws(s[j]) && s[j] != HASH,
            None => true,
        },
    decreases s.len() - i,
{
    lemma_ws_end(s, i);
    let j = ws_end(s, i);
    if j < s.len() && s[j] == HASH && j + 1 < s.len() {
        if s[j + 1] == BANG {
            lemma_block_end(s, j + 2);
            match block_end(s, j + 2) {
                None => {},
                Some(q) => {
                    lemma_trivia_end(s, q);
                },
            }
        } else if s[j + 1] == NEWLINE {
            lemma_trivia_end(s, j + 2);
        } else {
            lemma_line_end(s, j + 2);
            match line_end(s, j + 2) {
                None => {},
                Some(k) => {
                    lemma_trivia_end(s, k);
                },
            }
        }
    }
}

} // verus!
