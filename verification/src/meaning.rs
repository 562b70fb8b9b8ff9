//! What the operations mean, stated on their inputs and results: how a line
//! of assembly is read, what linking and deleting do to the links between
//! blocks, and in which order saving writes the blocks.
use vstd::prelude::*;
use crate::codeblock::{
    delimiter_from, is_label_delimiter, line_label, removed, BlockView,
};
use crate::linker::{block_label, first_cond_from, first_jump_from, label_owner, label_owner_from, linked};
use crate::text::{find_from, is_whitespace, rfind_before, skip_whitespace, word_end};
use crate::util::{jump_kind, lowercase_ascii, JumpView};

verus! {

// ---------------------------------------------------------------------------
// Reading a line
// ---------------------------------------------------------------------------

proof fn lemma_find_none(s: Seq<char>, c: char, i: int)
    requires
        0 <= i <= s.len(),
        forall|k: int| i <= k < s.len() ==> s[k] != c,
    ensures
        find_from(s, c, i) == s.len(),
    decreases s.len() - i,
{
    if i < s.len() {
        lemma_find_none(s, c, i + 1);
    }
}

proof fn lemma_rfind_none(s: Seq<char>, c: char, i: int)
    requires
        0 <= i <= s.len(),
        forall|k: int| 0 <= k < i ==> s[k] != c,
    ensures
        rfind_before(s, c, i) == -1,
    decreases i,
{
    if i > 0 {
        lemma_rfind_none(s, c, i - 1);
    }
}

proof fn lemma_skip_to(s: Seq<char>, i: int, j: int)
    requires
        0 <= i <= j <= s.len(),
        forall|k: int| i <= k < j ==> is_whitespace(s[k]),
        j == s.len() || !is_whitespace(s[j]),
    ensures
        skip_whitespace(s, i) == j,
    decreases j - i,
{
    if i < j {
        lemma_skip_to(s, i + 1, j);
    }
}

proof fn lemma_word_to(s: Seq<char>, i: int, j: int)
    requires
        0 <= i <= j <= s.len(),
        forall|k: int| i <= k < j ==> !is_whitespace(s[k]),
        j == s.len() || is_whitespace(s[j]),
    ensures
        word_end(s, i) == j,
    decreases j - i,
{
    if i < j {
        lemma_word_to(s, i + 1, j);
    }
}

proof fn lemma_delimiter_to(s: Seq<char>, i: int, j: int)
    requires
        0 <= i <= j < s.len(),
        forall|k: int| i <= k < j ==> !is_label_delimiter(s[k]),
        is_label_delimiter(s[j]),
    ensures
        delimiter_from(s, i) == j,
    decreases j - i,
{
    if i < j {
        lemma_delimiter_to(s, i + 1, j);
    }
}

/// A word: characters that are not whitespace, `;` or `:`.
pub open spec fn is_word(w: Seq<char>) -> bool {
    forall|k: int| 0 <= k < w.len() ==> !is_whitespace(#[trigger] w[k]) && w[k] != ';' && w[k] != ':'
}

/// A line that starts with whitespace, then a word directly followed by `:`,
/// defines that word as its label, whatever follows.
pub proof fn law_label_of_line(ws: Seq<char>, w: Seq<char>, rest: Seq<char>)
    requires
        forall|k: int| 0 <= k < ws.len() ==> is_whitespace(#[trigger] ws[k]),
        is_word(w),
    ensures
        line_label(ws + w + seq![':'] + rest) == Some(w),
{
    let l = ws + w + seq![':'] + rest;
    let a = ws.len() as int;
    let d = a + w.len();
    assert(l[d] == ':');
    assert forall|k: int| a <= k < d implies !is_label_delimiter(l[k]) by {
        assert(l[k] == w[k - a]);
    }
    assert forall|k: int| 0 <= k < a implies is_whitespace(l[k]) by {
        assert(l[k] == ws[k]);
    }
    if w.len() > 0 {
        assert(l[a] == w[0]);
    }
    lemma_skip_to(l, 0, a);
    lemma_delimiter_to(l, a, d);
    assert(l.subrange(a, d) =~= w);
}

/// The conditional jumps of x86: `ja`, `jae`, ..., `jl`, ..., `jz`.
pub open spec fn is_x86_conditional_jump(m: Seq<char>) -> bool {
    ||| m == seq!['j', 'a']
    ||| m == seq!['j', 'a', 'e']
    ||| m == seq!['j', 'b']
    ||| m == seq!['j', 'b', 'e']
    ||| m == seq!['j', 'c']
    ||| m == seq!['j', 'c', 'x', 'z']
    ||| m == seq!['j', 'e', 'c', 'x', 'z']
    ||| m == seq!['j', 'r', 'c', 'x', 'z']
    ||| m == seq!['j', 'e']
    ||| m == seq!['j', 'g']
    ||| m == seq!['j', 'g', 'e']
    ||| m == seq!['j', 'l']
    ||| m == seq!['j', 'l', 'e']
    ||| m == seq!['j', 'n', 'a']
    ||| m == seq!['j', 'n', 'a', 'e']
    ||| m == seq!['j', 'n', 'b']
    ||| m == seq!['j', 'n', 'b', 'e']
    ||| m == seq!['j', 'n', 'c']
    ||| m == seq!['j', 'n', 'e']
    ||| m == seq!['j', 'n', 'g']
    ||| m == seq!['j', 'n', 'g', 'e']
    ||| m == seq!['j', 'n', 'l']
    ||| m == seq!['j', 'n', 'l', 'e']
    ||| m == seq!['j', 'n', 'o']
    ||| m == seq!['j', 'n', 'p']
    ||| m == seq!['j', 'n', 's']
    ||| m == seq!['j', 'n', 'z']
    ||| m == seq!['j', 'o']
    ||| m == seq!['j', 'p']
    ||| m == seq!['j', 'p', 'e']
    ||| m == seq!['j', 'p', 'o']
    ||| m == seq!['j', 's']
    ||| m == seq!['j', 'z']
}

/// A line that is a jump mnemonic (in any ASCII case; a word, as every
/// mnemonic is), a space and a word: `jmp` gives an unconditional jump to that word, every conditional
/// jump of x86 a conditional jump to it.
pub proof fn law_jump_of_line(u: Seq<char>, w: Seq<char>)
    requires
        u.len() > 0,
        is_word(u),
        lowercase_ascii(u) == seq!['j', 'm', 'p'] || is_x86_conditional_jump(lowercase_ascii(u)),
        w.len() > 0,
        is_word(w),
    ensures
        jump_kind(u + seq![' '] + w) == if lowercase_ascii(u) == seq!['j', 'm', 'p'] {
            JumpView::Jmp(w)
        } else {
            JumpView::CondJmp(w)
        },
{
    let l = u + seq![' '] + w;
    let m = lowercase_ascii(u);
    let n = l.len() as int;
    let b = u.len() as int;
    assert forall|k: int| 0 <= k < n implies l[k] != ';' && l[k] != ':' by {
        if k < b {
            assert(l[k] == u[k]);
        } else if k > b {
            assert(l[k] == w[k - b - 1]);
        }
    }
    lemma_find_none(l, ';', 0);
    lemma_rfind_none(l, ':', n);
    assert(l.subrange(0, n) =~= l);
    assert(crate::util::instruction(l) =~= l);
    assert forall|k: int| 0 <= k < b implies !is_whitespace(l[k]) by {
        assert(l[k] == u[k]);
    }
    assert forall|k: int| b + 1 <= k < n implies !is_whitespace(l[k]) by {
        assert(l[k] == w[k - b - 1]);
    }
    assert(l[b] == ' ');
    assert(l[b + 1] == w[0]);
    lemma_skip_to(l, 0, 0);
    lemma_word_to(l, 0, b);
    lemma_skip_to(l, b, b + 1);
    lemma_word_to(l, b + 1, n);
    assert(l.subrange(0, b) =~= u);
    assert(l.subrange(b + 1, n) =~= w);
}

// ---------------------------------------------------------------------------
// Linking
// ---------------------------------------------------------------------------

proof fn lemma_owner_from(bs: Seq<BlockView>, l: Seq<char>, j: int)
    requires
        0 <= j,
        bs.len() <= usize::MAX,
    ensures
        match label_owner_from(bs, l, j) {
            Some(t) => j <= t < bs.len() && block_label(bs[t as int].text) == Some(l),
            None => true,
        },
    decreases bs.len() - j,
{
    if j < bs.len() {
        lemma_owner_from(bs, l, j + 1);
    }
}

/// Linking block `j` keeps its text; it changes where it leads (`next`) only
/// when its text jumps unconditionally to a label that a block has, and then
/// leads to a block with that label; it changes its branch (`next_branch`,
/// with its line) only when its text jumps conditionally to such a label, and
/// then branches to a block with that label. Else both stay as they were.
pub proof fn law_link_block(bs: Seq<BlockView>, j: int)
    requires
        0 <= j < bs.len(),
        bs.len() <= usize::MAX,
    ensures
        linked(bs, j).text == bs[j].text,
        match first_jump_from(bs[j].text, 0) {
            Some(l) => match label_owner(bs, l) {
                Some(t) => linked(bs, j).next == Some(t) && block_label(bs[t as int].text) == Some(l),
                None => linked(bs, j).next == bs[j].next,
            },
            None => linked(bs, j).next == bs[j].next,
        },
        match first_cond_from(bs[j].text, 0) {
            Some((l, k)) => match label_owner(bs, l) {
                Some(t) => linked(bs, j).next_branch == Some(t) && linked(bs, j).next_branch_line == k as usize
                    && block_label(bs[t as int].text) == Some(l),
                None => linked(bs, j).next_branch == bs[j].next_branch && linked(bs, j).next_branch_line
                    == bs[j].next_branch_line && linked(bs, j).next_branch_line_offset
                    == bs[j].next_branch_line_offset,
            },
            None => linked(bs, j).next_branch == bs[j].next_branch && linked(bs, j).next_branch_line
                == bs[j].next_branch_line && linked(bs, j).next_branch_line_offset
                == bs[j].next_branch_line_offset,
        },
{
    match first_jump_from(bs[j].text, 0) {
        Some(l) => lemma_owner_from(bs, l, 0),
        None => {},
    }
    match first_cond_from(bs[j].text, 0) {
        Some((l, k)) => lemma_owner_from(bs, l, 0),
        None => {},
    }
}

// ---------------------------------------------------------------------------
// Deleting a block
// ---------------------------------------------------------------------------

/// The index, before block `i` was deleted, of the block now at `j`.
pub open spec fn index_before_removal(i: int, j: int) -> int {
    if j < i {
        j
    } else {
        j + 1
    }
}

/// A reference `r` after block `i` is gone: none if it led to block `i` or
/// nowhere, else one to the same block at its new index.
pub open spec fn same_target(old: Option<usize>, new: Option<usize>, i: int) -> bool {
    match old {
        Some(t) => if t == i {
            new is None
        } else {
            new matches Some(t2) && index_before_removal(i, t2 as int) == t
        },
        None => new is None,
    }
}

/// Deleting block `i` keeps the other blocks, in order, with their texts and
/// lines, and every reference to a kept block leads to that same block;
/// references to block `i` lead nowhere.
pub proof fn law_remove_keeps_links(bs: Seq<BlockView>, i: int)
    requires
        0 <= i < bs.len(),
    ensures
        removed(bs, i).len() == bs.len() - 1,
        forall|j: int|
            0 <= j < bs.len() - 1 ==> {
                let o = bs[index_before_removal(i, j)];
                let b = #[trigger] removed(bs, i)[j];
                &&& b.text == o.text
                &&& b.next_branch_line == o.next_branch_line
                &&& b.next_branch_line_offset == o.next_branch_line_offset
                &&& same_target(o.next, b.next, i)
                &&& same_target(o.next_branch, b.next_branch, i)
            },
{
    assert forall|j: int| 0 <= j < bs.len() - 1 implies {
        let o = bs[index_before_removal(i, j)];
        let b = #[trigger] removed(bs, i)[j];
        &&& b.text == o.text
        &&& b.next_branch_line == o.next_branch_line
        &&& b.next_branch_line_offset == o.next_branch_line_offset
        &&& same_target(o.next, b.next, i)
        &&& same_target(o.next_branch, b.next_branch, i)
    } by {
        assert(bs.remove(i)[j] == bs[index_before_removal(i, j)]);
    }
}

} // verus!
