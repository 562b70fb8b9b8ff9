//! The shape of blocks after splitting: counts of labels and jumps over lines.
use vstd::prelude::*;
use crate::codeblock::{labels_in_lines, line_label, text_labels};
use crate::linker::{cond_count, jump_count, line_jump};
use crate::splitter::{jump_cuts_from, label_cuts};
use crate::text::{lemma_line_starts_from, line_at, line_starts, lines};
use crate::util::{jump_kind, JumpView};

verus! {

/// How many of the lines `ls` define a label.
pub open spec fn count_labels(ls: Seq<Seq<char>>) -> int
    decreases ls.len(),
{
    if ls.len() == 0 {
        0
    } else {
        count_labels(ls.drop_last()) + if line_label(ls.last()) is Some {
            1int
        } else {
            0
        }
    }
}

/// How many of the lines `ls` hold an unconditional jump.
pub open spec fn count_jumps(ls: Seq<Seq<char>>) -> int
    decreases ls.len(),
{
    if ls.len() == 0 {
        0
    } else {
        count_jumps(ls.drop_last()) + if jump_kind(ls.last()) is Jmp {
            1int
        } else {
            0
        }
    }
}

/// How many of the lines `ls` hold a conditional jump.
pub open spec fn count_conds(ls: Seq<Seq<char>>) -> int
    decreases ls.len(),
{
    if ls.len() == 0 {
        0
    } else {
        count_conds(ls.drop_last()) + if jump_kind(ls.last()) is CondJmp {
            1int
        } else {
            0
        }
    }
}

pub proof fn lemma_counts_add(a: Seq<Seq<char>>, b: Seq<Seq<char>>)
    ensures
        count_labels(a + b) == count_labels(a) + count_labels(b),
        count_jumps(a + b) == count_jumps(a) + count_jumps(b),
        count_conds(a + b) == count_conds(a) + count_conds(b),
        count_labels(a) >= 0,
        count_jumps(a) >= 0,
        count_conds(a) >= 0,
    decreases a.len() + b.len(),
{
    if b.len() == 0 {
        assert(a + b =~= a);
        if a.len() > 0 {
            lemma_counts_add(a.drop_last(), b);
        }
    } else {
        lemma_counts_add(a, b.drop_last());
        assert((a + b).drop_last() =~= a + b.drop_last());
        assert((a + b).last() == b.last());
    }
}

/// The counts over the lines of a text are those the library's specifications use.
pub proof fn lemma_counts_of_text(s: Seq<char>, n: int)
    requires
        0 <= n <= line_starts(s).len(),
    ensures
        labels_in_lines(s, n).len() == count_labels(lines(s).take(n)),
        jump_count(s, n) == count_jumps(lines(s).take(n)),
        cond_count(s, n) == count_conds(lines(s).take(n)),
    decreases n,
{
    if n > 0 {
        lemma_counts_of_text(s, n - 1);
        assert(lines(s).take(n).drop_last() =~= lines(s).take(n - 1));
        assert(lines(s).take(n).last() == line_at(s, line_starts(s)[n - 1]));
        assert(line_jump(s, n - 1) == jump_kind(lines(s)[n - 1]));
    } else {
        assert(lines(s).take(0) =~= Seq::<Seq<char>>::empty());
    }
}

/// The counts over all the lines of a text.
pub proof fn lemma_counts_of_whole_text(s: Seq<char>)
    ensures
        text_labels(s).len() == count_labels(lines(s)),
        jump_count(s, line_starts(s).len() as int) == count_jumps(lines(s)),
        cond_count(s, line_starts(s).len() as int) == count_conds(lines(s)),
{
    lemma_counts_of_text(s, line_starts(s).len() as int);
    assert(lines(s).take(line_starts(s).len() as int) =~= lines(s));
}

/// Whether the cutting cuts before line `k`.
pub open spec fn cuts_here(ls: Seq<Seq<char>>, k: int, jump: bool, cond: bool) -> bool {
    jump || (jump_kind(ls[k]) is CondJmp && cond)
}

/// Whether line `k` ends its piece with an unconditional jump.
pub open spec fn next_jump(ls: Seq<Seq<char>>, k: int) -> bool {
    jump_kind(ls[k]) is Jmp
}

/// Whether the piece that holds line `k` holds a conditional jump up to it.
pub open spec fn next_cond(ls: Seq<Seq<char>>, k: int, jump: bool, cond: bool) -> bool {
    if cuts_here(ls, k, jump, cond) {
        jump_kind(ls[k]) is CondJmp
    } else {
        cond || jump_kind(ls[k]) is CondJmp
    }
}

/// Line indices where a block is cut after jumps: the same decisions as
/// `jump_cuts_from`, over the lines `ls`.
pub open spec fn jump_cut_lines(ls: Seq<Seq<char>>, k: int, jump: bool, cond: bool) -> Seq<int>
    decreases ls.len() - k,
{
    if 0 <= k < ls.len() {
        let rest = jump_cut_lines(ls, k + 1, next_jump(ls, k), next_cond(ls, k, jump, cond));
        if cuts_here(ls, k, jump, cond) {
            seq![k] + rest
        } else {
            rest
        }
    } else {
        seq![]
    }
}

pub proof fn lemma_jump_cut_lines(s: Seq<char>, k: int, jump: bool, cond: bool)
    requires
        0 <= k,
    ensures
        jump_cuts_from(s, k, jump, cond) == jump_cut_lines(lines(s), k, jump, cond).map_values(
            |i: int| line_starts(s)[i],
        ),
    decreases line_starts(s).len() - k,
{
    let ls = lines(s);
    if k < line_starts(s).len() {
        assert(line_jump(s, k) == jump_kind(ls[k]));
        let nj = next_jump(ls, k);
        let nc = next_cond(ls, k, jump, cond);
        lemma_jump_cut_lines(s, k + 1, nj, nc);
        let r = jump_cut_lines(ls, k + 1, nj, nc);
        assert((seq![k] + r).map_values(|i: int| line_starts(s)[i]) =~= seq![line_starts(s)[k]]
            + r.map_values(|i: int| line_starts(s)[i]));
    } else {
        assert(jump_cut_lines(ls, k, jump, cond).map_values(|i: int| line_starts(s)[i])
            =~= Seq::<int>::empty());
    }
}

/// A piece of lines has the shape that `split` aims at: at most one
/// unconditional jump, on its last line, and at most one conditional jump.
pub open spec fn jumps_shaped(ls: Seq<Seq<char>>) -> bool {
    &&& count_jumps(ls) <= 1
    &&& count_conds(ls) <= 1
    &&& forall|k: int| 0 <= k < ls.len() - 1 ==> !(jump_kind(#[trigger] ls[k]) is Jmp)
}

/// The pieces of `ls` from line `p` on, cut at the line indices `c`, all
/// have the shape.
pub open spec fn pieces_shaped(ls: Seq<Seq<char>>, p: int, c: Seq<int>) -> bool
    decreases c.len(),
{
    if c.len() == 0 {
        jumps_shaped(ls.subrange(p, ls.len() as int))
    } else {
        jumps_shaped(ls.subrange(p, c[0])) && pieces_shaped(ls, c[0], c.drop_first())
    }
}

/// The piece of lines `[p, k)` read so far, with the state of the cutting.
pub open spec fn piece_state(ls: Seq<Seq<char>>, p: int, k: int, jump: bool, cond: bool) -> bool {
    let piece = ls.subrange(p, k);
    &&& 0 <= p <= k <= ls.len()
    &&& jump == (k > p && jump_kind(ls[k - 1]) is Jmp)
    &&& count_jumps(piece) <= 1
    &&& forall|i: int| p <= i < k - 1 ==> !(jump_kind(#[trigger] ls[i]) is Jmp)
    &&& cond == (count_conds(piece) == 1)
    &&& count_conds(piece) <= 1
}

proof fn lemma_piece_extend(ls: Seq<Seq<char>>, p: int, k: int)
    requires
        0 <= p <= k < ls.len(),
    ensures
        count_jumps(ls.subrange(p, k + 1)) == count_jumps(ls.subrange(p, k)) + if jump_kind(
            ls[k],
        ) is Jmp {
            1int
        } else {
            0
        },
        count_conds(ls.subrange(p, k + 1)) == count_conds(ls.subrange(p, k)) + if jump_kind(
            ls[k],
        ) is CondJmp {
            1int
        } else {
            0
        },
        count_jumps(ls.subrange(p, k)) >= 0,
        count_conds(ls.subrange(p, k)) >= 0,
{
    assert(ls.subrange(p, k + 1).drop_last() =~= ls.subrange(p, k));
    lemma_counts_add(ls.subrange(p, k), seq![]);
}

proof fn lemma_state_shaped(ls: Seq<Seq<char>>, p: int, k: int, jump: bool, cond: bool)
    requires
        piece_state(ls, p, k, jump, cond),
    ensures
        jumps_shaped(ls.subrange(p, k)),
{
    let piece = ls.subrange(p, k);
    assert forall|i: int| 0 <= i < piece.len() - 1 implies !(jump_kind(#[trigger] piece[i]) is Jmp) by {
        assert(piece[i] == ls[p + i]);
    }
}

/// One step of the cuts after jumps.
pub proof fn lemma_cut_step(ls: Seq<Seq<char>>, k: int, jump: bool, cond: bool)
    requires
        0 <= k < ls.len(),
    ensures
        jump_cut_lines(ls, k, jump, cond) == (if cuts_here(ls, k, jump, cond) {
            seq![k]
        } else {
            seq![]
        }) + jump_cut_lines(ls, k + 1, next_jump(ls, k), next_cond(ls, k, jump, cond)),
{
    let r = jump_cut_lines(ls, k + 1, next_jump(ls, k), next_cond(ls, k, jump, cond));
    assert(Seq::<int>::empty() + r =~= r);
}

proof fn lemma_no_jumps(ls: Seq<Seq<char>>, p: int, k: int)
    requires
        0 <= p <= k <= ls.len(),
        forall|i: int| p <= i < k ==> !(jump_kind(#[trigger] ls[i]) is Jmp),
    ensures
        count_jumps(ls.subrange(p, k)) == 0,
    decreases k - p,
{
    if k > p {
        lemma_no_jumps(ls, p, k - 1);
        lemma_piece_extend(ls, p, k - 1);
    } else {
        assert(ls.subrange(p, k) =~= Seq::<Seq<char>>::empty());
    }
}

proof fn lemma_state_cut(ls: Seq<Seq<char>>, p: int, k: int, jump: bool, cond: bool)
    requires
        piece_state(ls, p, k, jump, cond),
        k < ls.len(),
        cuts_here(ls, k, jump, cond),
    ensures
        piece_state(ls, k, k + 1, next_jump(ls, k), next_cond(ls, k, jump, cond)),
        jumps_shaped(ls.subrange(p, k)),
{
    lemma_piece_extend(ls, k, k);
    assert(ls.subrange(k, k) =~= Seq::<Seq<char>>::empty());
    lemma_state_shaped(ls, p, k, jump, cond);
}

proof fn lemma_state_extend(ls: Seq<Seq<char>>, p: int, k: int, jump: bool, cond: bool)
    requires
        piece_state(ls, p, k, jump, cond),
        k < ls.len(),
        !cuts_here(ls, k, jump, cond),
    ensures
        piece_state(ls, p, k + 1, next_jump(ls, k), next_cond(ls, k, jump, cond)),
{
    lemma_piece_extend(ls, p, k);
    assert(!jump);
    lemma_no_jumps(ls, p, k);
}

proof fn lemma_state_step(ls: Seq<Seq<char>>, p: int, k: int, jump: bool, cond: bool)
    requires
        piece_state(ls, p, k, jump, cond),
        k < ls.len(),
    ensures
        piece_state(
            ls,
            if cuts_here(ls, k, jump, cond) {
                k
            } else {
                p
            },
            k + 1,
            next_jump(ls, k),
            next_cond(ls, k, jump, cond),
        ),
        cuts_here(ls, k, jump, cond) ==> jumps_shaped(ls.subrange(p, k)),
{
    if cuts_here(ls, k, jump, cond) {
        lemma_state_cut(ls, p, k, jump, cond);
    } else {
        lemma_state_extend(ls, p, k, jump, cond);
    }
}

/// Cutting after jumps gives pieces of the shape.
pub proof fn lemma_jump_pieces(ls: Seq<Seq<char>>, p: int, k: int, jump: bool, cond: bool)
    requires
        piece_state(ls, p, k, jump, cond),
    ensures
        pieces_shaped(ls, p, jump_cut_lines(ls, k, jump, cond)),
    decreases ls.len() - k,
{
    if k < ls.len() {
        let here = cuts_here(ls, k, jump, cond);
        let np = if here {
            k
        } else {
            p
        };
        let nj = next_jump(ls, k);
        let nc = next_cond(ls, k, jump, cond);
        lemma_cut_step(ls, k, jump, cond);
        lemma_state_step(ls, p, k, jump, cond);
        lemma_jump_pieces(ls, np, k + 1, nj, nc);
        let rest = jump_cut_lines(ls, k + 1, nj, nc);
        if here {
            assert(jump_cut_lines(ls, k, jump, cond) == seq![k] + rest);
            assert((seq![k] + rest).drop_first() =~= rest);
        }
    } else {
        lemma_state_shaped(ls, p, k, jump, cond);
        assert(ls.subrange(p, ls.len() as int) == ls.subrange(p, k));
    }
}

} // verus!
