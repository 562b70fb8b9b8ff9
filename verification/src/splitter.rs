//! Splitting blocks so that each has at most one label, at the top, and at most
//! one unconditional jump, at the bottom, and one conditional jump.
use vstd::prelude::*;
use crate::codeblock::{labels_of, lemma_labels_lines, text_labels, BlockView, CodeBlock, views};
use crate::laws::{law_split_shapes_blocks, split_shape};
use crate::linker::line_jump;
use crate::text::{
    chars_of, lemma_line_end, lemma_line_starts_from, line_end_at, line_starts, line_starts_of,
    string_of,
};
use crate::util::{jump_in, JumpType, JumpView};

verus! {

/// Cut points `c` for a text `s`: strictly increasing, inside the text.
pub open spec fn cuts_ok(s: Seq<char>, c: Seq<int>) -> bool {
    &&& forall|m: int| 0 <= m < c.len() ==> 0 < #[trigger] c[m] < s.len()
    &&& forall|m: int, p: int| 0 <= m < p < c.len() ==> c[m] < c[p]
}

/// End of the piece that starts at cut `m`.
pub open spec fn piece_end(s: Seq<char>, c: Seq<int>, m: int) -> int {
    if m + 1 < c.len() {
        c[m + 1]
    } else {
        s.len() as int
    }
}

/// The block `b` after it is cut at `c`, when the pieces after the first are
/// placed from index `first` on: it keeps the text before the first cut and
/// leads to the piece after it.
pub open spec fn head_piece(b: BlockView, c: Seq<int>, first: int) -> BlockView {
    if c.len() == 0 {
        b
    } else {
        BlockView { text: b.text.subrange(0, c[0]), next: Some((first + c.len() - 1) as usize), ..b }
    }
}

/// The pieces after the first cut of `b` at `c`, placed from index `first` on,
/// the last piece first; each leads to the piece after it in the text, the
/// last to where `b` led.
pub open spec fn tail_pieces(b: BlockView, c: Seq<int>, first: int) -> Seq<BlockView> {
    Seq::new(
        c.len(),
        |t: int|
            {
                let m = c.len() - 1 - t;
                BlockView {
                    text: b.text.subrange(c[m], piece_end(b.text, c, m)),
                    next: if t == 0 {
                        b.next
                    } else {
                        Some((first + t - 1) as usize)
                    },
                    next_branch: None,
                    next_branch_line: 0,
                    next_branch_line_offset: 0,
                }
            },
    )
}

/// Number of cuts of the first `j` blocks.
pub open spec fn cuts_before(cuts: Seq<Seq<int>>, j: int) -> int
    decreases j,
{
    if j <= 0 {
        0
    } else {
        cuts_before(cuts, j - 1) + cuts[j - 1].len()
    }
}

/// The new pieces of the first `j` blocks, placed after the `n` blocks.
pub open spec fn tails_upto(bs: Seq<BlockView>, cuts: Seq<Seq<int>>, j: int) -> Seq<BlockView>
    decreases j,
{
    if j <= 0 {
        seq![]
    } else {
        tails_upto(bs, cuts, j - 1) + tail_pieces(
            bs[j - 1],
            cuts[j - 1],
            bs.len() + cuts_before(cuts, j - 1),
        )
    }
}

/// The blocks `bs` after block `j` is cut at `cuts[j]`, for every `j`: the
/// blocks keep their places, and the new pieces follow them, block by block.
pub open spec fn cut_blocks(bs: Seq<BlockView>, cuts: Seq<Seq<int>>) -> Seq<BlockView> {
    Seq::new(bs.len(), |j: int| head_piece(bs[j], cuts[j], bs.len() + cuts_before(cuts, j)))
        + tails_upto(bs, cuts, bs.len() as int)
}

/// For each new piece of the first `j` blocks, the block it was cut from.
pub open spec fn origins_upto(cuts: Seq<Seq<int>>, j: int) -> Seq<usize>
    decreases j,
{
    if j <= 0 {
        seq![]
    } else {
        origins_upto(cuts, j - 1) + Seq::new(cuts[j - 1].len(), |t: int| (j - 1) as usize)
    }
}

pub proof fn lemma_cuts_before(bs: Seq<BlockView>, cuts: Seq<Seq<int>>, j: int)
    requires
        0 <= j <= bs.len(),
        cuts.len() == bs.len(),
    ensures
        tails_upto(bs, cuts, j).len() == cuts_before(cuts, j),
        origins_upto(cuts, j).len() == cuts_before(cuts, j),
        cuts_before(cuts, j) >= 0,
    decreases j,
{
    if j > 0 {
        lemma_cuts_before(bs, cuts, j - 1);
    }
}

/// Cuts the blocks of `code`, block `j` at `cuts[j]` (character indices of its
/// text), and returns, for each new block, the block it was cut from.
fn cut(code: &mut Vec<CodeBlock>, cuts: &Vec<Vec<usize>>, Ghost(gcuts): Ghost<Seq<Seq<int>>>) -> (origins: Vec<usize>)
    requires
        cuts@.len() == old(code)@.len(),
        gcuts.len() == cuts@.len(),
        forall|j: int|
            0 <= j < cuts@.len() ==> (#[trigger] cuts@[j])@.len() == gcuts[j].len() && forall|m: int|
                0 <= m < gcuts[j].len() ==> cuts@[j]@[m] as int == #[trigger] gcuts[j][m],
        forall|j: int| 0 <= j < cuts@.len() ==> cuts_ok(#[trigger] old(code)@[j].text@, gcuts[j]),
    ensures
        views(final(code)@) == cut_blocks(views(old(code)@), gcuts),
        origins@ == origins_upto(gcuts, old(code)@.len() as int),
{
    let ghost bs = views(code@);
    let n = code.len();
    let mut all: Vec<CodeBlock> = Vec::new();
    let mut j: usize = 0;
    while j < n
        invariant
            n == code@.len(),
            bs == views(code@),
            j <= n,
            all@.len() == j,
            forall|i: int| 0 <= i < j ==> (#[trigger] all@[i])@ == bs[i],
        decreases n - j,
    {
        let b = &code[j];
        all.push(
            CodeBlock {
                text: b.text.clone(),
                next: b.next,
                next_branch: b.next_branch,
                next_branch_line: b.next_branch_line,
                next_branch_line_offset: b.next_branch_line_offset,
            },
        );
        j = j + 1;
    }
    let mut origins: Vec<usize> = Vec::new();
    j = 0;
    proof {
        lemma_cuts_before(bs, gcuts, 0);
        assert(all@.subrange(n as int, all@.len() as int) =~= Seq::<CodeBlock>::empty());
    }
    while j < n
        invariant
            n == bs.len(),
            cuts@.len() == n,
            gcuts.len() == n,
            forall|i: int|
                0 <= i < cuts@.len() ==> (#[trigger] cuts@[i])@.len() == gcuts[i].len() && forall|m: int|
                    0 <= m < gcuts[i].len() ==> cuts@[i]@[m] as int == #[trigger] gcuts[i][m],
            forall|i: int| 0 <= i < n ==> cuts_ok(#[trigger] bs[i].text, gcuts[i]),
            j <= n,
            all@.len() == n + cuts_before(gcuts, j as int),
            forall|i: int|
                0 <= i < j ==> (#[trigger] all@[i])@ == head_piece(
                    bs[i],
                    gcuts[i],
                    n + cuts_before(gcuts, i),
                ),
            forall|i: int| j <= i < n ==> (#[trigger] all@[i])@ == bs[i],
            views(all@.subrange(n as int, all@.len() as int)) == tails_upto(bs, gcuts, j as int),
            origins@ == origins_upto(gcuts, j as int),
        decreases n - j,
    {
        proof {
            lemma_cuts_before(bs, gcuts, j as int);
            lemma_cuts_before(bs, gcuts, j + 1);
        }
        let ghost b = bs[j as int];
        let ghost c = gcuts[j as int];
        let ghost first = n + cuts_before(gcuts, j as int);
        assert(all@[j as int]@ == b);
        let s = chars_of(all[j].text.as_str());
        let cj = &cuts[j];
        let k = cj.len();
        let orig_next = all[j].next;
        let ghost tails0 = tails_upto(bs, gcuts, j as int);
        let ghost all0 = all@;
        let mut t: usize = 0;
        while t < k
            invariant
                n == bs.len(),
                k == c.len(),
                cj@.len() == c.len(),
                forall|m: int| 0 <= m < c.len() ==> cj@[m] as int == #[trigger] c[m],
                cuts_ok(b.text, c),
                s@ == b.text,
                orig_next == b.next,
                t <= k,
                first == n + cuts_before(gcuts, j as int),
                cuts_before(gcuts, j as int) >= 0,
                all@.len() == first + t,
                forall|i: int| 0 <= i < n ==> #[trigger] all@[i] == all0[i],
                views(all@.subrange(n as int, all@.len() as int)) == tails0 + tail_pieces(b, c, first).subrange(0, t as int),
                origins@ == origins_upto(gcuts, j as int) + Seq::new(t as nat, |x: int| j as usize),
            decreases k - t,
        {
            let m = k - 1 - t;
            let from = cj[m];
            let to = if m + 1 < k {
                cj[m + 1]
            } else {
                s.len()
            };
            proof {
                assert(c[m as int] == from);
                if m + 1 < k {
                    assert(c[m + 1] == to);
                }
            }
            let next = if t == 0 {
                orig_next
            } else {
                Some(all.len() - 1)
            };
            let piece = CodeBlock {
                text: string_of(&s, from, to),
                next,
                next_branch: None,
                next_branch_line: 0,
                next_branch_line_offset: 0,
            };
            assert(piece@ == tail_pieces(b, c, first)[t as int]);
            let ghost before = all@;
            all.push(piece);
            origins.push(j);
            proof {
                assert(all@.subrange(n as int, all@.len() as int) =~= before.subrange(
                    n as int,
                    before.len() as int,
                ).push(piece));
                assert(tail_pieces(b, c, first).subrange(0, t + 1) =~= tail_pieces(
                    b,
                    c,
                    first,
                ).subrange(0, t as int).push(piece@));
                assert(views(all@.subrange(n as int, all@.len() as int)) =~= views(
                    before.subrange(n as int, before.len() as int),
                ).push(piece@));
                assert(origins@ =~= origins_upto(gcuts, j as int) + Seq::new(
                    (t + 1) as nat,
                    |x: int| j as usize,
                ));
            }
            t = t + 1;
        }
        proof {
            assert(tail_pieces(b, c, first).subrange(0, k as int) =~= tail_pieces(b, c, first));
            assert(origins@ =~= origins_upto(gcuts, j + 1));
        }
        if k > 0 {
            let head = CodeBlock {
                text: string_of(&s, 0, cj[0]),
                next: Some(all.len() - 1),
                next_branch: all[j].next_branch,
                next_branch_line: all[j].next_branch_line,
                next_branch_line_offset: all[j].next_branch_line_offset,
            };
            assert(head@ == head_piece(b, c, first));
            let ghost before = all@;
            all.set(j, head);
            assert(all@.subrange(n as int, all@.len() as int) =~= before.subrange(
                n as int,
                before.len() as int,
            ));
        }
        j = j + 1;
    }
    proof {
        lemma_cuts_before(bs, gcuts, n as int);
        assert(views(all@) =~= cut_blocks(bs, gcuts)) by {
            let front = Seq::new(
                bs.len(),
                |i: int| head_piece(bs[i], gcuts[i], bs.len() + cuts_before(gcuts, i)),
            );
            assert(all@ =~= all@.subrange(0, n as int) + all@.subrange(n as int, all@.len() as int));
            assert(views(all@.subrange(0, n as int)) =~= front);
        }
    }
    *code = all;
    origins
}

/// How many labels of `s` come first and are on its first line (the label of
/// the first piece, which needs no cut).
pub open spec fn labels_on_first_line(s: Seq<char>) -> int {
    if text_labels(s).len() > 0 && text_labels(s)[0].1 == 0 {
        1
    } else {
        0
    }
}

/// Where a block is cut so that each piece has at most one label, on its first
/// line: at the start of the line of every label that is not on the first
/// line of the block.
pub open spec fn label_cuts(s: Seq<char>) -> Seq<int> {
    text_labels(s).skip(labels_on_first_line(s)).map_values(|p: (Seq<char>, int)| p.1)
}

/// Whether the cutting after jumps cuts before line `k` of `s`: after a line
/// with an unconditional jump (`jump`), or at a conditional jump when the
/// current piece already holds one (`cond`).
pub open spec fn jump_cut_here(s: Seq<char>, k: int, jump: bool, cond: bool) -> bool {
    jump || (line_jump(s, k) is CondJmp && cond)
}

/// Whether the piece that holds line `k` holds a conditional jump up to it.
pub open spec fn jump_cond_after(s: Seq<char>, k: int, jump: bool, cond: bool) -> bool {
    if jump_cut_here(s, k, jump, cond) {
        line_jump(s, k) is CondJmp
    } else {
        cond || line_jump(s, k) is CondJmp
    }
}

/// Where a block is cut after the jumps of its lines from line `k` on, when
/// the line before held an unconditional jump (`jump`) and the current piece
/// holds a conditional jump (`cond`): a new piece starts after a line with an
/// unconditional jump, and at a second conditional jump; every line is looked
/// at, the first line of a new piece too.
pub open spec fn jump_cuts_from(s: Seq<char>, k: int, jump: bool, cond: bool) -> Seq<int>
    decreases line_starts(s).len() - k,
{
    if 0 <= k < line_starts(s).len() {
        let rest = jump_cuts_from(
            s,
            k + 1,
            line_jump(s, k) is Jmp,
            jump_cond_after(s, k, jump, cond),
        );
        if jump_cut_here(s, k, jump, cond) {
            seq![line_starts(s)[k]] + rest
        } else {
            rest
        }
    } else {
        seq![]
    }
}

/// Where a block is cut so that an unconditional jump ends its piece and no
/// piece holds two conditional jumps.
pub open spec fn jump_cuts(s: Seq<char>) -> Seq<int> {
    jump_cuts_from(s, 0, false, false)
}

/// Labels come in the order of their lines, inside the text.
pub proof fn lemma_labels_in_lines_order(s: Seq<char>, n: int)
    requires
        0 <= n <= line_starts(s).len(),
    ensures
        forall|a: int, b: int|
            0 <= a < b < labels_in_lines_len(s, n) ==> labels_line(s, n, a) < labels_line(s, n, b),
        forall|a: int|
            0 <= a < labels_in_lines_len(s, n) ==> 0 <= labels_line(s, n, a) < s.len() && (n > 0
                ==> labels_line(s, n, a) <= line_starts(s)[n - 1]),
    decreases n,
{
    lemma_line_starts_from(s, 0);
    if n > 0 {
        lemma_labels_in_lines_order(s, n - 1);
        let prev = crate::codeblock::labels_in_lines(s, n - 1);
        let cur = crate::codeblock::labels_in_lines(s, n);
        let st = line_starts(s)[n - 1];
        assert(0 <= st < s.len());
        if n > 1 {
            assert(line_starts(s)[n - 2] < line_starts(s)[n - 1]);
        }
        assert forall|a: int| 0 <= a < prev.len() implies cur[a] == prev[a] && prev[a].1 < st by {
            assert(labels_line(s, n - 1, a) == prev[a].1);
            match crate::codeblock::line_label(crate::text::line_at(s, st)) {
                Some(lb) => {
                    assert(cur == prev.push((lb, st)));
                },
                None => {},
            }
        }
        match crate::codeblock::line_label(crate::text::line_at(s, st)) {
            Some(lb) => {
                assert(cur == prev.push((lb, st)));
            },
            None => {
                assert(cur == prev);
            },
        }
        assert forall|a: int, b: int|
            0 <= a < b < labels_in_lines_len(s, n) implies labels_line(s, n, a) < labels_line(
            s,
            n,
            b,
        ) by {
            assert(cur[a] == prev[a]);
            if b < prev.len() {
                assert(cur[b] == prev[b]);
                assert(labels_line(s, n - 1, a) < labels_line(s, n - 1, b));
            }
        }
        assert forall|a: int| 0 <= a < labels_in_lines_len(s, n) implies 0 <= labels_line(s, n, a)
            < s.len() && labels_line(s, n, a) <= line_starts(s)[n - 1] by {
            if a < prev.len() {
                assert(cur[a] == prev[a]);
                assert(labels_line(s, n - 1, a) == prev[a].1);
            } else {
                assert(cur[a].1 == st);
            }
        }
    }
}

pub open spec fn labels_in_lines_len(s: Seq<char>, n: int) -> int {
    crate::codeblock::labels_in_lines(s, n).len() as int
}

pub open spec fn labels_line(s: Seq<char>, n: int, a: int) -> int {
    crate::codeblock::labels_in_lines(s, n)[a].1
}

pub proof fn lemma_label_cuts_ok(s: Seq<char>)
    ensures
        cuts_ok(s, label_cuts(s)),
{
    let n = line_starts(s).len() as int;
    lemma_labels_in_lines_order(s, n);
    let l = text_labels(s);
    let f = labels_on_first_line(s);
    let c = label_cuts(s);
    assert forall|m: int| 0 <= m < c.len() implies 0 < #[trigger] c[m] < s.len() by {
        assert(c[m] == labels_line(s, n, m + f));
        if f == 1 {
            assert(labels_line(s, n, 0) < labels_line(s, n, m + 1));
        } else if m > 0 {
            assert(labels_line(s, n, 0) < labels_line(s, n, m));
        }
    }
    assert forall|m: int, p: int| 0 <= m < p < c.len() implies c[m] < c[p] by {
        assert(c[m] == labels_line(s, n, m + f));
        assert(c[p] == labels_line(s, n, p + f));
    }
}

pub proof fn lemma_jump_cuts_from(s: Seq<char>, k: int, jump: bool, cond: bool)
    requires
        0 <= k,
    ensures
        ({
            let c = jump_cuts_from(s, k, jump, cond);
            &&& forall|m: int| 0 <= m < c.len() ==> 0 <= #[trigger] c[m] < s.len()
            &&& forall|m: int, p: int| 0 <= m < p < c.len() ==> c[m] < c[p]
            &&& k < line_starts(s).len() ==> forall|m: int|
                0 <= m < c.len() ==> line_starts(s)[k] <= #[trigger] c[m] && (!jump && !cond
                    ==> line_starts(s)[k] < c[m])
        }),
    decreases line_starts(s).len() - k,
{
    lemma_line_starts_from(s, 0);
    let ls = line_starts(s);
    if k < ls.len() {
        let st = ls[k];
        let nj = line_jump(s, k) is Jmp;
        let nc = jump_cond_after(s, k, jump, cond);
        lemma_jump_cuts_from(s, k + 1, nj, nc);
        let rest = jump_cuts_from(s, k + 1, nj, nc);
        let c = jump_cuts_from(s, k, jump, cond);
        if k + 1 < ls.len() {
            assert(st < ls[k + 1]);
        }
        assert(c == rest || c == seq![st] + rest);
        assert forall|m: int| 0 <= m < c.len() implies 0 <= #[trigger] c[m] < s.len() by {
            if c != rest && m > 0 {
                assert(c[m] == rest[m - 1]);
            }
        }
        assert forall|m: int, p: int| 0 <= m < p < c.len() implies c[m] < c[p] by {
            if c != rest {
                assert(c[p] == rest[p - 1]);
                if m > 0 {
                    assert(c[m] == rest[m - 1]);
                }
            }
        }
        assert forall|m: int| 0 <= m < c.len() implies st <= #[trigger] c[m] && (!jump && !cond
            ==> st < c[m]) by {
            if c != rest {
                if m > 0 {
                    assert(c[m] == rest[m - 1]);
                }
            }
        }
    }
}

pub proof fn lemma_jump_cuts_ok(s: Seq<char>)
    ensures
        cuts_ok(s, jump_cuts(s)),
{
    lemma_jump_cuts_from(s, 0, false, false);
    lemma_line_starts_from(s, 0);
}

/// The cut points of every block.
pub open spec fn all_label_cuts(bs: Seq<BlockView>) -> Seq<Seq<int>> {
    bs.map_values(|b: BlockView| label_cuts(b.text))
}

/// The cut points of every block.
pub open spec fn all_jump_cuts(bs: Seq<BlockView>) -> Seq<Seq<int>> {
    bs.map_values(|b: BlockView| jump_cuts(b.text))
}

/// The label cut points of the text `s`.
fn label_cuts_of(s: &Vec<char>) -> (r: Vec<usize>)
    ensures
        r@.len() == label_cuts(s@).len(),
        forall|m: int| 0 <= m < r@.len() ==> r@[m] as int == #[trigger] label_cuts(s@)[m],
{
    let starts = line_starts_of(s);
    let labels = labels_of(s, &starts);
    let ghost f = labels_on_first_line(s@);
    let first: usize = if labels.len() > 0 && labels[0].line == 0 {
        1
    } else {
        0
    };
    assert(first == f);
    let mut r: Vec<usize> = Vec::new();
    let mut k: usize = first;
    while k < labels.len()
        invariant
            crate::codeblock::labels_match(s@, labels@),
            first == labels_on_first_line(s@),
            first <= k <= labels@.len(),
            r@.len() == k - first,
            forall|m: int| 0 <= m < r@.len() ==> r@[m] as int == #[trigger] label_cuts(s@)[m],
        decreases labels.len() - k,
    {
        r.push(labels[k].line);
        k = k + 1;
    }
    r
}

/// The jump cut points of the text `s`.
fn jump_cuts_of(s: &Vec<char>) -> (r: Vec<usize>)
    ensures
        r@.len() == jump_cuts(s@).len(),
        forall|m: int| 0 <= m < r@.len() ==> r@[m] as int == #[trigger] jump_cuts(s@)[m],
{
    let starts = line_starts_of(s);
    let mut r: Vec<usize> = Vec::new();
    let ghost mut g: Seq<int> = seq![];
    let mut jump = false;
    let mut cond = false;
    let mut k: usize = 0;
    proof {
        lemma_line_starts_from(s@, 0);
    }
    while k < starts.len()
        invariant
            k <= starts@.len(),
            starts@.len() == line_starts(s@).len(),
            forall|i: int| 0 <= i < starts@.len() ==> starts@[i] as int == #[trigger] line_starts(s@)[i],
            forall|i: int| 0 <= i < line_starts(s@).len() ==> 0 <= #[trigger] line_starts(s@)[i] < s@.len(),
            r@.len() == g.len(),
            forall|m: int| 0 <= m < r@.len() ==> r@[m] as int == #[trigger] g[m],
            jump_cuts(s@) == g + jump_cuts_from(s@, k as int, jump, cond),
        decreases starts.len() - k,
    {
        let st = starts[k];
        assert(st == line_starts(s@)[k as int]);
        let en = line_end_at(s, st);
        proof {
            lemma_line_end(s@, st as int);
        }
        let j = jump_in(s, st, en);
        assert(j@ == line_jump(s@, k as int));
        let is_jmp = match j {
            JumpType::Jmp(_) => true,
            _ => false,
        };
        let is_cond = match j {
            JumpType::CondJmp(_) => true,
            _ => false,
        };
        let here = jump || (is_cond && cond);
        let ghost nrest = jump_cuts_from(s@, k + 1, is_jmp, jump_cond_after(s@, k as int, jump, cond));
        if here {
            r.push(st);
            proof {
                g = g.push(st as int);
                assert(jump_cuts(s@) =~= g + nrest);
            }
            cond = is_cond;
        } else {
            cond = cond || is_cond;
        }
        jump = is_jmp;
        k = k + 1;
    }
    assert(g =~= jump_cuts(s@));
    r
}

/// Cuts every block of `code` at the cut points that `jumps` selects (jump cuts
/// when true, label cuts when false).
fn cut_all(code: &mut Vec<CodeBlock>, jumps: bool) -> (origins: Vec<usize>)
    ensures
        views(final(code)@) == cut_blocks(
            views(old(code)@),
            if jumps {
                all_jump_cuts(views(old(code)@))
            } else {
                all_label_cuts(views(old(code)@))
            },
        ),
        origins@ == origins_upto(
            if jumps {
                all_jump_cuts(views(old(code)@))
            } else {
                all_label_cuts(views(old(code)@))
            },
            old(code)@.len() as int,
        ),
{
    let ghost bs = views(code@);
    let ghost gcuts = if jumps {
        all_jump_cuts(bs)
    } else {
        all_label_cuts(bs)
    };
    let mut cuts: Vec<Vec<usize>> = Vec::new();
    let mut j: usize = 0;
    while j < code.len()
        invariant
            bs == views(code@),
            gcuts == if jumps {
                all_jump_cuts(bs)
            } else {
                all_label_cuts(bs)
            },
            j <= code@.len(),
            cuts@.len() == j,
            forall|i: int|
                0 <= i < j ==> (#[trigger] cuts@[i])@.len() == gcuts[i].len() && forall|m: int|
                    0 <= m < gcuts[i].len() ==> cuts@[i]@[m] as int == #[trigger] gcuts[i][m],
        decreases code.len() - j,
    {
        let s = chars_of(code[j].text.as_str());
        assert(s@ == bs[j as int].text);
        let c = if jumps {
            jump_cuts_of(&s)
        } else {
            label_cuts_of(&s)
        };
        cuts.push(c);
        j = j + 1;
    }
    assert forall|i: int| 0 <= i < cuts@.len() implies cuts_ok(#[trigger] code@[i].text@, gcuts[i]) by {
        assert(code@[i].text@ == bs[i].text);
        if jumps {
            lemma_jump_cuts_ok(bs[i].text);
        } else {
            lemma_label_cuts_ok(bs[i].text);
        }
    }
    cut(code, &cuts, Ghost(gcuts))
}

/// The blocks after `split`: first cut at labels, then at jumps.
pub open spec fn split_blocks(bs: Seq<BlockView>) -> Seq<BlockView> {
    let mid = cut_blocks(bs, all_label_cuts(bs));
    cut_blocks(mid, all_jump_cuts(mid))
}

/// For each block that `split` adds, the block it was cut from (so it takes
/// that block's place, shifted down).
pub open spec fn split_origins(bs: Seq<BlockView>) -> Seq<usize> {
    let mid = cut_blocks(bs, all_label_cuts(bs));
    origins_upto(all_label_cuts(bs), bs.len() as int) + origins_upto(
        all_jump_cuts(mid),
        mid.len() as int,
    )
}

/// Splits the blocks so that each has at most one label, on its first line,
/// at most one unconditional jump, on its last line, and at most one
/// conditional jump. The new blocks are added after the old ones; the result
/// gives, for each of them in order, the block it was cut from.
pub fn split(code: &mut Vec<CodeBlock>) -> (origins: Vec<usize>)
    ensures
        views(final(code)@) == split_blocks(views(old(code)@)),
        origins@ == split_origins(views(old(code)@)),
        forall|i: int| 0 <= i < final(code)@.len() ==> split_shape(#[trigger] final(code)@[i].text@),
{
    let ghost bs = views(code@);
    let mut o1 = cut_all(code, false);
    let mut o2 = cut_all(code, true);
    o1.append(&mut o2);
    proof {
        law_split_shapes_blocks(bs);
        assert(views(code@) == split_blocks(bs));
        assert forall|i: int| 0 <= i < code@.len() implies split_shape(#[trigger] code@[i].text@) by {
            assert(views(code@)[i] == code@[i]@);
            assert(split_blocks(bs)[i].text == code@[i].text@);
        }
    }
    o1
}

} // verus!
