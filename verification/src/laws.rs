//! Laws of the library: what splitting gives, and that its result can be
//! linked.
use vstd::prelude::*;
use crate::codeblock::{labels_in_lines, line_label, text_labels, BlockView};
use crate::lines::{lemma_lines_of_range, line_bound};
use crate::shape::{
    count_labels, jump_cut_lines, jumps_shaped, lemma_jump_cut_lines, lemma_jump_pieces,
    piece_state, pieces_shaped, lemma_counts_add, count_jumps, count_conds,
};
use crate::splitter::{
    cut_blocks, cuts_before, head_piece, jump_cuts, jump_cuts_from, label_cuts, lemma_cuts_before,
    origins_upto, tail_pieces, tails_upto, piece_end, split_blocks, split_origins, all_label_cuts, labels_on_first_line,
    all_jump_cuts, cuts_ok,
};
use crate::text::{lemma_line_starts_from, lemma_utf8_len_push, line_starts, lines, utf8_len};
use crate::linker::{
    all_linkable, cond_count, jump_count, label_owner, label_owner_from, line_jump, linkable, linked,
};

verus! {

/// Bound `m` of the pieces of `s` cut at `c`: `0`, then the cuts, then `s.len()`.
pub open spec fn cut_bound(s: Seq<char>, c: Seq<int>, m: int) -> int {
    if m <= 0 {
        0
    } else if m <= c.len() {
        c[m - 1]
    } else {
        s.len() as int
    }
}

/// Piece `m` of `s` cut at `c`, for `m` from `0` to `c.len()`.
pub open spec fn piece_text(s: Seq<char>, c: Seq<int>, m: int) -> Seq<char> {
    s.subrange(cut_bound(s, c, m), cut_bound(s, c, m + 1))
}

/// Piece `t` of the new pieces of block `j2`.
pub open spec fn tail_of(bs: Seq<BlockView>, cuts: Seq<Seq<int>>, j2: int, t: int) -> BlockView {
    tail_pieces(bs[j2], cuts[j2], bs.len() + cuts_before(cuts, j2))[t]
}

proof fn lemma_tails_index(bs: Seq<BlockView>, cuts: Seq<Seq<int>>, j: int, i: int)
    requires
        0 <= j <= bs.len(),
        cuts.len() == bs.len(),
        0 <= i < tails_upto(bs, cuts, j).len(),
    ensures
        exists|j2: int, t: int|
            0 <= j2 < j && 0 <= t < cuts[j2].len() && tails_upto(bs, cuts, j)[i] == #[trigger] tail_of(bs, cuts, j2, t),
    decreases j,
{
    lemma_cuts_before(bs, cuts, j - 1);
    let prev = tails_upto(bs, cuts, j - 1);
    let last = tail_pieces(bs[j - 1], cuts[j - 1], bs.len() + cuts_before(cuts, j - 1));
    assert(tails_upto(bs, cuts, j) == prev + last);
    if i < prev.len() {
        lemma_tails_index(bs, cuts, j - 1, i);
        let (j2, t) = choose|j2: int, t: int|
            0 <= j2 < j - 1 && 0 <= t < cuts[j2].len() && tails_upto(bs, cuts, j - 1)[i]
                == #[trigger] tail_of(bs, cuts, j2, t);
        assert(tails_upto(bs, cuts, j)[i] == tail_of(bs, cuts, j2, t));
    } else {
        let t = i - prev.len();
        assert(tails_upto(bs, cuts, j)[i] == last[t]);
        assert(tails_upto(bs, cuts, j)[i] == tail_of(bs, cuts, j - 1, t));
    }
}

/// Every block that cutting gives has the text of a piece of a block.
pub proof fn lemma_cut_block_texts(bs: Seq<BlockView>, cuts: Seq<Seq<int>>, i: int)
    requires
        cuts.len() == bs.len(),
        0 <= i < cut_blocks(bs, cuts).len(),
    ensures
        exists|j: int, m: int|
            0 <= j < bs.len() && 0 <= m <= cuts[j].len() && #[trigger] cut_blocks(bs, cuts)[i].text
                == piece_text(bs[j].text, cuts[j], m),
{
    let n = bs.len() as int;
    lemma_cuts_before(bs, cuts, n);
    let r = cut_blocks(bs, cuts);
    if i < n {
        let c = cuts[i];
        let s = bs[i].text;
        assert(r[i] == head_piece(bs[i], c, n + cuts_before(cuts, i)));
        if c.len() == 0 {
            assert(piece_text(s, c, 0) =~= s);
        } else {
            assert(piece_text(s, c, 0) =~= s.subrange(0, c[0]));
        }
        assert(r[i].text == piece_text(bs[i].text, cuts[i], 0));
    } else {
        lemma_tails_index(bs, cuts, n, i - n);
        let (j2, t) = choose|j2: int, t: int|
            0 <= j2 < n && 0 <= t < cuts[j2].len() && tails_upto(bs, cuts, n)[i - n]
                == #[trigger] tail_of(bs, cuts, j2, t);
        let c = cuts[j2];
        let s = bs[j2].text;
        let m = c.len() - 1 - t;
        assert(r[i] == tails_upto(bs, cuts, n)[i - n]);
        assert(r[i].text == s.subrange(c[m], piece_end(s, c, m)));
        assert(piece_text(s, c, m + 1) == s.subrange(c[m], piece_end(s, c, m)));
    }
}

/// Bound `m` of the pieces of lines from line `p` on cut at the line indices
/// `c`, of `n` lines in all.
pub open spec fn line_cut_bound(p: int, c: Seq<int>, n: int, m: int) -> int {
    if m <= 0 {
        p
    } else if m <= c.len() {
        c[m - 1]
    } else {
        n
    }
}

/// Line cuts are increasing and inside.
pub open spec fn line_cuts_ok(p: int, c: Seq<int>, n: int) -> bool {
    &&& forall|m: int| 0 <= m < c.len() ==> p < #[trigger] c[m] < n
    &&& forall|m: int, q: int| 0 <= m < q < c.len() ==> c[m] < c[q]
}

proof fn lemma_jump_cut_lines_ok(ls: Seq<Seq<char>>, k: int, jump: bool, cond: bool)
    requires
        0 <= k,
    ensures
        line_cuts_ok(k - 1, jump_cut_lines(ls, k, jump, cond), ls.len() as int),
    decreases ls.len() - k,
{
    let c = jump_cut_lines(ls, k, jump, cond);
    if k < ls.len() {
        let nj = crate::shape::next_jump(ls, k);
        let nc = crate::shape::next_cond(ls, k, jump, cond);
        lemma_jump_cut_lines_ok(ls, k + 1, nj, nc);
        let r = jump_cut_lines(ls, k + 1, nj, nc);
        crate::shape::lemma_cut_step(ls, k, jump, cond);
        if c.len() != r.len() {
            assert(c == seq![k] + r);
            assert forall|m: int| 0 <= m < c.len() implies k - 1 < #[trigger] c[m] < ls.len() by {
                if m > 0 {
                    assert(c[m] == r[m - 1]);
                }
            }
            assert forall|m: int, q: int| 0 <= m < q < c.len() implies c[m] < c[q] by {
                assert(c[q] == r[q - 1]);
                if m > 0 {
                    assert(c[m] == r[m - 1]);
                }
            }
        } else {
            assert(c == Seq::<int>::empty() + r);
            assert(c =~= r);
        }
    }
}

proof fn lemma_pieces_indexed(ls: Seq<Seq<char>>, p: int, c: Seq<int>)
    requires
        pieces_shaped(ls, p, c),
        0 <= p <= ls.len(),
        line_cuts_ok(p - 1, c, ls.len() as int),
        c.len() > 0 ==> p <= c[0],
    ensures
        forall|m: int|
            0 <= m <= c.len() ==> jumps_shaped(
                #[trigger] ls.subrange(
                    line_cut_bound(p, c, ls.len() as int, m),
                    line_cut_bound(p, c, ls.len() as int, m + 1),
                ),
            ),
    decreases c.len(),
{
    let n = ls.len() as int;
    if c.len() > 0 {
        let rest = c.drop_first();
        if rest.len() > 0 {
            assert(c[0] < c[1]);
        }
        lemma_pieces_indexed(ls, c[0], rest);
        assert forall|m: int| 0 <= m <= c.len() implies jumps_shaped(
            #[trigger] ls.subrange(line_cut_bound(p, c, n, m), line_cut_bound(p, c, n, m + 1)),
        ) by {
            if m > 0 {
                assert(line_cut_bound(p, c, n, m) == line_cut_bound(c[0], rest, n, m - 1));
                assert(line_cut_bound(p, c, n, m + 1) == line_cut_bound(c[0], rest, n, m));
            }
        }
    }
}

/// Every piece of a text cut after its jumps has the shape.
pub proof fn lemma_jump_piece_texts(s: Seq<char>)
    ensures
        forall|m: int|
            0 <= m <= jump_cuts(s).len() ==> jumps_shaped(
                lines(#[trigger] piece_text(s, jump_cuts(s), m)),
            ) && count_labels(lines(piece_text(s, jump_cuts(s), m))) <= count_labels(lines(s)),
{
    let ls = lines(s);
    let n = ls.len() as int;
    lemma_line_starts_from(s, 0);
    let cl = jump_cut_lines(ls, 0, false, false);
    lemma_jump_cut_lines(s, 0, false, false);
    lemma_jump_cut_lines_ok(ls, 0, false, false);
    lemma_counts_add(Seq::<Seq<char>>::empty(), Seq::<Seq<char>>::empty());
    assert(ls.subrange(0, 0) =~= Seq::<Seq<char>>::empty());
    assert(piece_state(ls, 0, 0, false, false));
    lemma_jump_pieces(ls, 0, 0, false, false);
    lemma_pieces_indexed(ls, 0, cl);
    let c = jump_cuts(s);
    assert forall|m: int| 0 <= m <= c.len() implies jumps_shaped(
        lines(#[trigger] piece_text(s, c, m)),
    ) && count_labels(lines(piece_text(s, c, m))) <= count_labels(lines(s)) by {
        let a = line_cut_bound(0, cl, n, m);
        let b = line_cut_bound(0, cl, n, m + 1);
        assert(0 <= a <= b <= n) by {
            if 0 < m && m + 1 <= cl.len() {
                assert(cl[m - 1] < cl[m]);
            }
        }
        assert(cut_bound(s, c, m) == line_bound(s, a)) by {
            if m == 0 && n == 0 {
                assert(s.len() == 0) by {
                    if s.len() > 0 {
                        assert(line_starts(s).len() > 0);
                    }
                }
            }
        }
        assert(cut_bound(s, c, m + 1) == line_bound(s, b));
        lemma_lines_of_range(s, a, b);
        lemma_sub_count(ls, a, b);
    }
}

/// Part of the lines has at most the labels of all of them.
proof fn lemma_sub_count(ls: Seq<Seq<char>>, a: int, b: int)
    requires
        0 <= a <= b <= ls.len(),
    ensures
        count_labels(ls.subrange(a, b)) <= count_labels(ls),
{
    let x = ls.subrange(0, a);
    let y = ls.subrange(a, b);
    let z = ls.subrange(b, ls.len() as int);
    assert(ls =~= x + y + z);
    lemma_counts_add(x + y, z);
    lemma_counts_add(x, y);
    lemma_counts_add(z, seq![]);
}

/// The indices of the lines among the first `n` of `ls` that define a label.
pub open spec fn label_lines(ls: Seq<Seq<char>>, n: int) -> Seq<int>
    decreases n,
{
    if n <= 0 {
        seq![]
    } else {
        let prev = label_lines(ls, n - 1);
        if line_label(ls[n - 1]) is Some {
            prev.push(n - 1)
        } else {
            prev
        }
    }
}

proof fn lemma_label_lines(s: Seq<char>, n: int)
    requires
        0 <= n <= line_starts(s).len(),
    ensures
        ({
            let k = label_lines(lines(s), n);
            let lab = labels_in_lines(s, n);
            &&& lab.len() == k.len()
            &&& forall|i: int| 0 <= i < k.len() ==> lab[i].1 == line_starts(s)[#[trigger] k[i]]
            &&& forall|i: int| 0 <= i < k.len() ==> 0 <= #[trigger] k[i] < n
            &&& forall|i: int| 0 <= i < k.len() ==> line_label(lines(s)[#[trigger] k[i]]) is Some
            &&& forall|i: int, j: int| 0 <= i < j < k.len() ==> k[i] < k[j]
            &&& forall|x: int|
                0 <= x < n && line_label(#[trigger] lines(s)[x]) is Some ==> exists|i: int|
                    0 <= i < k.len() && k[i] == x
        }),
    decreases n,
{
    if n > 0 {
        lemma_label_lines(s, n - 1);
        let ls = lines(s);
        let prev = label_lines(ls, n - 1);
        let k = label_lines(ls, n);
        assert(ls[n - 1] == crate::text::line_at(s, line_starts(s)[n - 1]));
        if line_label(ls[n - 1]) is Some {
            assert(k == prev.push(n - 1));
            assert(k[prev.len() as int] == n - 1);
            assert forall|x: int|
                0 <= x < n && line_label(#[trigger] lines(s)[x]) is Some implies exists|i: int|
                0 <= i < k.len() && k[i] == x by {
                if x == n - 1 {
                    assert(k[prev.len() as int] == x);
                } else {
                    let i = choose|i: int| 0 <= i < prev.len() && prev[i] == x;
                    assert(k[i] == x);
                }
            }
        } else {
            assert(k == prev);
        }
    }
}

/// At most one label in lines `[a, b)` when only line `x` may have one.
proof fn lemma_one_label(ls: Seq<Seq<char>>, a: int, b: int, x: int)
    requires
        0 <= a <= b <= ls.len(),
        forall|i: int| a <= i < b && line_label(#[trigger] ls[i]) is Some ==> i == x,
    ensures
        count_labels(ls.subrange(a, b)) <= 1,
        x < a || x >= b ==> count_labels(ls.subrange(a, b)) == 0,
    decreases b - a,
{
    if b > a {
        lemma_one_label(ls, a, b - 1, x);
        assert(ls.subrange(a, b).drop_last() =~= ls.subrange(a, b - 1));
        lemma_counts_add(ls.subrange(a, b - 1), seq![]);
    } else {
        assert(ls.subrange(a, b) =~= Seq::<Seq<char>>::empty());
    }
}

/// No line of `t` but its first defines a label.
pub open spec fn labels_on_top(t: Seq<char>) -> bool {
    forall|i: int| 0 < i < lines(t).len() ==> line_label(#[trigger] lines(t)[i]) is None
}

/// Every piece of a text cut at its labels has at most one label, on its
/// first line, and no more lines than the text.
pub proof fn lemma_label_piece_texts(s: Seq<char>)
    ensures
        forall|m: int|
            0 <= m <= label_cuts(s).len() ==> count_labels(
                lines(#[trigger] piece_text(s, label_cuts(s), m)),
            ) <= 1 && labels_on_top(piece_text(s, label_cuts(s), m)) && lines(
                piece_text(s, label_cuts(s), m),
            ).len() <= lines(s).len(),
{
    let ls = lines(s);
    let n = ls.len() as int;
    lemma_line_starts_from(s, 0);
    lemma_label_lines(s, n);
    let k = label_lines(ls, n);
    let c = label_cuts(s);
    let f = labels_on_first_line(s);
    assert(labels_in_lines(s, n) == text_labels(s));
    assert(c.len() == k.len() - f);
    if n > 0 {
        assert(line_starts(s)[0] == 0);
    }
    if f == 1 {
        assert(k[0] == 0) by {
            if k[0] > 0 {
                assert(line_starts(s)[0] < line_starts(s)[k[0]]);
            }
        }
    } else if k.len() > 0 {
        assert(k[0] > 0);
    }
    assert forall|m: int| 0 <= m < c.len() implies #[trigger] c[m] == line_starts(s)[k[m + f]] by {
        assert(c[m] == text_labels(s)[m + f].1);
    }
    assert forall|m: int| 0 <= m <= c.len() implies count_labels(
        lines(#[trigger] piece_text(s, c, m)),
    ) <= 1 && labels_on_top(piece_text(s, c, m)) && lines(piece_text(s, c, m)).len() <= n by {
        let a = if m == 0 {
            0
        } else {
            k[m - 1 + f]
        };
        let b = if m < c.len() {
            k[m + f]
        } else {
            n
        };
        assert(0 <= a <= b <= n) by {
            if 0 < m && m < c.len() {
                assert(k[m - 1 + f] < k[m + f]);
            }
        }
        assert(cut_bound(s, c, m) == line_bound(s, a)) by {
            if m == 0 && n == 0 {
                assert(s.len() == 0) by {
                    if s.len() > 0 {
                        assert(line_starts(s).len() > 0);
                    }
                }
            }
        }
        assert(cut_bound(s, c, m + 1) == line_bound(s, b));
        lemma_lines_of_range(s, a, b);
        assert forall|i: int| a <= i < b && line_label(#[trigger] ls[i]) is Some implies i == a by {
            let j = choose|j: int| 0 <= j < k.len() && k[j] == i;
            if m == 0 {
                if f == 0 {
                    if j > 0 {
                        assert(k[0] < k[j]);
                    }
                } else if j > 1 {
                    assert(k[1] < k[j]);
                }
            } else {
                if j < m - 1 + f {
                    assert(k[j] < k[m - 1 + f]);
                } else if j > m + f {
                    assert(k[m + f] < k[j]);
                }
            }
        }
        lemma_one_label(ls, a, b, a);
        let lp = ls.subrange(a, b);
        assert forall|i: int| 0 < i < lp.len() implies line_label(#[trigger] lp[i]) is None by {
            assert(lp[i] == ls[a + i]);
        }
    }
}

/// Every piece of a text cut after its jumps keeps its labels on its first
/// line, when the text has them there.
proof fn lemma_jump_pieces_on_top(s: Seq<char>)
    requires
        labels_on_top(s),
    ensures
        forall|m: int|
            0 <= m <= jump_cuts(s).len() ==> labels_on_top(
                #[trigger] piece_text(s, jump_cuts(s), m),
            ),
{
    let ls = lines(s);
    let n = ls.len() as int;
    lemma_line_starts_from(s, 0);
    let cl = jump_cut_lines(ls, 0, false, false);
    lemma_jump_cut_lines(s, 0, false, false);
    lemma_jump_cut_lines_ok(ls, 0, false, false);
    let c = jump_cuts(s);
    assert forall|m: int| 0 <= m <= c.len() implies labels_on_top(#[trigger] piece_text(s, c, m)) by {
        let a = line_cut_bound(0, cl, n, m);
        let b = line_cut_bound(0, cl, n, m + 1);
        assert(0 <= a <= b <= n) by {
            if 0 < m && m + 1 <= cl.len() {
                assert(cl[m - 1] < cl[m]);
            }
        }
        assert(cut_bound(s, c, m) == line_bound(s, a)) by {
            if m == 0 && n == 0 {
                assert(s.len() == 0) by {
                    if s.len() > 0 {
                        assert(line_starts(s).len() > 0);
                    }
                }
            }
        }
        assert(cut_bound(s, c, m + 1) == line_bound(s, b));
        lemma_lines_of_range(s, a, b);
        let lp = ls.subrange(a, b);
        assert forall|i: int| 0 < i < lp.len() implies line_label(#[trigger] lp[i]) is None by {
            assert(lp[i] == ls[a + i]);
        }
    }
}

/// The UTF-8 length of a concatenation.
pub proof fn lemma_utf8_len_add(a: Seq<char>, b: Seq<char>)
    ensures
        utf8_len(a + b) == utf8_len(a) + utf8_len(b),
        utf8_len(b) >= 0,
    decreases b.len(),
{
    if b.len() == 0 {
        assert(a + b =~= a);
        lemma_utf8_len_push(b, 'a');
    } else {
        lemma_utf8_len_add(a, b.drop_last());
        assert(a + b =~= (a + b.drop_last()).push(b.last()));
        assert(b =~= b.drop_last().push(b.last()));
        lemma_utf8_len_push(a + b.drop_last(), b.last());
        lemma_utf8_len_push(b.drop_last(), b.last());
    }
}

/// A part of a text is no longer in UTF-8 than the text.
pub proof fn lemma_utf8_len_subrange(s: Seq<char>, a: int, b: int)
    requires
        0 <= a <= b <= s.len(),
    ensures
        utf8_len(s.subrange(a, b)) <= utf8_len(s),
{
    let x = s.subrange(0, a);
    let y = s.subrange(a, b);
    let z = s.subrange(b, s.len() as int);
    assert(s =~= x + y + z);
    lemma_utf8_len_add(x + y, z);
    lemma_utf8_len_add(x, y);
    lemma_utf8_len_add(z, seq![]);
    lemma_utf8_len_add(seq![], x);
}

/// A block has the shape that `split` aims at: at most one label, on its
/// first line, at most one unconditional jump, on its last line, and at most
/// one conditional jump.
pub open spec fn split_shape(t: Seq<char>) -> bool {
    let n = line_starts(t).len() as int;
    &&& text_labels(t).len() <= 1
    &&& labels_on_top(t)
    &&& jump_count(t, n) <= 1
    &&& cond_count(t, n) <= 1
    &&& forall|k: int| 0 <= k < n - 1 ==> !(#[trigger] line_jump(t, k) is Jmp)
}

proof fn lemma_shaped_text(t: Seq<char>)
    requires
        count_labels(lines(t)) <= 1,
        labels_on_top(t),
        jumps_shaped(lines(t)),
    ensures
        split_shape(t),
{
    crate::shape::lemma_counts_of_whole_text(t);
    assert forall|k: int| 0 <= k < line_starts(t).len() - 1 implies !(#[trigger] line_jump(t, k) is Jmp) by {
        assert(line_jump(t, k) == crate::util::jump_kind(lines(t)[k]));
    }
}

/// After `split`, every block has at most one label, on its first line, at
/// most one unconditional jump, on its last line, and at most one conditional
/// jump.
pub proof fn law_split_shapes_blocks(bs: Seq<BlockView>)
    ensures
        forall|i: int|
            0 <= i < split_blocks(bs).len() ==> split_shape(#[trigger] split_blocks(bs)[i].text),
{
    let lc = all_label_cuts(bs);
    let mid = cut_blocks(bs, lc);
    let jc = all_jump_cuts(mid);
    assert forall|i: int| 0 <= i < split_blocks(bs).len() implies split_shape(
        #[trigger] split_blocks(bs)[i].text,
    ) by {
        lemma_cut_block_texts(mid, jc, i);
        let (j1, m1) = choose|j: int, m: int|
            0 <= j < mid.len() && 0 <= m <= jc[j].len() && #[trigger] cut_blocks(mid, jc)[i].text
                == piece_text(mid[j].text, jc[j], m);
        lemma_cut_block_texts(bs, lc, j1);
        let (j2, m2) = choose|j: int, m: int|
            0 <= j < bs.len() && 0 <= m <= lc[j].len() && #[trigger] cut_blocks(bs, lc)[j1].text
                == piece_text(bs[j].text, lc[j], m);
        let s = bs[j2].text;
        let ms = mid[j1].text;
        assert(lc[j2] == label_cuts(s));
        assert(jc[j1] == jump_cuts(ms));
        lemma_label_piece_texts(s);
        assert(ms == piece_text(s, label_cuts(s), m2));
        lemma_jump_piece_texts(ms);
        lemma_jump_pieces_on_top(ms);
        let t = split_blocks(bs)[i].text;
        assert(t == piece_text(ms, jump_cuts(ms), m1));
        lemma_shaped_text(t);
    }
}

proof fn lemma_split_block_fits(bs: Seq<BlockView>, i: int)
    requires
        forall|j: int| 0 <= j < bs.len() ==> utf8_len(#[trigger] bs[j].text) <= usize::MAX,
        0 <= i < split_blocks(bs).len(),
    ensures
        utf8_len(split_blocks(bs)[i].text) <= usize::MAX,
{
    let lc = all_label_cuts(bs);
    let mid = cut_blocks(bs, lc);
    let jc = all_jump_cuts(mid);
    lemma_cut_block_texts(mid, jc, i);
    let (j1, m1) = choose|j: int, m: int|
        0 <= j < mid.len() && 0 <= m <= jc[j].len() && #[trigger] cut_blocks(mid, jc)[i].text
            == piece_text(mid[j].text, jc[j], m);
    lemma_cut_block_texts(bs, lc, j1);
    let (j2, m2) = choose|j: int, m: int|
        0 <= j < bs.len() && 0 <= m <= lc[j].len() && #[trigger] cut_blocks(bs, lc)[j1].text
            == piece_text(bs[j].text, lc[j], m);
    let s = bs[j2].text;
    let ms = mid[j1].text;
    assert(lc[j2] == label_cuts(s));
    assert(jc[j1] == jump_cuts(ms));
    crate::splitter::lemma_label_cuts_ok(s);
    crate::splitter::lemma_jump_cuts_ok(ms);
    lemma_piece_cuts_ok(s, lc[j2], m2);
    lemma_utf8_len_subrange(s, cut_bound(s, lc[j2], m2), cut_bound(s, lc[j2], m2 + 1));
    lemma_piece_cuts_ok(ms, jc[j1], m1);
    lemma_utf8_len_subrange(ms, cut_bound(ms, jc[j1], m1), cut_bound(ms, jc[j1], m1 + 1));
}

/// After `split`, the blocks can be linked (every text fits in memory).
pub proof fn law_split_then_link(bs: Seq<BlockView>)
    requires
        forall|j: int| 0 <= j < bs.len() ==> utf8_len(#[trigger] bs[j].text) <= usize::MAX,
    ensures
        all_linkable(split_blocks(bs)),
{
    law_split_shapes_blocks(bs);
    assert forall|i: int| 0 <= i < split_blocks(bs).len() implies linkable(
        #[trigger] split_blocks(bs)[i].text,
    ) by {
        lemma_split_block_fits(bs, i);
        assert(split_shape(split_blocks(bs)[i].text));
    }
}

/// The bounds of a piece are in order.
proof fn lemma_piece_cuts_ok(s: Seq<char>, c: Seq<int>, m: int)
    requires
        cuts_ok(s, c),
        0 <= m <= c.len(),
    ensures
        0 <= cut_bound(s, c, m) <= cut_bound(s, c, m + 1) <= s.len(),
{
    if 0 < m && m + 1 <= c.len() {
        assert(c[m - 1] < c[m]);
    }
}

/// All the blocks of `bs` after linking.
pub open spec fn link_all(bs: Seq<BlockView>) -> Seq<BlockView> {
    Seq::new(bs.len(), |j: int| linked(bs, j))
}

proof fn lemma_owner_after_link(bs: Seq<BlockView>, l: Seq<char>, j: int)
    requires
        0 <= j <= bs.len(),
    ensures
        label_owner_from(link_all(bs), l, j) == label_owner_from(bs, l, j),
    decreases bs.len() - j,
{
    if j < bs.len() {
        lemma_owner_after_link(bs, l, j + 1);
        assert(link_all(bs)[j].text == bs[j].text);
    }
}

/// Linking keeps the texts, so linked blocks can be linked again, and linking
/// them again changes nothing.
pub proof fn law_link_twice(bs: Seq<BlockView>)
    ensures
        all_linkable(link_all(bs)) == all_linkable(bs),
        link_all(link_all(bs)) == link_all(bs),
{
    let once = link_all(bs);
    assert forall|j: int| 0 <= j < bs.len() implies #[trigger] once[j].text == bs[j].text by {}
    assert forall|l: Seq<char>| #[trigger] label_owner(once, l) == label_owner(bs, l) by {
        lemma_owner_after_link(bs, l, 0);
    }
    assert(all_linkable(once) == all_linkable(bs)) by {
        if all_linkable(bs) {
            assert forall|j: int| 0 <= j < once.len() implies linkable(#[trigger] once[j].text) by {
                assert(linkable(bs[j].text));
            }
        }
        if all_linkable(once) {
            assert forall|j: int| 0 <= j < bs.len() implies linkable(#[trigger] bs[j].text) by {
                assert(linkable(once[j].text));
            }
        }
    }
    assert forall|j: int| 0 <= j < bs.len() implies #[trigger] link_all(once)[j] == once[j] by {
        assert(once[j] == linked(bs, j));
        assert(link_all(once)[j] == linked(once, j));
    }
    assert(link_all(once) =~= once);
}

proof fn lemma_cond_count_mono(s: Seq<char>, k: int, n: int)
    requires
        0 <= k <= n,
    ensures
        cond_count(s, k) <= cond_count(s, n),
    decreases n - k,
{
    if k < n {
        lemma_cond_count_mono(s, k, n - 1);
    }
}

/// A text of the shape is not cut after its jumps.
proof fn lemma_shaped_no_jump_cuts(s: Seq<char>, k: int, jump: bool, cond: bool)
    requires
        split_shape(s),
        0 <= k <= line_starts(s).len(),
        cond ==> cond_count(s, k) >= 1,
        jump ==> k == line_starts(s).len(),
    ensures
        jump_cuts_from(s, k, jump, cond) == Seq::<int>::empty(),
    decreases line_starts(s).len() - k,
{
    let n = line_starts(s).len() as int;
    if k < n {
        lemma_cond_count_mono(s, k + 1, n);
        lemma_cond_count_mono(s, 0, k);
        if line_jump(s, k) is Jmp && k + 1 < n {
            assert(!(line_jump(s, k) is Jmp));
        }
        lemma_shaped_no_jump_cuts(
            s,
            k + 1,
            line_jump(s, k) is Jmp,
            crate::splitter::jump_cond_after(s, k, jump, cond),
        );
    }
}

/// A text of the shape is not cut at its labels.
proof fn lemma_shaped_no_label_cuts(t: Seq<char>)
    requires
        split_shape(t),
    ensures
        label_cuts(t).len() == 0,
{
    let ls = lines(t);
    let n = ls.len() as int;
    lemma_line_starts_from(t, 0);
    lemma_label_lines(t, n);
    let k = label_lines(ls, n);
    assert(labels_in_lines(t, n) == text_labels(t));
    if k.len() > 0 {
        assert(line_label(ls[k[0]]) is Some);
        assert(k[0] == 0);
        assert(text_labels(t)[0].1 == line_starts(t)[0]);
    }
}

/// Cutting nowhere changes nothing.
proof fn lemma_cut_nowhere(bs: Seq<BlockView>, cuts: Seq<Seq<int>>)
    requires
        cuts.len() == bs.len(),
        forall|j: int| 0 <= j < bs.len() ==> (#[trigger] cuts[j]).len() == 0,
    ensures
        cut_blocks(bs, cuts) == bs,
        origins_upto(cuts, bs.len() as int).len() == 0,
{
    lemma_cuts_before(bs, cuts, bs.len() as int);
    lemma_no_cuts_before(cuts, bs.len() as int);
    assert forall|j: int| 0 <= j < bs.len() implies #[trigger] cut_blocks(bs, cuts)[j] == bs[j] by {
        assert(cuts[j].len() == 0);
    }
    assert(cut_blocks(bs, cuts) =~= bs);
}

proof fn lemma_no_cuts_before(cuts: Seq<Seq<int>>, j: int)
    requires
        0 <= j <= cuts.len(),
        forall|i: int| 0 <= i < cuts.len() ==> (#[trigger] cuts[i]).len() == 0,
    ensures
        cuts_before(cuts, j) == 0,
    decreases j,
{
    if j > 0 {
        lemma_no_cuts_before(cuts, j - 1);
    }
}

/// Splitting blocks that all have the shape changes nothing and adds no
/// block.
pub proof fn law_split_keeps_shaped(bs: Seq<BlockView>)
    requires
        forall|j: int| 0 <= j < bs.len() ==> split_shape(#[trigger] bs[j].text),
    ensures
        split_blocks(bs) == bs,
        split_origins(bs).len() == 0,
{
    let lc = all_label_cuts(bs);
    assert forall|j: int| 0 <= j < bs.len() implies (#[trigger] lc[j]).len() == 0 by {
        assert(lc[j] == label_cuts(bs[j].text));
        lemma_shaped_no_label_cuts(bs[j].text);
    }
    lemma_cut_nowhere(bs, lc);
    let mid = cut_blocks(bs, lc);
    let jc = all_jump_cuts(mid);
    assert forall|j: int| 0 <= j < mid.len() implies (#[trigger] jc[j]).len() == 0 by {
        assert(mid[j] == bs[j]);
        assert(jc[j] == jump_cuts(bs[j].text));
        lemma_shaped_no_jump_cuts(bs[j].text, 0, false, false);
    }
    lemma_cut_nowhere(mid, jc);
}

/// Splitting blocks that `split` gave changes nothing and adds no block.
pub proof fn law_split_twice(bs: Seq<BlockView>)
    ensures
        split_blocks(split_blocks(bs)) == split_blocks(bs),
        split_origins(split_blocks(bs)).len() == 0,
{
    law_split_shapes_blocks(bs);
    law_split_keeps_shaped(split_blocks(bs));
}

} // verus!
