//! Splitting keeps the code: following `next` from a block through the pieces
//! it was cut into gives back its text.
use vstd::prelude::*;
use crate::codeblock::BlockView;
use crate::laws::tail_of;
use crate::splitter::{
    all_jump_cuts, all_label_cuts, cut_blocks, cuts_before, cuts_ok, head_piece, jump_cuts,
    label_cuts, lemma_cuts_before, lemma_jump_cuts_ok, lemma_label_cuts_ok, piece_end,
    split_blocks, tail_pieces, tails_upto,
};

verus! {

/// The block that block `i` leads to by `next` (`-1` when none).
pub open spec fn next_of(bs: Seq<BlockView>, i: int) -> int {
    match bs[i].next {
        Some(t) => t as int,
        None => -1,
    }
}

/// From block `i`, `k` steps along `next` stay among the blocks.
pub open spec fn chain_ok(bs: Seq<BlockView>, i: int, k: nat) -> bool
    decreases k,
{
    &&& 0 <= i < bs.len()
    &&& (k > 0 ==> bs[i].next is Some && chain_ok(bs, next_of(bs, i), (k - 1) as nat))
}

/// The block reached from block `i` after `k` steps along `next`.
pub open spec fn chain_end(bs: Seq<BlockView>, i: int, k: nat) -> int
    decreases k,
{
    if k == 0 {
        i
    } else {
        chain_end(bs, next_of(bs, i), (k - 1) as nat)
    }
}

/// The texts of the blocks from block `i` on, `k` steps along `next`, one
/// after the other.
pub open spec fn chain_text(bs: Seq<BlockView>, i: int, k: nat) -> Seq<char>
    decreases k,
{
    if k == 0 {
        bs[i].text
    } else {
        bs[i].text + chain_text(bs, next_of(bs, i), (k - 1) as nat)
    }
}

/// A chain followed by a chain from where the first leads.
proof fn lemma_chain_join(bs: Seq<BlockView>, i: int, k1: nat, k2: nat)
    requires
        chain_ok(bs, i, k1),
        bs[chain_end(bs, i, k1)].next is Some,
        chain_ok(bs, next_of(bs, chain_end(bs, i, k1)), k2),
    ensures
        chain_ok(bs, i, k1 + 1 + k2),
        chain_text(bs, i, k1 + 1 + k2) == chain_text(bs, i, k1) + chain_text(
            bs,
            next_of(bs, chain_end(bs, i, k1)),
            k2,
        ),
        chain_end(bs, i, k1 + 1 + k2) == chain_end(bs, next_of(bs, chain_end(bs, i, k1)), k2),
    decreases k1,
{
    if k1 > 0 {
        lemma_chain_join(bs, next_of(bs, i), (k1 - 1) as nat, k2);
        assert((k1 + 1 + k2 - 1) as nat == ((k1 - 1) as nat + 1 + k2) as nat);
        assert(bs[i].text + (chain_text(bs, next_of(bs, i), (k1 - 1) as nat) + chain_text(
            bs,
            next_of(bs, chain_end(bs, i, k1)),
            k2,
        )) =~= (bs[i].text + chain_text(bs, next_of(bs, i), (k1 - 1) as nat)) + chain_text(
            bs,
            next_of(bs, chain_end(bs, i, k1)),
            k2,
        ));
    }
}

proof fn lemma_cuts_before_mono(cuts: Seq<Seq<int>>, j: int, j2: int)
    requires
        0 <= j <= j2,
    ensures
        cuts_before(cuts, j) <= cuts_before(cuts, j2),
    decreases j2,
{
    if j < j2 {
        lemma_cuts_before_mono(cuts, j, j2 - 1);
    }
}

/// Where the new pieces of block `j` stand among the new pieces.
proof fn lemma_tail_at(bs: Seq<BlockView>, cuts: Seq<Seq<int>>, j: int, t: int, j2: int)
    requires
        cuts.len() == bs.len(),
        0 <= j < j2 <= bs.len(),
        0 <= t < cuts[j].len(),
    ensures
        cuts_before(cuts, j) + t < tails_upto(bs, cuts, j2).len(),
        tails_upto(bs, cuts, j2)[cuts_before(cuts, j) + t] == tail_of(bs, cuts, j, t),
    decreases j2,
{
    lemma_cuts_before(bs, cuts, j2 - 1);
    lemma_cuts_before(bs, cuts, j2);
    lemma_cuts_before(bs, cuts, j);
    let prev = tails_upto(bs, cuts, j2 - 1);
    let last = tail_pieces(bs[j2 - 1], cuts[j2 - 1], bs.len() + cuts_before(cuts, j2 - 1));
    assert(tails_upto(bs, cuts, j2) == prev + last);
    if j < j2 - 1 {
        lemma_tail_at(bs, cuts, j, t, j2 - 1);
        lemma_cuts_before_mono(cuts, j + 1, j2 - 1);
    }
}

/// Cutting one level: from block `j`, the pieces it was cut into follow one
/// another by `next` and give back its text; the last leads where it led.
proof fn lemma_cut_chain(bs: Seq<BlockView>, cuts: Seq<Seq<int>>, j: int)
    requires
        cuts.len() == bs.len(),
        0 <= j < bs.len(),
        cuts_ok(bs[j].text, cuts[j]),
        cut_blocks(bs, cuts).len() <= usize::MAX,
    ensures
        chain_ok(cut_blocks(bs, cuts), j, cuts[j].len()),
        chain_text(cut_blocks(bs, cuts), j, cuts[j].len()) == bs[j].text,
        cut_blocks(bs, cuts)[chain_end(cut_blocks(bs, cuts), j, cuts[j].len())].next == bs[j].next,
{
    let n = bs.len() as int;
    let r = cut_blocks(bs, cuts);
    let c = cuts[j];
    let s = bs[j].text;
    let len = c.len() as int;
    let first = n + cuts_before(cuts, j);
    lemma_cuts_before(bs, cuts, n);
    lemma_cuts_before(bs, cuts, j);
    lemma_cuts_before_mono(cuts, j + 1, n);
    assert(r[j] == head_piece(bs[j], c, first));
    if len == 0 {
        assert(r[j] == bs[j]);
    } else {
        assert forall|t: int| 0 <= t < len implies #[trigger] r[first + t] == tail_pieces(
            bs[j],
            c,
            first,
        )[t] by {
            lemma_tail_at(bs, cuts, j, t, n);
        }
        lemma_tail_chain(bs, cuts, j, len - 1);
        assert(r[j].next == Some((first + len - 1) as usize));
        assert(next_of(r, j) == first + len - 1);
        assert(s.subrange(0, c[0]) + s.subrange(c[0], s.len() as int) =~= s);
    }
}

/// The tail pieces of block `j`: from the one placed at `first + t`, `t`
/// steps lead to the one placed at `first`, the last piece of the text.
proof fn lemma_tail_chain(bs: Seq<BlockView>, cuts: Seq<Seq<int>>, j: int, t: int)
    requires
        cuts.len() == bs.len(),
        0 <= j < bs.len(),
        cuts_ok(bs[j].text, cuts[j]),
        cut_blocks(bs, cuts).len() <= usize::MAX,
        0 <= t < cuts[j].len(),
        forall|u: int|
            0 <= u < cuts[j].len() ==> #[trigger] cut_blocks(bs, cuts)[bs.len() + cuts_before(cuts, j) + u]
                == tail_pieces(bs[j], cuts[j], bs.len() + cuts_before(cuts, j))[u],
        bs.len() + cuts_before(cuts, j) + cuts[j].len() <= cut_blocks(bs, cuts).len(),
    ensures
        ({
            let r = cut_blocks(bs, cuts);
            let first = bs.len() + cuts_before(cuts, j);
            let c = cuts[j];
            &&& chain_ok(r, first + t, t as nat)
            &&& chain_text(r, first + t, t as nat) == bs[j].text.subrange(
                c[c.len() - 1 - t],
                bs[j].text.len() as int,
            )
            &&& r[chain_end(r, first + t, t as nat)].next == bs[j].next
        }),
    decreases t,
{
    let r = cut_blocks(bs, cuts);
    let first = bs.len() + cuts_before(cuts, j);
    let c = cuts[j];
    let s = bs[j].text;
    let m = c.len() - 1 - t;
    lemma_cuts_before(bs, cuts, j);
    assert(r[first + t] == tail_pieces(bs[j], c, first)[t]);
    if t > 0 {
        lemma_tail_chain(bs, cuts, j, t - 1);
        assert(r[first + t].next == Some((first + t - 1) as usize));
        assert(next_of(r, first + t) == first + t - 1);
        assert(c[m] < c[m + 1]);
        assert(piece_end(s, c, m) == c[m + 1]);
        assert(s.subrange(c[m], c[m + 1]) + s.subrange(c[m + 1], s.len() as int) =~= s.subrange(
            c[m],
            s.len() as int,
        ));
    }
}

/// Cutting the blocks of a chain: the chain through their pieces has the same
/// text and ends where it ended.
proof fn lemma_lift_chain(m: Seq<BlockView>, jc: Seq<Seq<int>>, q: int, k: nat) -> (kk: nat)
    requires
        jc.len() == m.len(),
        forall|p: int| 0 <= p < m.len() ==> cuts_ok(#[trigger] m[p].text, jc[p]),
        cut_blocks(m, jc).len() <= usize::MAX,
        chain_ok(m, q, k),
    ensures
        chain_ok(cut_blocks(m, jc), q, kk),
        chain_text(cut_blocks(m, jc), q, kk) == chain_text(m, q, k),
        cut_blocks(m, jc)[chain_end(cut_blocks(m, jc), q, kk)].next == m[chain_end(m, q, k)].next,
    decreases k,
{
    let f = cut_blocks(m, jc);
    assert(cuts_ok(m[q].text, jc[q]));
    lemma_cut_chain(m, jc, q);
    let k0 = jc[q].len();
    if k == 0 {
        k0
    } else {
        let q2 = next_of(m, q);
        let kk2 = lemma_lift_chain(m, jc, q2, (k - 1) as nat);
        lemma_chain_join(f, q, k0, kk2);
        k0 + 1 + kk2
    }
}

/// Splitting keeps the code of every block: from the block's place, following
/// `next` through the pieces it was cut into gives back its text, one piece
/// after the other, and the last piece leads where the block led. (The blocks
/// after splitting are as many as a `Vec` can hold.)
pub proof fn law_split_keeps_text(bs: Seq<BlockView>)
    requires
        split_blocks(bs).len() <= usize::MAX,
    ensures
        forall|j: int|
            #![trigger bs[j]]
            0 <= j < bs.len() ==> exists|k: nat|
                #[trigger] chain_ok(split_blocks(bs), j, k) && chain_text(split_blocks(bs), j, k)
                    == bs[j].text && split_blocks(bs)[chain_end(split_blocks(bs), j, k)].next
                    == bs[j].next,
{
    let lc = all_label_cuts(bs);
    let mid = cut_blocks(bs, lc);
    let jc = all_jump_cuts(mid);
    let f = split_blocks(bs);
    assert(f == cut_blocks(mid, jc));
    lemma_cuts_before(mid, jc, mid.len() as int);
    lemma_cuts_before(bs, lc, bs.len() as int);
    assert forall|p: int| 0 <= p < mid.len() implies cuts_ok(#[trigger] mid[p].text, jc[p]) by {
        lemma_jump_cuts_ok(mid[p].text);
    }
    assert forall|j: int| #![trigger bs[j]] 0 <= j < bs.len() implies exists|k: nat|
        #[trigger] chain_ok(f, j, k) && chain_text(f, j, k) == bs[j].text && f[chain_end(f, j, k)].next
            == bs[j].next by {
        lemma_label_cuts_ok(bs[j].text);
        assert(lc[j] == label_cuts(bs[j].text));
        lemma_cut_chain(bs, lc, j);
        let kk = lemma_lift_chain(mid, jc, j, lc[j].len());
        assert(chain_ok(f, j, kk));
    }
}

} // verus!
