//! Linking blocks by their jumps: every block has at most one label, one
//! unconditional and one conditional jump, and a jump leads to the block whose
//! label it names.
use vstd::prelude::*;
use crate::codeblock::{labels_of, text_labels, BlockView, CodeBlock, views};
use crate::text::{
    byte_offset, chars_eq, chars_of, extend_chars, lemma_line_end, lemma_line_starts_from, line_at, line_end_at,
    line_starts, line_starts_from, line_starts_of, utf8_len, utf8_len_fits,
};
use crate::util::{jump_in, jump_kind, JumpType, JumpView};
use crate::laws::{law_split_shapes_blocks, law_split_then_link, link_all, split_shape};
use crate::splitter::{split, split_blocks, split_origins};

verus! {

/// The jump on line `k` of `s`.
pub open spec fn line_jump(s: Seq<char>, k: int) -> JumpView {
    jump_kind(line_at(s, line_starts(s)[k]))
}

/// How many of the first `n` lines of `s` hold an unconditional jump.
pub open spec fn jump_count(s: Seq<char>, n: int) -> int
    decreases n,
{
    if n <= 0 {
        0
    } else {
        jump_count(s, n - 1) + if line_jump(s, n - 1) is Jmp {
            1int
        } else {
            0
        }
    }
}

/// How many of the first `n` lines of `s` hold a conditional jump.
pub open spec fn cond_count(s: Seq<char>, n: int) -> int
    decreases n,
{
    if n <= 0 {
        0
    } else {
        cond_count(s, n - 1) + if line_jump(s, n - 1) is CondJmp {
            1int
        } else {
            0
        }
    }
}

/// The target of the first unconditional jump of `s` at or after line `k`.
pub open spec fn first_jump_from(s: Seq<char>, k: int) -> Option<Seq<char>>
    decreases line_starts(s).len() - k,
{
    if 0 <= k < line_starts(s).len() {
        match line_jump(s, k) {
            JumpView::Jmp(l) => Some(l),
            _ => first_jump_from(s, k + 1),
        }
    } else {
        None
    }
}

/// The target and line of the first conditional jump of `s` at or after line `k`.
pub open spec fn first_cond_from(s: Seq<char>, k: int) -> Option<(Seq<char>, int)>
    decreases line_starts(s).len() - k,
{
    if 0 <= k < line_starts(s).len() {
        match line_jump(s, k) {
            JumpView::CondJmp(l) => Some((l, k)),
            _ => first_cond_from(s, k + 1),
        }
    } else {
        None
    }
}

/// The label of a block, when it has one.
pub open spec fn block_label(s: Seq<char>) -> Option<Seq<char>> {
    if text_labels(s).len() > 0 {
        Some(text_labels(s).last().0)
    } else {
        None
    }
}

/// The first block at or after index `j` whose label is `l`.
pub open spec fn label_owner_from(bs: Seq<BlockView>, l: Seq<char>, j: int) -> Option<usize>
    decreases bs.len() - j,
{
    if 0 <= j < bs.len() {
        if block_label(bs[j].text) == Some(l) {
            Some(j as usize)
        } else {
            label_owner_from(bs, l, j + 1)
        }
    } else {
        None
    }
}

/// The first block whose label is `l`.
pub open spec fn label_owner(bs: Seq<BlockView>, l: Seq<char>) -> Option<usize> {
    label_owner_from(bs, l, 0)
}

/// What `link` requires of a block: at most one label, one unconditional and
/// one conditional jump, and a text whose UTF-8 length fits in `usize`.
pub open spec fn linkable(s: Seq<char>) -> bool {
    let n = line_starts(s).len() as int;
    &&& text_labels(s).len() <= 1
    &&& jump_count(s, n) <= 1
    &&& cond_count(s, n) <= 1
    &&& utf8_len(s) <= usize::MAX
}

/// What `link` requires of all the blocks.
pub open spec fn all_linkable(bs: Seq<BlockView>) -> bool {
    forall|j: int| 0 <= j < bs.len() ==> linkable(#[trigger] bs[j].text)
}

/// Block `j` of `bs` after linking: an unconditional jump to a label that some
/// block has sets `next` to the first such block; a conditional jump to such a
/// label sets `next_branch`, with the line of the jump and that line's byte
/// offset. The rest stays.
pub open spec fn linked(bs: Seq<BlockView>, j: int) -> BlockView {
    let b = bs[j];
    let s = b.text;
    let next = match first_jump_from(s, 0) {
        Some(l) => match label_owner(bs, l) {
            Some(t) => Some(t),
            None => b.next,
        },
        None => b.next,
    };
    match first_cond_from(s, 0) {
        Some((l, k)) => match label_owner(bs, l) {
            Some(t) => BlockView {
                next,
                next_branch: Some(t),
                next_branch_line: k as usize,
                next_branch_line_offset: utf8_len(s.subrange(0, line_starts(s)[k])) as usize,
                ..b
            },
            None => BlockView { next, ..b },
        },
        None => BlockView { next, ..b },
    }
}

/// Whether `link` can run on `code` without failing.
pub fn can_link(code: &Vec<CodeBlock>) -> (r: bool)
    ensures
        r == all_linkable(views(code@)),
{
    let mut j: usize = 0;
    while j < code.len()
        invariant
            j <= code@.len(),
            forall|i: int| 0 <= i < j ==> linkable(#[trigger] views(code@)[i].text),
        decreases code.len() - j,
    {
        let s = chars_of(code[j].text.as_str());
        let starts = line_starts_of(&s);
        let labels = labels_of(&s, &starts);
        if labels.len() > 1 || !utf8_len_fits(&s) {
            assert(!linkable(views(code@)[j as int].text));
            return false;
        }
        let (jumps, conds) = count_jumps(&s, &starts);
        if jumps > 1 || conds > 1 {
            assert(!linkable(views(code@)[j as int].text));
            return false;
        }
        j = j + 1;
    }
    true
}

/// The number of lines of `s` with an unconditional and with a conditional
/// jump, at most 2 each.
fn count_jumps(s: &Vec<char>, starts: &Vec<usize>) -> (r: (usize, usize))
    requires
        starts@.len() == line_starts(s@).len(),
        forall|k: int| 0 <= k < starts@.len() ==> starts@[k] as int == #[trigger] line_starts(s@)[k],
    ensures
        r.0 == if jump_count(s@, starts@.len() as int) <= 2 {
            jump_count(s@, starts@.len() as int)
        } else {
            2
        },
        r.1 == if cond_count(s@, starts@.len() as int) <= 2 {
            cond_count(s@, starts@.len() as int)
        } else {
            2
        },
{
    let mut jumps: usize = 0;
    let mut conds: usize = 0;
    let mut k: usize = 0;
    proof {
        lemma_line_starts_from(s@, 0);
    }
    while k < starts.len()
        invariant
            k <= starts@.len(),
            starts@.len() == line_starts(s@).len(),
            forall|i: int| 0 <= i < starts@.len() ==> starts@[i] as int == #[trigger] line_starts(s@)[i],
            forall|i: int| 0 <= i < line_starts(s@).len() ==> 0 <= #[trigger] line_starts(s@)[i] < s@.len(),
            jumps == if jump_count(s@, k as int) <= 2 { jump_count(s@, k as int) } else { 2 },
            conds == if cond_count(s@, k as int) <= 2 { cond_count(s@, k as int) } else { 2 },
            jump_count(s@, k as int) >= 0,
            cond_count(s@, k as int) >= 0,
        decreases starts.len() - k,
    {
        let st = starts[k];
        assert(st == line_starts(s@)[k as int]);
        let en = line_end_at(s, st);
        proof {
            lemma_line_end(s@, st as int);
        }
        let j = jump_in(s, st, en);
        assert(j@ == line_jump(s@, k as int));
        match j {
            JumpType::Jmp(_) => {
                if jumps < 2 {
                    jumps = jumps + 1;
                }
            },
            JumpType::CondJmp(_) => {
                if conds < 2 {
                    conds = conds + 1;
                }
            },
            JumpType::NoJump => {},
        }
        k = k + 1;
    }
    (jumps, conds)
}

/// The label of every block, as characters.
fn block_labels(code: &Vec<CodeBlock>) -> (r: Vec<Option<Vec<char>>>)
    ensures
        r@.len() == code@.len(),
        forall|j: int|
            0 <= j < r@.len() ==> match #[trigger] r@[j] {
                Some(v) => block_label(code@[j].text@) == Some(v@),
                None => block_label(code@[j].text@) is None,
            },
{
    let mut r: Vec<Option<Vec<char>>> = Vec::new();
    let mut j: usize = 0;
    while j < code.len()
        invariant
            j <= code@.len(),
            r@.len() == j,
            forall|i: int|
                0 <= i < j ==> match #[trigger] r@[i] {
                    Some(v) => block_label(code@[i].text@) == Some(v@),
                    None => block_label(code@[i].text@) is None,
                },
        decreases code.len() - j,
    {
        let s = chars_of(code[j].text.as_str());
        let starts = line_starts_of(&s);
        let labels = labels_of(&s, &starts);
        if labels.len() > 0 {
            let la = &labels[labels.len() - 1];
            let mut v: Vec<char> = Vec::new();
            extend_chars(&mut v, &s, la.from, la.to);
            assert(v@ =~= s@.subrange(la.from as int, la.to as int));
            r.push(Some(v));
        } else {
            r.push(None);
        }
        j = j + 1;
    }
    r
}

/// The first block whose label is `l`.
fn find_owner(labels: &Vec<Option<Vec<char>>>, l: &Vec<char>, Ghost(bs): Ghost<Seq<BlockView>>) -> (r: Option<usize>)
    requires
        labels@.len() == bs.len(),
        forall|j: int|
            0 <= j < labels@.len() ==> match #[trigger] labels@[j] {
                Some(v) => block_label(bs[j].text) == Some(v@),
                None => block_label(bs[j].text) is None,
            },
    ensures
        r == label_owner(bs, l@),
{
    let mut j: usize = 0;
    while j < labels.len()
        invariant
            j <= labels@.len(),
            labels@.len() == bs.len(),
            forall|i: int|
                0 <= i < labels@.len() ==> match #[trigger] labels@[i] {
                    Some(v) => block_label(bs[i].text) == Some(v@),
                    None => block_label(bs[i].text) is None,
                },
            label_owner(bs, l@) == label_owner_from(bs, l@, j as int),
        decreases labels.len() - j,
    {
        let ghost here = labels@[j as int];
        match &labels[j] {
            Some(v) => {
                if chars_eq(v, l) {
                    return Some(j);
                }
            },
            None => {},
        }
        j = j + 1;
    }
    None
}

/// The first unconditional jump of `s`, and the first conditional jump with
/// its line and the start of that line.
fn first_jumps(s: &Vec<char>, starts: &Vec<usize>) -> (r: (Option<String>, Option<(String, usize, usize)>))
    requires
        starts@.len() == line_starts(s@).len(),
        forall|k: int| 0 <= k < starts@.len() ==> starts@[k] as int == #[trigger] line_starts(s@)[k],
    ensures
        match r.0 {
            Some(l) => first_jump_from(s@, 0) == Some(l@),
            None => first_jump_from(s@, 0) is None,
        },
        match r.1 {
            Some((l, k, st)) => first_cond_from(s@, 0) == Some((l@, k as int)) && k < starts@.len()
                && st == starts@[k as int],
            None => first_cond_from(s@, 0) is None,
        },
{
    let mut jump: Option<String> = None;
    let mut cond: Option<(String, usize, usize)> = None;
    let mut k: usize = 0;
    proof {
        lemma_line_starts_from(s@, 0);
    }
    while k < starts.len()
        invariant
            k <= starts@.len(),
            starts@.len() == line_starts(s@).len(),
            forall|i: int| 0 <= i < starts@.len() ==> starts@[i] as int == #[trigger] line_starts(s@)[i],
            forall|i: int| 0 <= i < line_starts(s@).len() ==> 0 <= #[trigger] line_starts(s@)[i] < s@.len(),
            match jump {
                Some(l) => first_jump_from(s@, 0) == Some(l@),
                None => first_jump_from(s@, 0) == first_jump_from(s@, k as int),
            },
            match cond {
                Some((l, i, st)) => first_cond_from(s@, 0) == Some((l@, i as int)) && i < starts@.len()
                    && st == starts@[i as int],
                None => first_cond_from(s@, 0) == first_cond_from(s@, k as int),
            },
        decreases starts.len() - k,
    {
        let st = starts[k];
        assert(st == line_starts(s@)[k as int]);
        let en = line_end_at(s, st);
        proof {
            lemma_line_end(s@, st as int);
        }
        let j = jump_in(s, st, en);
        assert(j@ == line_jump(s@, k as int));
        match j {
            JumpType::Jmp(l) => {
                if jump.is_none() {
                    jump = Some(l);
                }
            },
            JumpType::CondJmp(l) => {
                if cond.is_none() {
                    cond = Some((l, k, st));
                }
            },
            JumpType::NoJump => {},
        }
        k = k + 1;
    }
    (jump, cond)
}

/// Links the blocks: a block whose unconditional jump names the label of a
/// block leads to the first such block by `next`; one whose conditional jump
/// does leads there by `next_branch`, and records the line of that jump.
pub fn link(code: &mut Vec<CodeBlock>)
    requires
        all_linkable(views(old(code)@)),
    ensures
        final(code)@.len() == old(code)@.len(),
        forall|j: int|
            0 <= j < final(code)@.len() ==> (#[trigger] final(code)@[j])@ == linked(
                views(old(code)@),
                j,
            ),
{
    let ghost bs = views(code@);
    let labels = block_labels(code);
    assert forall|j: int| 0 <= j < labels@.len() implies match #[trigger] labels@[j] {
        Some(v) => block_label(bs[j].text) == Some(v@),
        None => block_label(bs[j].text) is None,
    } by {
        assert(bs[j] == code@[j]@);
    }
    let mut out: Vec<CodeBlock> = Vec::new();
    let mut j: usize = 0;
    while j < code.len()
        invariant
            j <= code@.len(),
            bs == views(code@),
            all_linkable(bs),
            labels@.len() == bs.len(),
            forall|i: int|
                0 <= i < labels@.len() ==> match #[trigger] labels@[i] {
                    Some(v) => block_label(bs[i].text) == Some(v@),
                    None => block_label(bs[i].text) is None,
                },
            out@.len() == j,
            forall|i: int| 0 <= i < j ==> (#[trigger] out@[i])@ == linked(bs, i),
        decreases code.len() - j,
    {
        let b = &code[j];
        assert(bs[j as int] == b@);
        assert(linkable(bs[j as int].text));
        let s = chars_of(b.text.as_str());
        let starts = line_starts_of(&s);
        let (jump, cond) = first_jumps(&s, &starts);
        let mut next = b.next;
        match jump {
            Some(l) => {
                let lc = chars_of(l.as_str());
                match find_owner(&labels, &lc, Ghost(bs)) {
                    Some(t) => {
                        next = Some(t);
                    },
                    None => {},
                }
            },
            None => {},
        }
        let mut next_branch = b.next_branch;
        let mut next_branch_line = b.next_branch_line;
        let mut next_branch_line_offset = b.next_branch_line_offset;
        match cond {
            Some((l, k, st)) => {
                let lc = chars_of(l.as_str());
                match find_owner(&labels, &lc, Ghost(bs)) {
                    Some(t) => {
                        proof {
                            lemma_line_starts_from(s@, 0);
                        }
                        next_branch = Some(t);
                        next_branch_line = k;
                        next_branch_line_offset = byte_offset(&s, st);
                    },
                    None => {},
                }
            },
            None => {},
        }
        let nb = CodeBlock {
            text: b.text.clone(),
            next,
            next_branch,
            next_branch_line,
            next_branch_line_offset,
        };
        assert(nb@ == linked(bs, j as int));
        out.push(nb);
        j = j + 1;
    }
    *code = out;
}

/// Splits the blocks (see `split`) and links them: a step that always
/// succeeds, since split blocks can be linked. The result gives, for each new
/// block, the block it was cut from.
pub fn split_and_link(code: &mut Vec<CodeBlock>) -> (origins: Vec<usize>)
    requires
        forall|j: int| 0 <= j < old(code)@.len() ==> utf8_len(#[trigger] old(code)@[j].text@) <= usize::MAX,
    ensures
        views(final(code)@) == link_all(split_blocks(views(old(code)@))),
        origins@ == split_origins(views(old(code)@)),
        forall|i: int| 0 <= i < final(code)@.len() ==> split_shape(#[trigger] final(code)@[i].text@),
{
    let ghost bs = views(code@);
    proof {
        assert forall|j: int| 0 <= j < bs.len() implies utf8_len(#[trigger] bs[j].text) <= usize::MAX by {
            assert(bs[j] == code@[j]@);
        }
        law_split_then_link(bs);
    }
    let origins = split(code);
    let ghost mid = views(code@);
    link(code);
    proof {
        assert(views(code@) =~= link_all(mid));
        assert forall|i: int| 0 <= i < code@.len() implies split_shape(#[trigger] code@[i].text@) by {
            assert(views(code@)[i] == code@[i]@);
            assert(code@[i]@ == linked(mid, i));
            law_split_shapes_blocks(bs);
        }
    }
    origins
}

} // verus!
