//! Blocks of code, the labels in them, and the collection of blocks.
use vstd::prelude::*;
use crate::text::{
    byte_offset, chars_of, extend_chars, is_whitespace, is_whitespace_char, lemma_line_end,
    lemma_line_starts_from, lemma_skip_whitespace, line_at, line_end, line_end_at, line_starts,
    line_starts_from, line_starts_of, skip_whitespace, skip_ws, string_of, utf8_len,
    lemma_utf8_len_prefix, int_decimal, push_int_decimal,
};

verus! {

/// A block of code. `next` is the block that control flows to after the last
/// line (the block that follows it, or the target of its unconditional jump),
/// `next_branch` the target of its conditional jump, which stands on line
/// `next_branch_line` (counted from 0) whose first byte is at byte
/// `next_branch_line_offset` of the text. Blocks are named by their index in
/// the collection that holds them.
#[derive(Clone, Debug)]
pub struct CodeBlock {
    pub text: String,
    pub next: Option<usize>,
    pub next_branch: Option<usize>,
    pub next_branch_line: usize,
    pub next_branch_line_offset: usize,
}

/// The mathematical value of a `CodeBlock`.
pub struct BlockView {
    pub text: Seq<char>,
    pub next: Option<usize>,
    pub next_branch: Option<usize>,
    pub next_branch_line: usize,
    pub next_branch_line_offset: usize,
}

impl View for CodeBlock {
    type V = BlockView;

    open spec fn view(&self) -> BlockView {
        BlockView {
            text: self.text@,
            next: self.next,
            next_branch: self.next_branch,
            next_branch_line: self.next_branch_line,
            next_branch_line_offset: self.next_branch_line_offset,
        }
    }
}

/// The views of a sequence of blocks.
pub open spec fn views(bs: Seq<CodeBlock>) -> Seq<BlockView> {
    bs.map_values(|b: CodeBlock| b@)
}

/// An empty block that leads nowhere.
pub open spec fn empty_block() -> BlockView {
    BlockView {
        text: Seq::empty(),
        next: None,
        next_branch: None,
        next_branch_line: 0,
        next_branch_line_offset: 0,
    }
}

impl Default for CodeBlock {
    fn default() -> (r: Self)
        ensures
            r@ == empty_block(),
    {
        CodeBlock {
            text: String::new(),
            next: None,
            next_branch: None,
            next_branch_line: 0,
            next_branch_line_offset: 0,
        }
    }
}

/// A label that a line of a block defines, with the byte offset of that line.
#[derive(Debug)]
pub struct Label {
    pub label: String,
    pub offset: usize,
}

/// A character that ends the first word of a line when it checks for a label.
pub open spec fn is_label_delimiter(c: char) -> bool {
    c == ';' || c == ':' || is_whitespace(c)
}

/// Index of the first label delimiter at or after `i`, or `l.len()`.
pub open spec fn delimiter_from(l: Seq<char>, i: int) -> int
    decreases l.len() - i,
{
    if 0 <= i < l.len() && !is_label_delimiter(l[i]) {
        delimiter_from(l, i + 1)
    } else {
        i
    }
}

/// The label a line defines: its first word when a `:` ends it (a `;` or
/// whitespace ending the word first means there is none).
pub open spec fn line_label(l: Seq<char>) -> Option<Seq<char>> {
    let a = skip_whitespace(l, 0);
    let d = delimiter_from(l, a);
    if d < l.len() && l[d] == ':' {
        Some(l.subrange(a, d))
    } else {
        None
    }
}

/// The labels of the first `n` lines of `s`, each with the index of the first
/// character of its line.
pub open spec fn labels_in_lines(s: Seq<char>, n: int) -> Seq<(Seq<char>, int)>
    decreases n,
{
    if n <= 0 {
        seq![]
    } else {
        let prev = labels_in_lines(s, n - 1);
        let st = line_starts(s)[n - 1];
        match line_label(line_at(s, st)) {
            Some(lb) => prev.push((lb, st)),
            None => prev,
        }
    }
}

/// The labels that the lines of `s` define, in order, each with the index of
/// the first character of its line.
pub open spec fn text_labels(s: Seq<char>) -> Seq<(Seq<char>, int)> {
    labels_in_lines(s, line_starts(s).len() as int)
}

/// A label in a text held as characters: the label is `[from, to)`, its line
/// starts at `line`.
pub struct LabelAt {
    pub from: usize,
    pub to: usize,
    pub line: usize,
}

/// `labels` are the labels of `s`.
pub open spec fn labels_match(s: Seq<char>, labels: Seq<LabelAt>) -> bool {
    let spec_labels = text_labels(s);
    &&& labels.len() == spec_labels.len()
    &&& forall|k: int|
        0 <= k < labels.len() ==> {
            &&& (#[trigger] labels[k]).from <= labels[k].to <= s.len()
            &&& s.subrange(labels[k].from as int, labels[k].to as int) == spec_labels[k].0
            &&& labels[k].line == spec_labels[k].1
        }
}

pub proof fn lemma_delimiter_from(l: Seq<char>, i: int)
    requires
        0 <= i <= l.len(),
    ensures
        i <= delimiter_from(l, i) <= l.len(),
        delimiter_from(l, i) < l.len() ==> is_label_delimiter(l[delimiter_from(l, i)]),
    decreases l.len() - i,
{
    if i < l.len() && !is_label_delimiter(l[i]) {
        lemma_delimiter_from(l, i + 1);
    }
}

/// The label of the line `l`, as a range of `l`.
fn label_of_line(l: &Vec<char>) -> (r: Option<(usize, usize)>)
    ensures
        match r {
            Some((a, d)) => a <= d <= l@.len() && line_label(l@) == Some(
                l@.subrange(a as int, d as int),
            ),
            None => line_label(l@) is None,
        },
{
    assert(l@.subrange(0, l@.len() as int) =~= l@);
    let a = skip_ws(l, 0, l.len());
    proof {
        lemma_skip_whitespace(l@, 0);
    }
    let mut d = a;
    while d < l.len() && !(l[d] == ';' || l[d] == ':' || is_whitespace_char(l[d]))
        invariant
            a <= d <= l@.len(),
            delimiter_from(l@, a as int) == delimiter_from(l@, d as int),
        decreases l.len() - d,
    {
        d = d + 1;
    }
    if d < l.len() && l[d] == ':' {
        Some((a, d))
    } else {
        None
    }
}

/// The labels of the text `s`, whose line starts are `starts`.
pub fn labels_of(s: &Vec<char>, starts: &Vec<usize>) -> (r: Vec<LabelAt>)
    requires
        starts@.len() == line_starts(s@).len(),
        forall|k: int| 0 <= k < starts@.len() ==> starts@[k] as int == #[trigger] line_starts(s@)[k],
    ensures
        labels_match(s@, r@),
{
    let mut r: Vec<LabelAt> = Vec::new();
    let mut k: usize = 0;
    proof {
        lemma_line_starts_from(s@, 0);
    }
    while k < starts.len()
        invariant
            k <= starts@.len(),
            starts@.len() == line_starts(s@).len(),
            forall|j: int| 0 <= j < starts@.len() ==> starts@[j] as int == #[trigger] line_starts(s@)[j],
            forall|j: int| 0 <= j < line_starts(s@).len() ==> 0 <= #[trigger] line_starts(s@)[j] < s@.len(),
            ({
                let sl = labels_in_lines(s@, k as int);
                &&& r@.len() == sl.len()
                &&& forall|j: int|
                    0 <= j < r@.len() ==> {
                        &&& (#[trigger] r@[j]).from <= r@[j].to <= s@.len()
                        &&& s@.subrange(r@[j].from as int, r@[j].to as int) == sl[j].0
                        &&& r@[j].line == sl[j].1
                    }
            }),
        decreases starts.len() - k,
    {
        let st = starts[k];
        assert(st == line_starts(s@)[k as int]);
        let en = line_end_at(s, st);
        proof {
            lemma_line_end(s@, st as int);
        }
        let mut l: Vec<char> = Vec::new();
        extend_chars(&mut l, s, st, en);
        assert(l@ =~= line_at(s@, st as int));
        let found = label_of_line(&l);
        match found {
            Some((a, d)) => {
                proof {
                    assert(s@.subrange(st + a, st + d) =~= l@.subrange(a as int, d as int));
                }
                r.push(LabelAt { from: st + a, to: st + d, line: st });
            },
            None => {},
        }
        k = k + 1;
    }
    r
}

impl CodeBlock {
    /// The labels that the lines of this block define, in order, each with the
    /// byte offset of the start of its line.
    pub fn label(&self) -> (r: Vec<Label>)
        requires
            utf8_len(self.text@) <= usize::MAX,
        ensures
            r@.len() == text_labels(self.text@).len(),
            forall|k: int|
                0 <= k < r@.len() ==> {
                    &&& (#[trigger] r@[k]).label@ == text_labels(self.text@)[k].0
                    &&& r@[k].offset == utf8_len(
                        self.text@.subrange(0, text_labels(self.text@)[k].1),
                    )
                },
    {
        let s = chars_of(self.text.as_str());
        let starts = line_starts_of(&s);
        let found = labels_of(&s, &starts);
        let mut r: Vec<Label> = Vec::new();
        let mut k: usize = 0;
        while k < found.len()
            invariant
                s@ == self.text@,
                utf8_len(s@) <= usize::MAX,
                labels_match(s@, found@),
                k <= found@.len(),
                r@.len() == k,
                forall|j: int|
                    0 <= j < k ==> {
                        &&& (#[trigger] r@[j]).label@ == text_labels(s@)[j].0
                        &&& r@[j].offset == utf8_len(s@.subrange(0, text_labels(s@)[j].1))
                    },
            decreases found.len() - k,
        {
            let la = &found[k];
            assert(la.line <= s@.len()) by {
                lemma_labels_lines(s@);
            }
            let offset = byte_offset(&s, la.line);
            r.push(Label { label: string_of(&s, la.from, la.to), offset });
            k = k + 1;
        }
        r
    }
}

/// The line of every label is a line start of the text.
pub proof fn lemma_labels_lines(s: Seq<char>)
    ensures
        forall|k: int|
            0 <= k < text_labels(s).len() ==> line_starts(s).contains(
                #[trigger] text_labels(s)[k].1,
            ) && 0 <= text_labels(s)[k].1 < s.len(),
{
    lemma_labels_in_lines_lines(s, line_starts(s).len() as int);
}

pub proof fn lemma_labels_in_lines_lines(s: Seq<char>, n: int)
    requires
        n <= line_starts(s).len(),
    ensures
        forall|k: int|
            0 <= k < labels_in_lines(s, n).len() ==> line_starts(s).contains(
                #[trigger] labels_in_lines(s, n)[k].1,
            ) && 0 <= labels_in_lines(s, n)[k].1 < s.len(),
    decreases n,
{
    lemma_line_starts_from(s, 0);
    if n > 0 {
        lemma_labels_in_lines_lines(s, n - 1);
        let st = line_starts(s)[n - 1];
        assert(line_starts(s).contains(st));
        let prev = labels_in_lines(s, n - 1);
        let cur = labels_in_lines(s, n);
        assert forall|k: int| 0 <= k < cur.len() implies line_starts(s).contains(
            #[trigger] cur[k].1,
        ) && 0 <= cur[k].1 < s.len() by {
            if k < prev.len() {
                assert(cur[k] == prev[k]);
            }
        }
    }
}

// ---------------------------------------------------------------------------
// Writing blocks out
// ---------------------------------------------------------------------------

/// The text of a block placed at `(x, y)`: a line `;#codeblock,x,y,` and then
/// the text of the block.
pub open spec fn block_record(x: int, y: int, text: Seq<char>) -> Seq<char> {
    ";#codeblock,"@ + int_decimal(x) + ","@ + int_decimal(y) + ",\n"@ + text
}

impl CodeBlock {
    /// The text of this block placed at `(x, y)`: a line `;#codeblock,x,y,`
    /// and then the text of the block.
    pub fn to_text(&self, x: i32, y: i32) -> (r: String)
        ensures
            r@ == block_record(x as int, y as int, self.text@),
    {
        let mut r = String::from_str(";#codeblock,");
        push_int_decimal(&mut r, x as i64);
        r.append(",");
        push_int_decimal(&mut r, y as i64);
        r.append(",\n");
        r.append(self.text.as_str());
        r
    }
}

/// The number of `true` entries of `m`.
pub open spec fn count_true(m: Seq<bool>) -> nat
    decreases m.len(),
{
    if m.len() == 0 {
        0
    } else {
        count_true(m.drop_last()) + if m.last() {
            1nat
        } else {
            0
        }
    }
}

pub proof fn lemma_count_true_update(m: Seq<bool>, i: int)
    requires
        0 <= i < m.len(),
        m[i],
    ensures
        count_true(m.update(i, false)) + 1 == count_true(m),
    decreases m.len(),
{
    let u = m.update(i, false);
    if i == m.len() - 1 {
        assert(u.drop_last() =~= m.drop_last());
    } else {
        lemma_count_true_update(m.drop_last(), i);
        assert(u.drop_last() =~= m.drop_last().update(i, false));
    }
}

/// Block `b` leads to block `x`.
pub open spec fn refers(b: BlockView, x: int) -> bool {
    b.next == Some(x as usize) || b.next_branch == Some(x as usize)
}

/// Block `x` remains to be written (`rem[x]`) and no remaining block leads to it.
pub open spec fn is_start(bs: Seq<BlockView>, rem: Seq<bool>, x: int) -> bool {
    &&& 0 <= x < rem.len()
    &&& rem[x]
    &&& forall|y: int| 0 <= y < rem.len() && rem[y] ==> !refers(#[trigger] bs[y], x)
}

/// The last start below `k`.
pub open spec fn last_start_below(bs: Seq<BlockView>, rem: Seq<bool>, k: int) -> Option<int>
    decreases k,
{
    if k <= 0 {
        None
    } else if is_start(bs, rem, k - 1) {
        Some(k - 1)
    } else {
        last_start_below(bs, rem, k - 1)
    }
}

pub proof fn lemma_last_start_below(bs: Seq<BlockView>, rem: Seq<bool>, k: int)
    ensures
        match last_start_below(bs, rem, k) {
            Some(s) => is_start(bs, rem, s) && s < k,
            None => forall|x: int| 0 <= x < k ==> !is_start(bs, rem, x),
        },
    decreases k,
{
    if k > 0 {
        lemma_last_start_below(bs, rem, k - 1);
    }
}

/// Writing on from block `s` (already written), with `rem` left: the chain of
/// `next` through blocks that remain, and what remains after it.
pub open spec fn follow(bs: Seq<BlockView>, rem: Seq<bool>, s: int) -> (Seq<int>, Seq<bool>)
    decreases count_true(rem),
{
    match bs[s].next {
        Some(t) => if (t as int) < rem.len() && rem[t as int] {
            proof {
                lemma_count_true_update(rem, t as int);
            }
            let (c, r) = follow(bs, rem.update(t as int, false), t as int);
            (seq![s] + c, r)
        } else {
            (seq![s], rem)
        },
        None => (seq![s], rem),
    }
}

pub proof fn lemma_follow(bs: Seq<BlockView>, rem: Seq<bool>, s: int)
    ensures
        count_true(follow(bs, rem, s).1) <= count_true(rem),
        follow(bs, rem, s).1.len() == rem.len(),
        follow(bs, rem, s).0.len() >= 1,
        follow(bs, rem, s).0[0] == s,
    decreases count_true(rem),
{
    match bs[s].next {
        Some(t) => if (t as int) < rem.len() && rem[t as int] {
            lemma_count_true_update(rem, t as int);
            lemma_follow(bs, rem.update(t as int, false), t as int);
        },
        None => {},
    }
}

/// The first index from `k` on that `rem` marks.
pub open spec fn first_remaining(rem: Seq<bool>, k: int) -> Option<int>
    decreases rem.len() - k,
{
    if 0 <= k < rem.len() {
        if rem[k] {
            Some(k)
        } else {
            first_remaining(rem, k + 1)
        }
    } else {
        None
    }
}

pub proof fn lemma_first_remaining(rem: Seq<bool>, k: int)
    requires
        0 <= k,
    ensures
        match first_remaining(rem, k) {
            Some(s) => k <= s < rem.len() && rem[s],
            None => forall|x: int| k <= x < rem.len() ==> !rem[x],
        },
    decreases rem.len() - k,
{
    if k < rem.len() {
        lemma_first_remaining(rem, k + 1);
    }
}

/// The block that writing starts from when `rem` remain: the last one that no
/// remaining block leads to; when every remaining block is led to (they lie on
/// cycles), the first remaining block.
pub open spec fn write_start(bs: Seq<BlockView>, rem: Seq<bool>) -> Option<int> {
    match last_start_below(bs, rem, rem.len() as int) {
        Some(s) => Some(s),
        None => first_remaining(rem, 0),
    }
}

pub proof fn lemma_write_start(bs: Seq<BlockView>, rem: Seq<bool>)
    ensures
        match write_start(bs, rem) {
            Some(s) => 0 <= s < rem.len() && rem[s],
            None => forall|x: int| 0 <= x < rem.len() ==> !rem[x],
        },
{
    lemma_last_start_below(bs, rem, rem.len() as int);
    lemma_first_remaining(rem, 0);
}

/// The order in which blocks are written when `rem` remain: from the block
/// that `write_start` picks, along `next` while the next block remains, then
/// on with what remains, until no block remains.
pub open spec fn write_order(bs: Seq<BlockView>, rem: Seq<bool>) -> Seq<int>
    decreases count_true(rem),
{
    match write_start(bs, rem) {
        Some(s) => {
            proof {
                lemma_write_start(bs, rem);
                lemma_count_true_update(rem, s);
                lemma_follow(bs, rem.update(s, false), s);
            }
            let (c, r) = follow(bs, rem.update(s, false), s);
            c + write_order(bs, r)
        },
        None => seq![],
    }
}

/// The text of the blocks of `order`, each placed at its position in `pos` and
/// followed by a line break.
pub open spec fn written(bs: Seq<BlockView>, pos: Seq<(i32, i32)>, order: Seq<int>) -> Seq<char>
    decreases order.len(),
{
    if order.len() == 0 {
        seq![]
    } else {
        let i = order.last();
        written(bs, pos, order.drop_last()) + block_record(pos[i].0 as int, pos[i].1 as int, bs[i].text)
            + seq!['\n']
    }
}

/// All blocks remain.
pub open spec fn all_remain(n: int) -> Seq<bool> {
    Seq::new(n as nat, |i: int| true)
}

/// The text of all the blocks, in the order of `write_order`.
pub open spec fn code_text(bs: Seq<BlockView>, pos: Seq<(i32, i32)>) -> Seq<char> {
    written(bs, pos, write_order(bs, all_remain(bs.len() as int)))
}

/// The collection of blocks that the editor works on, and whether the text of
/// a block changed since this was last cleared.
#[derive(Clone, Debug)]
pub struct CodeBlocks {
    pub text_changed: bool,
    vec: Vec<CodeBlock>,
}

impl CodeBlocks {
    /// The blocks.
    pub closed spec fn blocks(&self) -> Seq<CodeBlock> {
        self.vec@
    }

    /// Whether a change of text is noted.
    pub closed spec fn changed(&self) -> bool {
        self.text_changed
    }

    /// A collection of the blocks `vec`, with no change noted.
    pub fn new(vec: Vec<CodeBlock>) -> (r: Self)
        ensures
            r.blocks() == vec@,
            !r.changed(),
    {
        CodeBlocks { text_changed: false, vec }
    }

    /// The blocks.
    pub fn borrow(&self) -> (r: &Vec<CodeBlock>)
        ensures
            r@ == self.blocks(),
    {
        &self.vec
    }

    /// The blocks, to change them.
    pub fn borrow_mut(&mut self) -> (r: &mut Vec<CodeBlock>)
        ensures
            r@ == old(self).blocks(),
            final(self).blocks() == final(r)@,
            final(self).changed() == old(self).changed(),
    {
        &mut self.vec
    }

    /// Whether `x` is a start among the blocks that `rem` marks.
    fn starts_chain(&self, rem: &Vec<bool>, x: usize) -> (r: bool)
        requires
            rem@.len() == self.blocks().len(),
            x < rem@.len(),
        ensures
            r == is_start(views(self.blocks()), rem@, x as int),
    {
        if !rem[x] {
            return false;
        }
        let mut y: usize = 0;
        while y < rem.len()
            invariant
                rem@.len() == self.vec@.len(),
                x < rem@.len(),
                y <= rem@.len(),
                forall|z: int| 0 <= z < y && rem@[z] ==> !refers(#[trigger] views(self.vec@)[z], x as int),
            decreases rem.len() - y,
        {
            let b = &self.vec[y];
            assert(views(self.vec@)[y as int] == b@);
            if rem[y] && (b.next == Some(x) || b.next_branch == Some(x)) {
                return false;
            }
            y = y + 1;
        }
        true
    }

    /// The text of all blocks, block `i` placed at `positions[i]`, each block
    /// once: from a block that no other block leads to (the last such; when
    /// every block left is led to, the first block left), each block is
    /// followed by its `next` block while that one is not written yet; then on
    /// with the rest.
    pub fn to_text(&self, positions: &Vec<(i32, i32)>) -> (r: String)
        requires
            positions@.len() == self.blocks().len(),
        ensures
            r@ == code_text(views(self.blocks()), positions@),
    {
        let ghost bs = views(self.vec@);
        let n = self.vec.len();
        let mut rem: Vec<bool> = Vec::new();
        let mut i: usize = 0;
        while i < n
            invariant
                n == self.vec@.len(),
                i <= n,
                rem@ =~= Seq::new(i as nat, |k: int| true),
            decreases n - i,
        {
            rem.push(true);
            i = i + 1;
        }
        let ghost order: Seq<int> = seq![];
        let mut out = String::new();
        loop
            invariant
                n == self.vec@.len(),
                bs == views(self.vec@),
                positions@.len() == n,
                rem@.len() == n,
                write_order(bs, all_remain(n as int)) == order + write_order(bs, rem@),
                out@ == written(bs, positions@, order),
                forall|k: int| 0 <= k < order.len() ==> 0 <= #[trigger] order[k] < n,
            decreases count_true(rem@),
        {
            let mut k = n;
            let mut found: Option<usize> = None;
            while k > 0
                invariant_except_break
                    found is None,
                invariant
                    k <= n,
                    rem@.len() == n,
                    n == self.vec@.len(),
                    bs == views(self.vec@),
                    last_start_below(bs, rem@, n as int) == last_start_below(bs, rem@, k as int),
                ensures
                    match found {
                        Some(x) => last_start_below(bs, rem@, n as int) == Some(x as int) && x < n,
                        None => last_start_below(bs, rem@, n as int) is None,
                    },
                decreases k,
            {
                if self.starts_chain(&rem, k - 1) {
                    found = Some(k - 1);
                    break;
                }
                k = k - 1;
            }
            if found.is_none() {
                let mut k2: usize = 0;
                while k2 < n
                    invariant_except_break
                        found is None,
                    invariant
                        k2 <= n,
                        rem@.len() == n,
                        first_remaining(rem@, 0) == first_remaining(rem@, k2 as int),
                        last_start_below(bs, rem@, n as int) is None,
                    ensures
                        last_start_below(bs, rem@, n as int) is None,
                        match found {
                            Some(x) => first_remaining(rem@, 0) == Some(x as int) && x < n,
                            None => first_remaining(rem@, 0) is None,
                        },
                    decreases n - k2,
                {
                    if rem[k2] {
                        found = Some(k2);
                        break;
                    }
                    k2 = k2 + 1;
                }
            }
            let ghost before = rem@;
            match found {
                None => {
                    assert(write_start(bs, rem@) is None);
                    assert(write_order(bs, rem@) == Seq::<int>::empty());
                    assert(order + write_order(bs, rem@) =~= order);
                    return out;
                },
                Some(start) => {
                    assert(write_start(bs, rem@) == Some(start as int));
                    proof {
                        lemma_write_start(bs, rem@);
                        lemma_count_true_update(rem@, start as int);
                    }
                    rem.set(start, false);
                    let mut s = start;
                    assert(bs[s as int] == self.vec@[s as int]@);
                    proof {
                        let (c, r) = follow(bs, rem@, s as int);
                        lemma_follow(bs, rem@, s as int);
                        assert(write_order(bs, before) == c + write_order(bs, r));
                        assert(write_order(bs, all_remain(n as int)) =~= order.push(s as int) + c.drop_first() + write_order(bs, r));
                    }
                    let rec = self.vec[s].to_text(positions[s].0, positions[s].1);
                    out.append(rec.as_str());
                    crate::text::push_char(&mut out, '\n');
                    proof {
                        assert(order.push(s as int).drop_last() =~= order);
                        order = order.push(s as int);
                        assert(out@ =~= written(bs, positions@, order));
                    }
                    loop
                        invariant
                            n == self.vec@.len(),
                            bs == views(self.vec@),
                            positions@.len() == n,
                            rem@.len() == n,
                            s < n,
                            count_true(rem@) < count_true(before),
                            ({
                                let (c, r) = follow(bs, rem@, s as int);
                                write_order(bs, all_remain(n as int)) == order + c.drop_first()
                                    + write_order(bs, r)
                            }),
                            out@ == written(bs, positions@, order),
                            forall|k: int| 0 <= k < order.len() ==> 0 <= #[trigger] order[k] < n,
                        ensures
                            rem@.len() == n,
                            count_true(rem@) < count_true(before),
                            write_order(bs, all_remain(n as int)) == order + write_order(bs, rem@),
                            out@ == written(bs, positions@, order),
                            forall|k: int| 0 <= k < order.len() ==> 0 <= #[trigger] order[k] < n,
                        decreases count_true(rem@),
                    {
                        let ghost cur = rem@;
                        assert(bs[s as int] == self.vec@[s as int]@);
                        match self.vec[s].next {
                            Some(t) => {
                                if t < n && rem[t] {
                                    proof {
                                        lemma_count_true_update(rem@, t as int);
                                    }
                                    rem.set(t, false);
                                    proof {
                                        let (c, r) = follow(bs, rem@, t as int);
                                        lemma_follow(bs, rem@, t as int);
                                        assert(follow(bs, cur, s as int) == (seq![s as int] + c, r));
                                        assert((seq![s as int] + c).drop_first() =~= c);
                                        assert(write_order(bs, all_remain(n as int)) =~= order.push(t as int) + c.drop_first() + write_order(bs, r));
                                        assert(count_true(rem@) < count_true(cur));
                                    }
                                    s = t;
                                    assert(bs[s as int] == self.vec@[s as int]@);
                                    let rec = self.vec[s].to_text(positions[s].0, positions[s].1);
                                    out.append(rec.as_str());
                                    crate::text::push_char(&mut out, '\n');
                                    proof {
                                        assert(order.push(s as int).drop_last() =~= order);
                                        order = order.push(s as int);
                                        assert(out@ =~= written(bs, positions@, order));
                                    }
                                } else {
                                    proof {
                                        assert(follow(bs, cur, s as int) == (seq![s as int], cur));
                                        assert(seq![s as int].drop_first() =~= Seq::<int>::empty());
                                        assert(order + Seq::<int>::empty() =~= order);
                                    }
                                    break;
                                }
                            },
                            None => {
                                proof {
                                    assert(follow(bs, cur, s as int) == (seq![s as int], cur));
                                    assert(seq![s as int].drop_first() =~= Seq::<int>::empty());
                                    assert(order + Seq::<int>::empty() =~= order);
                                }
                                break;
                            },
                        }
                    }
                },
            }
        }
    }
}

/// A reference to a block once block `i` is gone: none for `i` itself, one
/// less for the blocks after it.
pub open spec fn shift_ref(r: Option<usize>, i: int) -> Option<usize> {
    match r {
        Some(t) => if t == i {
            None
        } else if t > i {
            Some((t - 1) as usize)
        } else {
            Some(t)
        },
        None => None,
    }
}

/// The blocks `bs` without block `i`: the others keep their order, and
/// references are moved to the new places (those to block `i` lead nowhere).
pub open spec fn removed(bs: Seq<BlockView>, i: int) -> Seq<BlockView> {
    bs.remove(i).map_values(
        |b: BlockView|
            BlockView { next: shift_ref(b.next, i), next_branch: shift_ref(b.next_branch, i), ..b },
    )
}

fn shift(r: Option<usize>, i: usize) -> (o: Option<usize>)
    ensures
        o == shift_ref(r, i as int),
{
    match r {
        Some(t) => if t == i {
            None
        } else if t > i {
            Some(t - 1)
        } else {
            Some(t)
        },
        None => None,
    }
}

/// Deletes block `i`; blocks that led to it lead nowhere.
pub fn remove_block(code: &mut Vec<CodeBlock>, i: usize)
    requires
        i < old(code)@.len(),
    ensures
        views(final(code)@) == removed(views(old(code)@), i as int),
{
    let ghost bs = views(code@);
    let mut out: Vec<CodeBlock> = Vec::new();
    let mut j: usize = 0;
    while j < code.len()
        invariant
            bs == views(code@),
            i < code@.len(),
            j <= code@.len(),
            out@.len() == if j <= i {
                j as int
            } else {
                j - 1
            },
            forall|k: int| 0 <= k < out@.len() ==> (#[trigger] out@[k])@ == removed(bs, i as int)[k],
        decreases code.len() - j,
    {
        if j != i {
            let b = &code[j];
            let nb = CodeBlock {
                text: b.text.clone(),
                next: shift(b.next, i),
                next_branch: shift(b.next_branch, i),
                next_branch_line: b.next_branch_line,
                next_branch_line_offset: b.next_branch_line_offset,
            };
            proof {
                let k = out@.len() as int;
                assert(bs.remove(i as int)[k] == bs[j as int]);
                assert(bs[j as int] == b@);
            }
            out.push(nb);
        }
        j = j + 1;
    }
    assert(views(out@) =~= removed(bs, i as int));
    *code = out;
}

} // verus!
