//! Reading back what was written: the text of the blocks gives back their
//! texts and positions, in the order they were written.
use vstd::prelude::*;
use crate::codeblock::{
    all_remain, block_record, code_text, count_true, empty_block, first_remaining, follow, is_start, last_start_below, lemma_last_start_below,
    lemma_write_start, refers,
    write_start,
    lemma_count_true_update, lemma_follow, write_order, written, BlockView,
};
use crate::lines::{is_line_boundary, lemma_lines_split};
use crate::parser::{
    codeblock_word, digits_end, is_decimal_number, is_exponent_from, is_float_literal, parse_line,
    parse_lines, parse_text, split_commas, ErrorView, ParsedView,
};
use crate::text::{
    find_from, int_decimal, lemma_find_from, lemma_line_end, line_at, line_end, line_starts,
    line_starts_from, lines, nat_decimal, next_line_start, digit_char,
};

verus! {

/// Reading the lines `ls`, numbered from `base` on, after having read `r0`.
pub open spec fn parse_from(r0: Result<Seq<ParsedView>, ErrorView>, ls: Seq<Seq<char>>, base: int) -> Result<Seq<ParsedView>, ErrorView>
    decreases ls.len(),
{
    if ls.len() == 0 {
        r0
    } else {
        match parse_from(r0, ls.drop_last(), base) {
            Ok(bs) => parse_line(bs, base + ls.len() - 1, ls.last()),
            Err(e) => Err(e),
        }
    }
}

/// What reading starts from: one block with no position and no text.
pub open spec fn initial_blocks() -> Seq<ParsedView> {
    seq![ParsedView { pos: None, block: empty_block() }]
}

proof fn lemma_parse_lines_from(s: Seq<char>, n: int)
    requires
        0 <= n <= line_starts(s).len(),
    ensures
        parse_lines(s, n) == parse_from(Ok(initial_blocks()), lines(s).take(n), 0),
    decreases n,
{
    if n > 0 {
        lemma_parse_lines_from(s, n - 1);
        assert(lines(s).take(n).drop_last() =~= lines(s).take(n - 1));
    } else {
        assert(lines(s).take(0) =~= Seq::<Seq<char>>::empty());
    }
}

/// Reading a text is reading its lines.
pub proof fn lemma_parse_text_lines(s: Seq<char>)
    ensures
        parse_text(s) == parse_from(Ok(initial_blocks()), lines(s), 0),
{
    lemma_parse_lines_from(s, line_starts(s).len() as int);
    assert(lines(s).take(line_starts(s).len() as int) =~= lines(s));
}

/// Reading lines one after the other.
pub proof fn lemma_parse_from_add(
    r0: Result<Seq<ParsedView>, ErrorView>,
    a: Seq<Seq<char>>,
    b: Seq<Seq<char>>,
    base: int,
)
    ensures
        parse_from(r0, a + b, base) == parse_from(parse_from(r0, a, base), b, base + a.len()),
    decreases b.len(),
{
    if b.len() == 0 {
        assert(a + b =~= a);
    } else {
        lemma_parse_from_add(r0, a, b.drop_last(), base);
        assert((a + b).drop_last() =~= a + b.drop_last());
    }
}

/// A line of characters with no line break, followed by one, is one line.
pub proof fn lemma_one_line(x: Seq<char>)
    requires
        forall|i: int| 0 <= i < x.len() ==> x[i] != '\n',
        x.len() == 0 || x.last() != '\r',
    ensures
        lines(x.push('\n')) == seq![x],
{
    let u = x.push('\n');
    lemma_find_from(u, '\n', 0);
    assert(u[x.len() as int] == '\n');
    assert(find_from(u, '\n', 0) == x.len()) by {
        let f = find_from(u, '\n', 0);
        if f < x.len() {
            assert(u[f] == x[f]);
        }
        if f > x.len() {
            assert(u[x.len() as int] != '\n');
        }
    }
    assert(line_starts_from(u, next_line_start(u, 0)) == Seq::<int>::empty());
    assert(line_starts(u) == seq![0int]);
    assert(line_at(u, 0) =~= x);
    assert(lines(u) =~= seq![x]);
}

/// No `\r` stands right before a line break, or at the end.
pub open spec fn cr_safe(t: Seq<char>) -> bool {
    forall|i: int| 0 <= i < t.len() && #[trigger] t[i] == '\r' ==> i + 1 < t.len() && t[i + 1] != '\n'
}

/// No line starts with `;#`.
pub open spec fn no_metadata_lines(t: Seq<char>) -> bool {
    forall|i: int|
        0 <= i && i + 1 < t.len() && (i == 0 || t[i - 1] == '\n') ==> !(#[trigger] t[i] == ';'
            && t[i + 1] == '#')
}

/// `bs` with the text of its last block replaced by `text`.
pub open spec fn with_last_text(bs: Seq<ParsedView>, text: Seq<char>) -> Seq<ParsedView> {
    let p = bs.len() - 1;
    bs.update(p, ParsedView { block: BlockView { text, ..bs[p].block }, ..bs[p] })
}

/// Reading a line that is not metadata adds it to the text of the last block.
pub proof fn lemma_plain_line(bs: Seq<ParsedView>, k: int, l: Seq<char>)
    requires
        bs.len() >= 1,
        !(l.len() >= 2 && l[0] == ';' && l[1] == '#'),
    ensures
        parse_line(bs, k, l) == Ok::<Seq<ParsedView>, ErrorView>(
            with_last_text(
                bs,
                if bs.last().block.text.len() == 0 {
                    l
                } else {
                    bs.last().block.text.push('\n') + l
                },
            ),
        ),
{
    reveal(parse_line);
}

/// Reading one line.
pub proof fn lemma_parse_one(bs: Seq<ParsedView>, l: Seq<char>, base: int)
    ensures
        parse_from(Ok(bs), seq![l], base) == parse_line(bs, base, l),
{
    assert(seq![l].drop_last() =~= Seq::<Seq<char>>::empty());
    assert(parse_from(Ok(bs), Seq::<Seq<char>>::empty(), base) == Ok::<Seq<ParsedView>, ErrorView>(
        bs,
    ));
}

proof fn lemma_split_first_line(t: Seq<char>, i: int)
    requires
        0 <= i < t.len(),
        t[i] == '\n',
        forall|k: int| 0 <= k < i ==> t[k] != '\n',
        cr_safe(t),
    ensures
        lines(t.push('\n')) == seq![t.take(i)] + lines(t.skip(i + 1).push('\n')),
        cr_safe(t.skip(i + 1)),
        no_metadata_lines(t) ==> no_metadata_lines(t.skip(i + 1)),
{
    let u = t.push('\n');
    let x = t.take(i);
    assert(is_line_boundary(u, i + 1));
    lemma_lines_split(u, i + 1);
    assert(u.take(i + 1) =~= x.push('\n'));
    assert(u.skip(i + 1) =~= t.skip(i + 1).push('\n'));
    if i > 0 {
        assert(x.last() == t[i - 1]);
    }
    lemma_one_line(x);
    let y = t.skip(i + 1);
    assert forall|k: int| 0 <= k < y.len() && #[trigger] y[k] == '\r' implies k + 1 < y.len() && y[k + 1]
        != '\n' by {
        assert(y[k] == t[k + i + 1]);
    }
    if no_metadata_lines(t) {
        assert forall|k: int|
            0 <= k && k + 1 < y.len() && (k == 0 || y[k - 1] == '\n') implies !(#[trigger] y[k]
            == ';' && y[k + 1] == '#') by {
            assert(y[k] == t[k + i + 1]);
            assert(y[k + 1] == t[k + i + 2]);
            if k > 0 {
                assert(y[k - 1] == t[k + i]);
            }
        }
    }
}

proof fn lemma_whole_line(t: Seq<char>)
    requires
        forall|k: int| 0 <= k < t.len() ==> t[k] != '\n',
        cr_safe(t),
    ensures
        lines(t.push('\n')) == seq![t],
{
    if t.len() > 0 && t.last() == '\r' {
        assert(t[t.len() - 1] == '\r');
    }
    lemma_one_line(t);
}

/// Reading the lines of `t` and a line break after a block whose text is
/// `acc` (not empty) adds a line break and `t` to it.
#[verifier::spinoff_prover]
pub proof fn lemma_read_more_text(bs: Seq<ParsedView>, acc: Seq<char>, t: Seq<char>, base: int)
    requires
        bs.len() >= 1,
        bs.last().block.text == acc,
        acc.len() > 0,
        cr_safe(t),
        no_metadata_lines(t),
    ensures
        parse_from(Ok(bs), lines(t.push('\n')), base) == Ok::<Seq<ParsedView>, ErrorView>(
            with_last_text(bs, acc.push('\n') + t),
        ),
    decreases t.len(),
{
    let i = find_from(t, '\n', 0);
    lemma_find_from(t, '\n', 0);
    if i == t.len() {
        lemma_whole_line(t);
        lemma_parse_one(bs, t, base);
        if t.len() >= 2 {
            assert(!(t[0] == ';' && t[1] == '#'));
        }
        lemma_plain_line(bs, base, t);
    } else {
        lemma_split_first_line(t, i);
        let x = t.take(i);
        let y = t.skip(i + 1);
        if x.len() >= 2 {
            assert(!(t[0] == ';' && t[1] == '#'));
        }
        let bs1 = with_last_text(bs, acc.push('\n') + x);
        lemma_plain_line(bs, base, x);
        lemma_parse_from_add(Ok(bs), seq![x], lines(y.push('\n')), base);
        lemma_parse_one(bs, x, base);
        assert(bs1.last().block.text == acc.push('\n') + x);
        lemma_read_more_text(bs1, acc.push('\n') + x, y, base + 1);
        assert((acc.push('\n') + x).push('\n') + y =~= acc.push('\n') + t);
        assert(with_last_text(bs1, (acc.push('\n') + x).push('\n') + y) =~= with_last_text(
            bs,
            acc.push('\n') + t,
        ));
    }
}

/// A text that can be written and read back: empty, or not starting with a
/// line break, with no `\r` before a line break or at the end, and no line that
/// starts with `;#`.
pub open spec fn readable_text(t: Seq<char>) -> bool {
    t.len() == 0 || (t[0] != '\n' && cr_safe(t) && no_metadata_lines(t))
}

/// Reading the lines of `t` and a line break after a block with no text gives
/// it the text `t`.
#[verifier::spinoff_prover]
#[verifier::rlimit(30)]
pub proof fn lemma_read_text(bs: Seq<ParsedView>, t: Seq<char>, base: int)
    requires
        bs.len() >= 1,
        bs.last().block.text.len() == 0,
        readable_text(t),
    ensures
        parse_from(Ok(bs), lines(t.push('\n')), base) == Ok::<Seq<ParsedView>, ErrorView>(
            with_last_text(bs, t),
        ),
{
    if t.len() == 0 {
        lemma_one_line(t);
        lemma_parse_one(bs, t, base);
        lemma_plain_line(bs, base, t);
    } else {
        let i = find_from(t, '\n', 0);
        lemma_find_from(t, '\n', 0);
        if t.len() >= 2 {
            assert(!(t[0] == ';' && t[1] == '#'));
        }
        if i == t.len() {
            lemma_whole_line(t);
            lemma_parse_one(bs, t, base);
            lemma_plain_line(bs, base, t);
        } else {
            lemma_split_first_line(t, i);
            let x = t.take(i);
            let y = t.skip(i + 1);
            assert(x.len() > 0);
            let bs1 = with_last_text(bs, x);
            lemma_plain_line(bs, base, x);
            lemma_parse_from_add(Ok(bs), seq![x], lines(y.push('\n')), base);
            lemma_parse_one(bs, x, base);
            lemma_read_more_text(bs1, x, y, base + 1);
            assert(x.push('\n') + y =~= t);
            assert(with_last_text(bs1, x.push('\n') + y) =~= with_last_text(bs, t));
        }
    }
}

/// The first line of a written block: `;#codeblock,x,y,`.
pub open spec fn header_line(x: int, y: int) -> Seq<char> {
    ";#codeblock,"@ + int_decimal(x) + ","@ + int_decimal(y) + ","@
}

proof fn lemma_nat_decimal_digits(n: nat)
    ensures
        nat_decimal(n).len() > 0,
        forall|i: int| 0 <= i < nat_decimal(n).len() ==> '0' <= #[trigger] nat_decimal(n)[i] <= '9',
    decreases n,
{
    if n >= 10 {
        lemma_nat_decimal_digits(n / 10);
    }
    assert forall|d: int| 0 <= d < 10 implies '0' <= #[trigger] digit_char(d) <= '9' by {
        assert(((d + 48) as u8) as char == digit_char(d));
        assert(48 <= (d + 48) as u8 <= 57);
    }
    assert(0 <= n % 10 < 10);
}

proof fn lemma_digits_end_all(s: Seq<char>, i: int)
    requires
        0 <= i <= s.len(),
        forall|k: int| 0 <= k < s.len() ==> '0' <= #[trigger] s[k] <= '9',
    ensures
        digits_end(s, i) == s.len(),
    decreases s.len() - i,
{
    if i < s.len() {
        lemma_digits_end_all(s, i + 1);
    }
}

/// A written number reads as a number, and holds neither a comma nor a line
/// break.
pub proof fn lemma_int_decimal(n: int)
    ensures
        is_float_literal(int_decimal(n)),
        forall|i: int|
            0 <= i < int_decimal(n).len() ==> #[trigger] int_decimal(n)[i] != ',' && int_decimal(
                n,
            )[i] != '\n',
        int_decimal(n).len() > 0,
{
    let m: nat = if n < 0 {
        (-n) as nat
    } else {
        n as nat
    };
    lemma_nat_decimal_digits(m);
    let d = nat_decimal(m);
    lemma_digits_end_all(d, 0);
    assert(is_exponent_from(d, d.len() as int));
    assert(is_decimal_number(d));
    if n < 0 {
        assert(int_decimal(n).skip(1) =~= d);
        assert forall|i: int| 0 <= i < int_decimal(n).len() implies #[trigger] int_decimal(n)[i]
            != ',' && int_decimal(n)[i] != '\n' by {
            if i > 0 {
                assert(int_decimal(n)[i] == d[i - 1]);
            }
        }
    }
}

/// Splitting at commas after a piece with no comma.
proof fn lemma_split_commas_cons(a: Seq<char>, b: Seq<char>)
    requires
        forall|i: int| 0 <= i < a.len() ==> #[trigger] a[i] != ',',
    ensures
        split_commas(a + seq![','] + b) == seq![a] + split_commas(b),
{
    let s = a + seq![','] + b;
    lemma_find_from(s, ',', 0);
    assert(s[a.len() as int] == ',');
    assert(find_from(s, ',', 0) == a.len()) by {
        let f = find_from(s, ',', 0);
        if f < a.len() {
            assert(s[f] == a[f]);
        }
    }
    assert(s.subrange(0, a.len() as int) =~= a);
    assert(s.skip(a.len() as int + 1) =~= b);
}

/// The pieces of a block line between commas.
proof fn lemma_header_params(x: int, y: int)
    ensures
        ({
            let h = header_line(x, y);
            &&& h.len() >= 2
            &&& h[0] == ';'
            &&& h[1] == '#'
            &&& split_commas(h.skip(2)) == seq![codeblock_word(), int_decimal(x), int_decimal(y), seq![]]
            &&& forall|i: int| 0 <= i < h.len() ==> #[trigger] h[i] != '\n'
            &&& h.last() == ','
        }),
{
    reveal_strlit(";#codeblock,");
    reveal_strlit(",");
    let h = header_line(x, y);
    let dx = int_decimal(x);
    let dy = int_decimal(y);
    lemma_int_decimal(x);
    lemma_int_decimal(y);
    assert(";#codeblock,"@ =~= seq![';', '#'] + codeblock_word() + seq![',']);
    assert(","@ =~= seq![',']);
    assert(h.skip(2) =~= codeblock_word() + seq![','] + (dx + seq![','] + (dy + seq![','] + seq![])));
    assert forall|i: int| 0 <= i < codeblock_word().len() implies #[trigger] codeblock_word()[i] != ',' by {}
    lemma_split_commas_cons(codeblock_word(), dx + seq![','] + (dy + seq![','] + seq![]));
    lemma_split_commas_cons(dx, dy + seq![','] + seq![]);
    lemma_split_commas_cons(dy, seq![]);
    let e: Seq<char> = seq![];
    assert(find_from(e, ',', 0) == 0);
    assert(split_commas(e) == seq![e]);
    assert forall|i: int| 0 <= i < h.len() implies #[trigger] h[i] != '\n' by {
        if 12 <= i < 12 + dx.len() {
            assert(h[i] == dx[i - 12]);
        } else if 13 + dx.len() <= i < 13 + dx.len() + dy.len() {
            assert(h[i] == dy[i - 13 - dx.len()]);
        }
    }
}

/// A written block is its block line, then the lines of its text.
proof fn lemma_record_lines(x: int, y: int, t: Seq<char>)
    ensures
        lines(block_record(x, y, t).push('\n')) == seq![header_line(x, y)] + lines(t.push('\n')),
{
    reveal_strlit(",\n");
    reveal_strlit(",");
    lemma_header_params(x, y);
    let h = header_line(x, y);
    let r = block_record(x, y, t).push('\n');
    assert(",\n"@ =~= seq![','].push('\n'));
    assert(r =~= h.push('\n') + t.push('\n'));
    assert(is_line_boundary(r, h.len() as int + 1));
    lemma_lines_split(r, h.len() as int + 1);
    assert(r.take(h.len() as int + 1) =~= h.push('\n'));
    assert(r.skip(h.len() as int + 1) =~= t.push('\n'));
    lemma_one_line(h);
}

/// The block that reading a block line adds.
pub open spec fn read_block(x: int, y: int) -> ParsedView {
    ParsedView { pos: Some((int_decimal(x), int_decimal(y))), block: empty_block() }
}

/// The blocks after reading a block line: a last block with no text is
/// dropped, one with text leads to the new block.
pub open spec fn after_header(bs: Seq<ParsedView>, x: int, y: int) -> Seq<ParsedView> {
    (if bs.last().block.text.len() == 0 {
        crate::parser::unlink(bs.drop_last(), bs.len() - 1)
    } else {
        bs.update(
            bs.len() - 1,
            ParsedView { block: BlockView { next: Some(bs.len() as usize), ..bs.last().block }, ..bs.last() },
        )
    }).push(read_block(x, y))
}

proof fn lemma_header_line(bs: Seq<ParsedView>, k: int, x: int, y: int)
    requires
        bs.len() >= 1,
    ensures
        parse_line(bs, k, header_line(x, y)) == Ok::<Seq<ParsedView>, ErrorView>(after_header(bs, x, y)),
{
    reveal(parse_line);
    lemma_header_params(x, y);
    lemma_int_decimal(x);
    lemma_int_decimal(y);
}

/// Reading a written block.
proof fn lemma_read_record(bs: Seq<ParsedView>, x: int, y: int, t: Seq<char>, base: int)
    requires
        bs.len() >= 1,
        readable_text(t),
    ensures
        parse_from(Ok(bs), lines(block_record(x, y, t).push('\n')), base) == Ok::<
            Seq<ParsedView>,
            ErrorView,
        >(with_last_text(after_header(bs, x, y), t)),
{
    lemma_record_lines(x, y, t);
    let h = header_line(x, y);
    let tl = lines(t.push('\n'));
    lemma_parse_from_add(Ok(bs), seq![h], tl, base);
    lemma_parse_one(bs, h, base);
    lemma_header_line(bs, base, x, y);
    let bs2 = after_header(bs, x, y);
    assert(bs2.last() == read_block(x, y));
    lemma_read_text(bs2, t, base + 1);
}

/// The block that reading gives for the `k`-th of the `m` blocks written in
/// `order`: its position as written, its text, leading to the one after it.
pub open spec fn read_back_block(
    bs: Seq<BlockView>,
    pos: Seq<(i32, i32)>,
    order: Seq<int>,
    k: int,
) -> ParsedView {
    let i = order[k];
    ParsedView {
        pos: Some((int_decimal(pos[i].0 as int), int_decimal(pos[i].1 as int))),
        block: BlockView {
            text: bs[i].text,
            next: if k + 1 < order.len() {
                Some((k + 1) as usize)
            } else {
                None
            },
            ..empty_block()
        },
    }
}

/// What reading gives back of the blocks of `bs` written in `order` at the
/// positions `pos`: one block per written block, in the order written, each
/// leading to the next; a single block with no position and no text when
/// nothing was written.
pub open spec fn read_back(bs: Seq<BlockView>, pos: Seq<(i32, i32)>, order: Seq<int>) -> Seq<
    ParsedView,
> {
    if order.len() == 0 {
        initial_blocks()
    } else {
        Seq::new(order.len(), |k: int| read_back_block(bs, pos, order, k))
    }
}

/// Writing and reading back the blocks of `order`, as far as its first `j`.
#[verifier::spinoff_prover]
proof fn lemma_read_back_prefix(bs: Seq<BlockView>, pos: Seq<(i32, i32)>, order: Seq<int>, j: int)
    requires
        1 <= j <= order.len(),
        pos.len() == bs.len(),
        forall|k: int| 0 <= k < order.len() ==> 0 <= #[trigger] order[k] < bs.len(),
        forall|k: int| 0 <= k < order.len() ==> readable_text(#[trigger] bs[order[k]].text),
        forall|k: int| 0 <= k < order.len() - 1 ==> (#[trigger] bs[order[k]].text).len() > 0,
    ensures
        parse_from(Ok(initial_blocks()), lines(written(bs, pos, order.take(j))), 0) == Ok::<
            Seq<ParsedView>,
            ErrorView,
        >(read_back(bs, pos, order.take(j))),
        written(bs, pos, order.take(j)).len() > 0,
        written(bs, pos, order.take(j)).last() == '\n',
    decreases j,
{
    let i = order[j - 1];
    let x = pos[i].0 as int;
    let y = pos[i].1 as int;
    let t = bs[i].text;
    let o = order.take(j);
    assert(o.drop_last() =~= order.take(j - 1));
    let w0 = written(bs, pos, order.take(j - 1));
    let rec = block_record(x, y, t).push('\n');
    assert(written(bs, pos, o) =~= w0 + rec);
    let bs1 = if j == 1 {
        initial_blocks()
    } else {
        read_back(bs, pos, order.take(j - 1))
    };
    let base = lines(w0).len() as int;
    assert(parse_from(Ok(initial_blocks()), lines(w0 + rec), 0) == parse_from(Ok(bs1), lines(rec), base))
        by {
        if j == 1 {
            assert(order.take(0) =~= Seq::<int>::empty());
            assert(w0 =~= Seq::<char>::empty());
            assert(w0 + rec =~= rec);
            assert(line_starts(w0) =~= Seq::<int>::empty());
            assert(lines(w0) =~= Seq::<Seq<char>>::empty());
        } else {
            lemma_read_back_prefix(bs, pos, order, j - 1);
            let s = w0 + rec;
            assert(is_line_boundary(s, w0.len() as int));
            lemma_lines_split(s, w0.len() as int);
            assert(s.take(w0.len() as int) =~= w0);
            assert(s.skip(w0.len() as int) =~= rec);
            lemma_parse_from_add(Ok(initial_blocks()), lines(w0), lines(rec), 0);
        }
    }
    lemma_read_record(bs1, x, y, t, base);
    let r = read_back(bs, pos, o);
    assert(with_last_text(after_header(bs1, x, y), t) =~= r) by {
        if j == 1 {
            assert(crate::parser::unlink(bs1.drop_last(), 0) =~= Seq::<ParsedView>::empty());
        } else {
            assert(bs1.last().block.text == bs[order[j - 2]].text);
            assert forall|k: int| 0 <= k < r.len() implies #[trigger] with_last_text(
                after_header(bs1, x, y),
                t,
            )[k] == r[k] by {
                if k < j - 1 {
                    assert(bs1[k] == read_back_block(bs, pos, order.take(j - 1), k));
                }
            }
        }
    }
    assert(written(bs, pos, o).last() == rec.last());
}

/// Following `next` from `s`, which is no longer to be written: the blocks
/// after `s` were all to be written and are no longer, none comes twice, and
/// no other block stops being to be written.
proof fn lemma_follow_props(bs: Seq<BlockView>, rem: Seq<bool>, s: int)
    requires
        0 <= s < rem.len(),
        !rem[s],
    ensures
        ({
            let (c, r) = follow(bs, rem, s);
            &&& c.len() >= 1 && c[0] == s
            &&& r.len() == rem.len()
            &&& forall|k: int| 1 <= k < c.len() ==> 0 <= #[trigger] c[k] < rem.len() && rem[c[k]] && !r[c[k]]
            &&& forall|i: int, k: int| 0 <= i < k < c.len() ==> c[i] != c[k]
            &&& forall|x: int| 0 <= x < r.len() && #[trigger] r[x] ==> rem[x]
            &&& c.len() - 1 == count_true(rem) - count_true(r)
            &&& forall|x: int|
                0 <= x < rem.len() && rem[x] && !#[trigger] r[x] ==> exists|k: int|
                    1 <= k < c.len() && c[k] == x
        }),
    decreases count_true(rem),
{
    match bs[s].next {
        Some(t) => if (t as int) < rem.len() && rem[t as int] {
            let rem1 = rem.update(t as int, false);
            lemma_count_true_update(rem, t as int);
            lemma_follow_props(bs, rem1, t as int);
            let (c1, r1) = follow(bs, rem1, t as int);
            let c = follow(bs, rem, s).0;
            assert(c == seq![s] + c1);
            assert forall|k: int| 1 <= k < c.len() implies 0 <= #[trigger] c[k] < rem.len() && rem[c[k]]
                && !r1[c[k]] by {
                assert(c[k] == c1[k - 1]);
                if k >= 2 {
                    assert(rem1[c1[k - 1]]);
                }
            }
            assert forall|i: int, k: int| 0 <= i < k < c.len() implies c[i] != c[k] by {
                assert(c[k] == c1[k - 1]);
                if i > 0 {
                    assert(c[i] == c1[i - 1]);
                } else {
                    assert(rem[c[k]]);
                }
            }
            assert forall|x: int| 0 <= x < rem.len() && rem[x] && !#[trigger] r1[x] implies exists|k: int|
                1 <= k < c.len() && c[k] == x by {
                if x == t as int {
                    assert(c[1] == x);
                } else {
                    assert(rem1[x]);
                    let k1 = choose|k: int| 1 <= k < c1.len() && c1[k] == x;
                    assert(c[k1 + 1] == x);
                }
            }
        },
        None => {},
    }
}

/// No block remains: none is counted.
proof fn lemma_count_true_none(rem: Seq<bool>)
    requires
        forall|x: int| 0 <= x < rem.len() ==> !rem[x],
    ensures
        count_true(rem) == 0,
    decreases rem.len(),
{
    if rem.len() > 0 {
        lemma_count_true_none(rem.drop_last());
    }
}

/// All `n` blocks remain: `n` are counted.
proof fn lemma_count_all_remain(n: int)
    requires
        0 <= n,
    ensures
        count_true(all_remain(n)) == n,
    decreases n,
{
    if n > 0 {
        lemma_count_all_remain(n - 1);
        assert(all_remain(n).drop_last() =~= all_remain(n - 1));
    }
}

/// What `write_order` writes are the blocks that remain to be written, each
/// once.
proof fn lemma_write_order_props(bs: Seq<BlockView>, rem: Seq<bool>)
    ensures
        forall|k: int|
            0 <= k < write_order(bs, rem).len() ==> 0 <= #[trigger] write_order(bs, rem)[k] < rem.len()
                && rem[write_order(bs, rem)[k]],
        forall|i: int, k: int|
            0 <= i < k < write_order(bs, rem).len() ==> write_order(bs, rem)[i] != write_order(
                bs,
                rem,
            )[k],
        write_order(bs, rem).len() == count_true(rem),
        forall|x: int|
            0 <= x < rem.len() && #[trigger] rem[x] ==> write_order(bs, rem).contains(x),
    decreases count_true(rem),
{
    lemma_write_start(bs, rem);
    match write_start(bs, rem) {
        Some(s) => {
            let rem1 = rem.update(s, false);
            lemma_count_true_update(rem, s);
            lemma_follow(bs, rem1, s);
            lemma_follow_props(bs, rem1, s);
            let (c, r) = follow(bs, rem1, s);
            lemma_write_order_props(bs, r);
            let w = write_order(bs, r);
            let o = write_order(bs, rem);
            assert(o == c + w);
            assert forall|k: int| 0 <= k < o.len() implies 0 <= #[trigger] o[k] < rem.len() && rem[o[k]] by {
                if k >= c.len() {
                    assert(o[k] == w[k - c.len()]);
                    assert(r[w[k - c.len()]]);
                    assert(rem1[w[k - c.len()]]);
                } else if k > 0 {
                    assert(rem1[c[k]]);
                }
            }
            assert forall|i: int, k: int| 0 <= i < k < o.len() implies o[i] != o[k] by {
                if k >= c.len() {
                    assert(o[k] == w[k - c.len()]);
                    assert(r[w[k - c.len()]]);
                    if i >= c.len() {
                        assert(o[i] == w[i - c.len()]);
                    } else if i == 0 {
                        assert(!rem1[s]);
                    } else {
                        assert(!r[c[i]]);
                    }
                }
            }
            assert forall|x: int| 0 <= x < rem.len() && #[trigger] rem[x] implies o.contains(x) by {
                if x == s {
                    assert(o[0] == x);
                } else if r[x] {
                    let k = choose|k: int| 0 <= k < w.len() && w[k] == x;
                    assert(o[c.len() + k] == x);
                } else {
                    assert(rem1[x]);
                    let k = choose|k: int| 1 <= k < c.len() && c[k] == x;
                    assert(o[k] == x);
                }
            }
        },
        None => {
            lemma_count_true_none(rem);
        },
    }
}

/// Following `next` from `s`: each block of the chain leads to the one after
/// it, and the last leads to no block that is still to be written.
#[verifier::spinoff_prover]
#[verifier::rlimit(40)]
proof fn lemma_follow_links(bs: Seq<BlockView>, rem: Seq<bool>, s: int)
    requires
        0 <= s < rem.len(),
    ensures
        follow(bs, rem, s).0.len() >= 1,
        follow(bs, rem, s).0[0] == s,
        forall|k: int|
            1 <= k < follow(bs, rem, s).0.len() ==> chain_step(bs, follow(bs, rem, s).0, k),
        chain_end_ok(bs, follow(bs, rem, s).0, follow(bs, rem, s).1),
    decreases count_true(rem),
{
    lemma_follow(bs, rem, s);
    match bs[s].next {
        Some(t) => if (t as int) < rem.len() && rem[t as int] {
            let rem1 = rem.update(t as int, false);
            lemma_count_true_update(rem, t as int);
            lemma_follow_links(bs, rem1, t as int);
            let c1 = follow(bs, rem1, t as int).0;
            let r1 = follow(bs, rem1, t as int).1;
            let c = seq![s] + c1;
            assert(follow(bs, rem, s) == (c, r1));
            assert forall|k: int| 1 <= k < c.len() implies chain_step(bs, c, k) by {
                if k >= 2 {
                    assert(chain_step(bs, c1, k - 1));
                    assert(c[k] == c1[k - 1]);
                    assert(c[k - 1] == c1[k - 2]);
                }
            }
            assert(c.last() == c1.last());
        } else {
            assert(follow(bs, rem, s) == (seq![s], rem));
        },
        None => {
            assert(follow(bs, rem, s) == (seq![s], rem));
        },
    }
}

/// Block `c[k - 1]` leads by `next` to block `c[k]`.
pub open spec fn chain_step(bs: Seq<BlockView>, c: Seq<int>, k: int) -> bool {
    bs[c[k - 1]].next is Some && bs[c[k - 1]].next->0 as int == c[k]
}

/// The last block of `c` leads to no block left in `r`.
pub open spec fn chain_end_ok(bs: Seq<BlockView>, c: Seq<int>, r: Seq<bool>) -> bool {
    bs[c.last()].next is Some ==> !((bs[c.last()].next->0 as int) < r.len() && r[bs[c.last()].next->0 as int])
}

/// The blocks of `rem` that are not among the first `p` of `order`.
pub open spec fn left_after(rem: Seq<bool>, order: Seq<int>, p: int) -> Seq<bool> {
    Seq::new(rem.len(), |x: int| rem[x] && !order.take(p).contains(x))
}

/// Block `x` is left in `left`, and no block left in `left` leads to it, by
/// `next` or by a branch.
pub open spec fn unled(bs: Seq<BlockView>, left: Seq<bool>, x: int) -> bool {
    &&& 0 <= x < left.len()
    &&& left[x]
    &&& forall|y: int|
        0 <= y < left.len() && left[y] ==> bs[y].next != Some(x as usize) && bs[y].next_branch != Some(
            x as usize,
        )
}

/// The block a new chain starts from when `left` are left: the last block
/// that no block left leads to; when there is none, the first block left.
pub open spec fn chain_start(bs: Seq<BlockView>, left: Seq<bool>, x: int) -> bool {
    ||| unled(bs, left, x) && forall|z: int| #[trigger] unled(bs, left, z) ==> z <= x
    ||| (forall|z: int| !#[trigger] unled(bs, left, z)) && 0 <= x < left.len() && left[x] && forall|z: int|
        0 <= z < left.len() && left[z] ==> x <= z
}

proof fn lemma_start_is_unled(bs: Seq<BlockView>, rem: Seq<bool>, x: int)
    ensures
        is_start(bs, rem, x) == unled(bs, rem, x),
{
}

proof fn lemma_last_start_is_last(bs: Seq<BlockView>, rem: Seq<bool>, k: int)
    requires
        k <= rem.len(),
    ensures
        match last_start_below(bs, rem, k) {
            Some(s) => forall|z: int| s < z < k ==> !#[trigger] is_start(bs, rem, z),
            None => forall|z: int| z < k ==> !#[trigger] is_start(bs, rem, z),
        },
    decreases k,
{
    if k > 0 {
        lemma_last_start_is_last(bs, rem, k - 1);
    }
}

proof fn lemma_first_remaining_first(rem: Seq<bool>, k: int)
    requires
        0 <= k,
    ensures
        match first_remaining(rem, k) {
            Some(s) => forall|z: int| k <= z < s ==> !rem[z],
            None => true,
        },
    decreases rem.len() - k,
{
    if k < rem.len() {
        lemma_first_remaining_first(rem, k + 1);
    }
}

/// The block that `write_start` picks starts a chain as `chain_start` says.
proof fn lemma_write_start_picked(bs: Seq<BlockView>, rem: Seq<bool>)
    ensures
        write_start(bs, rem) matches Some(s) ==> chain_start(bs, rem, s),
{
    lemma_write_start(bs, rem);
    lemma_last_start_below(bs, rem, rem.len() as int);
    lemma_last_start_is_last(bs, rem, rem.len() as int);
    lemma_first_remaining_first(rem, 0);
    match last_start_below(bs, rem, rem.len() as int) {
        Some(s) => {
            lemma_start_is_unled(bs, rem, s);
            assert forall|z: int| #[trigger] unled(bs, rem, z) implies z <= s by {
                lemma_start_is_unled(bs, rem, z);
            }
        },
        None => {
            assert forall|z: int| !#[trigger] unled(bs, rem, z) by {
                lemma_start_is_unled(bs, rem, z);
            }
        },
    }
}

/// Every block of the order `o` that does not follow the block before it by
/// `next` starts a chain as `chain_start` says, among the blocks left.
pub open spec fn start_rule(bs: Seq<BlockView>, rem: Seq<bool>, o: Seq<int>) -> bool {
    forall|p: int|
        0 <= p < o.len() && (p == 0 || bs[o[p - 1]].next != Some(o[p] as usize)) ==> chain_start(
            bs,
            left_after(rem, o, p),
            #[trigger] o[p],
        )
}

/// A block of the order `o` that leads by `next` to a block still left is
/// followed by it.
pub open spec fn follow_rule(bs: Seq<BlockView>, rem: Seq<bool>, o: Seq<int>) -> bool {
    forall|p: int, t: usize|
        0 <= p < o.len() && bs[o[p]].next == Some(t) && (t as int) < rem.len() && #[trigger] left_after(
            rem,
            o,
            p + 1,
        )[t as int] ==> p + 1 < o.len() && o[p + 1] == t as int
}

/// What `write_order` does, position by position.
pub open spec fn order_rules(bs: Seq<BlockView>, rem: Seq<bool>, o: Seq<int>) -> bool {
    start_rule(bs, rem, o) && follow_rule(bs, rem, o)
}

/// What is left after the first chain is what remained, but the chain.
proof fn lemma_chain_left(bs: Seq<BlockView>, rem: Seq<bool>, s: int)
    requires
        0 <= s < rem.len(),
        rem[s],
    ensures
        ({
            let (c, r) = follow(bs, rem.update(s, false), s);
            &&& r.len() == rem.len()
            &&& forall|x: int| 0 <= x < rem.len() ==> #[trigger] r[x] == (rem[x] && !c.contains(x))
        }),
{
    let rem1 = rem.update(s, false);
    lemma_follow_props(bs, rem1, s);
    let (c, r) = follow(bs, rem1, s);
    assert forall|x: int| 0 <= x < rem.len() implies #[trigger] r[x] == (rem[x] && !c.contains(x)) by {
        if r[x] {
            assert(rem1[x]);
            if c.contains(x) {
                let k = choose|k: int| 0 <= k < c.len() && c[k] == x;
                if k == 0 {
                    assert(!rem1[s]);
                } else {
                    assert(!r[c[k]]);
                }
            }
        } else if rem[x] && x != s {
            assert(rem1[x]);
            let k = choose|k: int| 1 <= k < c.len() && c[k] == x;
            assert(c.contains(x));
        } else if rem[x] {
            assert(c[0] == x);
        }
    }
}

/// What is left after `p` blocks of `c + w` is what is left of `r` after the
/// blocks of `w` before `p`, when `r` is `rem` without `c`.
proof fn lemma_left_shift(rem: Seq<bool>, c: Seq<int>, w: Seq<int>, r: Seq<bool>, p: int)
    requires
        c.len() <= p <= c.len() + w.len(),
        r.len() == rem.len(),
        forall|x: int| 0 <= x < rem.len() ==> #[trigger] r[x] == (rem[x] && !c.contains(x)),
    ensures
        left_after(rem, c + w, p) == left_after(r, w, p - c.len()),
{
    let n = c.len() as int;
    let o = c + w;
    let ot = o.take(p);
    let wt = w.take(p - n);
    assert(ot =~= c + wt);
    assert forall|x: int| 0 <= x < rem.len() implies left_after(rem, o, p)[x] == left_after(
        r,
        w,
        p - n,
    )[x] by {
        assert(ot.contains(x) == (c.contains(x) || wt.contains(x))) by {
            if ot.contains(x) {
                let k = choose|k: int| 0 <= k < ot.len() && ot[k] == x;
                if k >= n {
                    assert(wt[k - n] == x);
                } else {
                    assert(c[k] == x);
                }
            }
            if c.contains(x) {
                let k = choose|k: int| 0 <= k < c.len() && c[k] == x;
                assert(ot[k] == x);
            }
            if wt.contains(x) {
                let k = choose|k: int| 0 <= k < wt.len() && wt[k] == x;
                assert(ot[k + n] == x);
            }
        }
    }
    assert(left_after(rem, o, p) =~= left_after(r, w, p - n));
}

/// What a chain `c` from a start, followed by an order `w` of what it left
/// (`r`), needs for the rules.
pub open spec fn join_ok(bs: Seq<BlockView>, rem: Seq<bool>, c: Seq<int>, w: Seq<int>, r: Seq<bool>) -> bool {
    &&& c.len() >= 1
    &&& chain_start(bs, rem, c[0])
    &&& forall|k: int| 1 <= k < c.len() ==> chain_step(bs, c, k)
    &&& chain_end_ok(bs, c, r)
    &&& r.len() == rem.len()
    &&& forall|x: int| 0 <= x < rem.len() ==> #[trigger] r[x] == (rem[x] && !c.contains(x))
    &&& w.len() > 0 ==> 0 <= w[0] < r.len() && r[w[0]]
}

#[verifier::spinoff_prover]
proof fn lemma_start_join(bs: Seq<BlockView>, rem: Seq<bool>, c: Seq<int>, w: Seq<int>, r: Seq<bool>)
    requires
        join_ok(bs, rem, c, w, r),
        start_rule(bs, r, w),
    ensures
        start_rule(bs, rem, c + w),
{
    let o = c + w;
    let n = c.len() as int;
    assert forall|p: int|
        0 <= p < o.len() && (p == 0 || bs[o[p - 1]].next != Some(o[p] as usize)) implies chain_start(
        bs,
        left_after(rem, o, p),
        #[trigger] o[p],
    ) by {
        if p >= n {
            lemma_left_shift(rem, c, w, r, p);
            assert(o[p] == w[p - n]);
            if p > n {
                assert(o[p - 1] == w[p - n - 1]);
            }
        } else if p > 0 {
            assert(chain_step(bs, c, p));
            assert(o[p - 1] == c[p - 1]);
        } else {
            assert(left_after(rem, o, 0) =~= rem) by {
                assert(o.take(0) =~= Seq::<int>::empty());
            }
        }
    }
}

#[verifier::spinoff_prover]
proof fn lemma_follow_join(bs: Seq<BlockView>, rem: Seq<bool>, c: Seq<int>, w: Seq<int>, r: Seq<bool>)
    requires
        join_ok(bs, rem, c, w, r),
        follow_rule(bs, r, w),
    ensures
        follow_rule(bs, rem, c + w),
{
    let o = c + w;
    let n = c.len() as int;
    assert forall|p: int, t: usize|
        0 <= p < o.len() && bs[o[p]].next == Some(t) && (t as int) < rem.len()
            && #[trigger] left_after(rem, o, p + 1)[t as int] implies p + 1 < o.len() && o[p + 1]
        == t as int by {
        if p >= n {
            lemma_left_shift(rem, c, w, r, p + 1);
            assert(o[p] == w[p - n]);
            assert(left_after(r, w, p - n + 1)[t as int]);
            assert(p - n + 1 < w.len() && w[p - n + 1] == t as int);
            assert(o[p + 1] == w[p + 1 - n]);
        } else if p + 1 < n {
            assert(chain_step(bs, c, p + 1));
            assert(o[p] == c[p]);
            assert(o[p + 1] == c[p + 1]);
        } else {
            lemma_left_shift(rem, c, w, r, n);
            assert(c.last() == o[p]);
            assert(left_after(r, w, 0) =~= r) by {
                assert(w.take(0) =~= Seq::<int>::empty());
            }
            assert(r[t as int]);
            assert(chain_end_ok(bs, c, r));
        }
    }
}

proof fn lemma_order_rules(bs: Seq<BlockView>, rem: Seq<bool>)
    ensures
        order_rules(bs, rem, write_order(bs, rem)),
    decreases count_true(rem),
{
    lemma_write_start(bs, rem);
    match write_start(bs, rem) {
        Some(s) => {
            let rem1 = rem.update(s, false);
            lemma_count_true_update(rem, s);
            lemma_follow(bs, rem1, s);
            lemma_follow_links(bs, rem1, s);
            let (c, r) = follow(bs, rem1, s);
            lemma_order_rules(bs, r);
            lemma_write_order_props(bs, r);
            lemma_write_start_picked(bs, rem);
            lemma_chain_left(bs, rem, s);
            let w = write_order(bs, r);
            assert(write_order(bs, rem) == c + w);
            assert(join_ok(bs, rem, c, w, r));
            lemma_start_join(bs, rem, c, w, r);
            lemma_follow_join(bs, rem, c, w, r);
        },
        None => {},
    }
}

/// Saving writes the blocks chain by chain: a block that leads by `next` to a
/// block not yet written is followed by it; every other block starts a chain:
/// the last block that no block still to be written leads to, or, when every
/// block left is led to, the first block left.
pub proof fn law_write_order(bs: Seq<BlockView>)
    ensures
        order_rules(bs, all_remain(bs.len() as int), write_order(bs, all_remain(bs.len() as int))),
{
    lemma_order_rules(bs, all_remain(bs.len() as int));
}

/// Writing the blocks writes every block exactly once.
pub proof fn law_written_once(bs: Seq<BlockView>)
    ensures
        ({
            let order = write_order(bs, all_remain(bs.len() as int));
            &&& order.len() == bs.len()
            &&& forall|k: int| 0 <= k < order.len() ==> 0 <= #[trigger] order[k] < bs.len()
            &&& forall|i: int, k: int| 0 <= i < k < order.len() ==> order[i] != order[k]
            &&& forall|x: int| 0 <= x < bs.len() ==> #[trigger] order.contains(x)
        }),
{
    let rem = all_remain(bs.len() as int);
    lemma_write_order_props(bs, rem);
    lemma_count_all_remain(bs.len() as int);
    assert forall|x: int| 0 <= x < bs.len() implies #[trigger] write_order(bs, rem).contains(x) by {
        assert(rem[x]);
    }
}

/// Reading back what `CodeBlocks::to_text` wrote gives, for each block written,
/// in the order written, a block with its text, its position written as a
/// number, and leading to the one written after it. This holds when each text
/// reads back as itself (none starts with a line break, holds a line that
/// starts with `;#`, or has `\r` before a line break or at its end) and no
/// block but the last written has an empty text (reading drops such a block).
pub proof fn law_read_back_written(bs: Seq<BlockView>, pos: Seq<(i32, i32)>)
    requires
        pos.len() == bs.len(),
        forall|i: int| 0 <= i < bs.len() ==> readable_text(#[trigger] bs[i].text),
        ({
            let order = write_order(bs, all_remain(bs.len() as int));
            forall|k: int| 0 <= k < order.len() - 1 ==> (#[trigger] bs[order[k]].text).len() > 0
        }),
    ensures
        parse_text(code_text(bs, pos)) == Ok::<Seq<ParsedView>, ErrorView>(
            read_back(bs, pos, write_order(bs, all_remain(bs.len() as int))),
        ),
{
    let order = write_order(bs, all_remain(bs.len() as int));
    law_written_once(bs);
    lemma_parse_text_lines(code_text(bs, pos));
    if order.len() == 0 {
        assert(code_text(bs, pos) =~= Seq::<char>::empty());
        assert(line_starts(code_text(bs, pos)) =~= Seq::<int>::empty());
        assert(lines(code_text(bs, pos)) =~= Seq::<Seq<char>>::empty());
    } else {
        assert forall|k: int| 0 <= k < order.len() implies readable_text(#[trigger] bs[order[k]].text) by {
            assert(0 <= order[k] < bs.len());
        }
        lemma_read_back_prefix(bs, pos, order, order.len() as int);
        assert(order.take(order.len() as int) =~= order);
    }
}

/// The blocks form one chain: each leads to the block after it, the last to
/// none, and none has a branch.
pub open spec fn chained(bs: Seq<BlockView>) -> bool {
    &&& bs.len() >= 1
    &&& forall|i: int|
        0 <= i < bs.len() ==> (#[trigger] bs[i]).next == (if i + 1 < bs.len() {
            Some((i + 1) as usize)
        } else {
            None
        }) && bs[i].next_branch is None
}

/// The blocks after `j` remain, those up to `j` do not.
spec fn remain_after(n: int, j: int) -> Seq<bool> {
    Seq::new(n as nat, |x: int| x > j)
}

proof fn lemma_chain_follow(bs: Seq<BlockView>, j: int)
    requires
        chained(bs),
        0 <= j < bs.len(),
        bs.len() <= usize::MAX,
    ensures
        follow(bs, remain_after(bs.len() as int, j), j) == (
            Seq::new((bs.len() - j) as nat, |i: int| i + j),
            remain_after(bs.len() as int, bs.len() as int),
        ),
    decreases bs.len() - j,
{
    let n = bs.len() as int;
    let rem = remain_after(n, j);
    if j + 1 < n {
        assert(bs[j].next == Some((j + 1) as usize));
        assert(rem[j + 1]);
        assert(rem.update(j + 1, false) =~= remain_after(n, j + 1));
        lemma_chain_follow(bs, j + 1);
        assert(seq![j] + Seq::new((n - j - 1) as nat, |i: int| i + j + 1) =~= Seq::new(
            (n - j) as nat,
            |i: int| i + j,
        ));
    } else {
        assert(bs[j].next is None);
        assert(rem =~= remain_after(n, n));
        assert(seq![j] =~= Seq::new((n - j) as nat, |i: int| i + j));
    }
}

proof fn lemma_chain_start(bs: Seq<BlockView>, k: int)
    requires
        chained(bs),
        1 <= k <= bs.len(),
        bs.len() <= usize::MAX,
    ensures
        last_start_below(bs, all_remain(bs.len() as int), k) == Some(0int),
    decreases k,
{
    let rem = all_remain(bs.len() as int);
    if k > 1 {
        assert(refers(bs[k - 2], k - 1));
        assert(!is_start(bs, rem, k - 1));
        lemma_chain_start(bs, k - 1);
    } else {
        assert forall|y: int| 0 <= y < rem.len() && rem[y] implies !refers(#[trigger] bs[y], 0) by {
            assert(bs[y].next_branch is None);
        }
        assert(is_start(bs, rem, 0));
    }
}

/// A chain of blocks is written in the order of the chain.
proof fn lemma_chain_order(bs: Seq<BlockView>)
    requires
        chained(bs),
        bs.len() <= usize::MAX,
    ensures
        write_order(bs, all_remain(bs.len() as int)) == Seq::new(bs.len(), |i: int| i),
{
    let n = bs.len() as int;
    let rem = all_remain(n);
    lemma_chain_start(bs, n);
    assert(write_start(bs, rem) == Some(0int));
    assert(rem.update(0, false) =~= remain_after(n, 0));
    lemma_chain_follow(bs, 0);
    let none = remain_after(n, n);
    lemma_write_start(bs, none);
    assert(write_start(bs, none) is None);
    assert(write_order(bs, none) == Seq::<int>::empty());
    assert(Seq::new((n - 0) as nat, |i: int| i + 0) + Seq::<int>::empty() =~= Seq::new(
        bs.len(),
        |i: int| i,
    ));
}

/// A chain of blocks, saved and read back, gives back every block in its
/// place: its position written as a number, its text, and leading to the
/// block after it. This holds when each text reads back as itself and no block
/// but the last has an empty text (see `law_read_back_written`).
pub proof fn law_read_back_chain(bs: Seq<BlockView>, pos: Seq<(i32, i32)>)
    requires
        chained(bs),
        bs.len() <= usize::MAX,
        pos.len() == bs.len(),
        forall|i: int| 0 <= i < bs.len() ==> readable_text(#[trigger] bs[i].text),
        forall|i: int| 0 <= i < bs.len() - 1 ==> (#[trigger] bs[i].text).len() > 0,
    ensures
        parse_text(code_text(bs, pos)) is Ok,
        ({
            let r = parse_text(code_text(bs, pos))->Ok_0;
            &&& r.len() == bs.len()
            &&& forall|i: int|
                0 <= i < bs.len() ==> {
                    &&& (#[trigger] r[i]).pos == Some(
                        (int_decimal(pos[i].0 as int), int_decimal(pos[i].1 as int)),
                    )
                    &&& r[i].block.text == bs[i].text
                    &&& r[i].block.next == bs[i].next
                    &&& r[i].block.next_branch == bs[i].next_branch
                }
        }),
{
    lemma_chain_order(bs);
    let order = write_order(bs, all_remain(bs.len() as int));
    assert forall|k: int| 0 <= k < order.len() - 1 implies (#[trigger] bs[order[k]].text).len() > 0 by {
        assert(order[k] == k);
    }
    law_read_back_written(bs, pos);
    let r = read_back(bs, pos, order);
    assert forall|i: int| 0 <= i < bs.len() implies {
        &&& (#[trigger] r[i]).pos == Some((int_decimal(pos[i].0 as int), int_decimal(pos[i].1 as int)))
        &&& r[i].block.text == bs[i].text
        &&& r[i].block.next == bs[i].next
        &&& r[i].block.next_branch == bs[i].next_branch
    } by {
        assert(order[i] == i);
        assert(r[i] == read_back_block(bs, pos, order, i));
        assert(bs[i].next_branch is None);
    }
}

} // verus!
