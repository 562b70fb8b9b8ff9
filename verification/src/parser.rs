//! Reading the text format: assembly source in which a line
//! `;#codeblock,x,y,` starts a block placed at `(x, y)`.
use vstd::prelude::*;
use crate::codeblock::{empty_block, BlockView, CodeBlock};
use crate::text::{
    append_chars, chars_of, nat_decimal, push_nat_decimal, extend_chars, find_char, find_from, lemma_find_from,
    lemma_find_from_skip, lemma_line_end, lemma_line_starts_from, line_at, line_end_at,
    line_starts, line_starts_of, string_of,
};
use crate::util::lowercase_ascii;

verus! {

// ---------------------------------------------------------------------------
// Numbers, as `f64::from_str` accepts them
// ---------------------------------------------------------------------------

/// Index of the first character at or after `i` that is not an ASCII digit,
/// or `s.len()`.
pub open spec fn digits_end(s: Seq<char>, i: int) -> int
    decreases s.len() - i,
{
    if 0 <= i < s.len() && '0' <= s[i] && s[i] <= '9' {
        digits_end(s, i + 1)
    } else {
        i
    }
}

/// `s[i..]` is empty or an exponent: `e` or `E`, an optional sign, digits.
pub open spec fn is_exponent_from(s: Seq<char>, i: int) -> bool {
    ||| i == s.len()
    ||| (0 <= i < s.len() && (s[i] == 'e' || s[i] == 'E') && {
        let j = if i + 1 < s.len() && (s[i + 1] == '+' || s[i + 1] == '-') {
            i + 2
        } else {
            i + 1
        };
        let d = digits_end(s, j);
        d > j && d == s.len()
    })
}

/// `s` is `Digit+`, `Digit+ '.' Digit*` or `Digit* '.' Digit+`, then an
/// optional exponent.
pub open spec fn is_decimal_number(s: Seq<char>) -> bool {
    let d1 = digits_end(s, 0);
    if d1 < s.len() && s[d1] == '.' {
        let d2 = digits_end(s, d1 + 1);
        (d1 > 0 || d2 > d1 + 1) && is_exponent_from(s, d2)
    } else {
        d1 > 0 && is_exponent_from(s, d1)
    }
}

/// The grammar that the documentation of `f64::from_str` gives for the
/// strings it accepts: an optional sign, then `inf`, `infinity` or `nan` in any
/// ASCII case, or a decimal number.
pub open spec fn is_float_literal(s: Seq<char>) -> bool {
    let r = if s.len() > 0 && (s[0] == '+' || s[0] == '-') {
        s.skip(1)
    } else {
        s
    };
    ||| lowercase_ascii(r) == seq!['i', 'n', 'f']
    ||| lowercase_ascii(r) == seq!['i', 'n', 'f', 'i', 'n', 'i', 't', 'y']
    ||| lowercase_ascii(r) == seq!['n', 'a', 'n']
    ||| is_decimal_number(r)
}

fn digits_end_of(s: &Vec<char>, i: usize) -> (r: usize)
    requires
        i <= s.len(),
    ensures
        r == digits_end(s@, i as int),
        i <= r <= s.len(),
{
    let mut k = i;
    while k < s.len() && '0' <= s[k] && s[k] <= '9'
        invariant
            i <= k <= s.len(),
            digits_end(s@, i as int) == digits_end(s@, k as int),
        decreases s.len() - k,
    {
        k = k + 1;
    }
    k
}

fn is_exponent_at(s: &Vec<char>, i: usize) -> (r: bool)
    requires
        i <= s.len(),
    ensures
        r == is_exponent_from(s@, i as int),
{
    if i == s.len() {
        return true;
    }
    if !(s[i] == 'e' || s[i] == 'E') {
        return false;
    }
    let j = if i + 1 < s.len() && (s[i + 1] == '+' || s[i + 1] == '-') {
        i + 2
    } else {
        i + 1
    };
    let d = digits_end_of(s, j);
    d > j && d == s.len()
}

fn lower_equals(s: &Vec<char>, m: &[char]) -> (r: bool)
    ensures
        r == (lowercase_ascii(s@) == m@),
{
    if s.len() != m.len() {
        assert(lowercase_ascii(s@).len() != m@.len());
        return false;
    }
    let mut i: usize = 0;
    while i < s.len()
        invariant
            s@.len() == m@.len(),
            i <= s@.len(),
            forall|k: int| 0 <= k < i ==> lowercase_ascii(s@)[k] == m@[k],
        decreases s.len() - i,
    {
        let c = s[i];
        let l = if 'A' <= c && c <= 'Z' {
            let u = c as u8;
            assert(u as int == c as int);
            (u + 32) as char
        } else {
            c
        };
        assert(l == lowercase_ascii(s@)[i as int]);
        if l != m[i] {
            return false;
        }
        i = i + 1;
    }
    assert(lowercase_ascii(s@) =~= m@);
    true
}

/// Whether `s` is a number that `f64::from_str` accepts.
pub fn is_float(s: &Vec<char>) -> (r: bool)
    ensures
        r == is_float_literal(s@),
{
    let mut t: Vec<char> = Vec::new();
    if s.len() > 0 && (s[0] == '+' || s[0] == '-') {
        extend_chars(&mut t, s, 1, s.len());
        assert(t@ =~= s@.skip(1));
    } else {
        extend_chars(&mut t, s, 0, s.len());
        assert(t@ =~= s@);
    }
    if lower_equals(&t, &['i', 'n', 'f']) || lower_equals(
        &t,
        &['i', 'n', 'f', 'i', 'n', 'i', 't', 'y'],
    ) || lower_equals(&t, &['n', 'a', 'n']) {
        return true;
    }
    let d1 = digits_end_of(&t, 0);
    if d1 < t.len() && t[d1] == '.' {
        let d2 = digits_end_of(&t, d1 + 1);
        (d1 > 0 || d2 > d1 + 1) && is_exponent_at(&t, d2)
    } else {
        d1 > 0 && is_exponent_at(&t, d1)
    }
}

// ---------------------------------------------------------------------------
// The format
// ---------------------------------------------------------------------------

/// The pieces of `s` between commas, as `str::split(',')` yields them.
pub open spec fn split_commas(s: Seq<char>) -> Seq<Seq<char>>
    decreases s.len(),
{
    let k = find_from(s, ',', 0);
    if k >= s.len() {
        seq![s]
    } else {
        proof {
            lemma_find_from(s, ',', 0);
        }
        seq![s.subrange(0, k)] + split_commas(s.skip(k + 1))
    }
}

/// Why a text cannot be read.
#[derive(Clone, Copy, PartialEq, Eq, Debug)]
pub enum ParseErrorKind {
    NotEnoughParameters,
    InvalidNumber,
    UnknownMetadata,
}

/// The error of a text that cannot be read: why, on which line (counted from
/// 0), and that line.
#[derive(Debug)]
pub struct ParseError {
    pub kind: ParseErrorKind,
    pub line: usize,
    pub text: String,
}

/// A block as read: its position as the two numbers that the file gives (none
/// for the text before the first block line), and the block.
#[derive(Debug)]
pub struct ParsedBlock {
    pub pos: Option<(String, String)>,
    pub block: CodeBlock,
}

/// The mathematical value of a `ParsedBlock`.
pub struct ParsedView {
    pub pos: Option<(Seq<char>, Seq<char>)>,
    pub block: BlockView,
}

impl View for ParsedBlock {
    type V = ParsedView;

    open spec fn view(&self) -> ParsedView {
        ParsedView {
            pos: match self.pos {
                Some((x, y)) => Some((x@, y@)),
                None => None,
            },
            block: self.block@,
        }
    }
}

/// The mathematical value of a parse error.
pub struct ErrorView {
    pub kind: ParseErrorKind,
    pub line: int,
    pub text: Seq<char>,
}

/// The views of parsed blocks.
pub open spec fn parsed_views(bs: Seq<ParsedBlock>) -> Seq<ParsedView> {
    bs.map_values(|b: ParsedBlock| b@)
}

/// The first word of a block line.
pub open spec fn codeblock_word() -> Seq<char> {
    seq!['c', 'o', 'd', 'e', 'b', 'l', 'o', 'c', 'k']
}

/// Blocks that led to block `p` lead nowhere once it is gone.
pub open spec fn unlink(bs: Seq<ParsedView>, p: int) -> Seq<ParsedView> {
    bs.map_values(
        |b: ParsedView|
            if b.block.next == Some(p as usize) {
                ParsedView { block: BlockView { next: None, ..b.block }, ..b }
            } else {
                b
            },
    )
}

/// Reading line `k`, `l`, when the blocks read so far are `bs`. A line that
/// starts with `;#` holds parameters separated by commas; the first must be
/// `codeblock`, which starts a new block at the position that the next two give
/// (a block before it that has no text is dropped, one that has leads to the
/// new one). Any other line is added to the text of the last block, after a
/// line break when that text is not empty.
#[verifier::opaque]
pub open spec fn parse_line(bs: Seq<ParsedView>, k: int, l: Seq<char>) -> Result<
    Seq<ParsedView>,
    ErrorView,
> {
    let p = bs.len() - 1;
    let last = bs[p];
    if l.len() >= 2 && l[0] == ';' && l[1] == '#' {
        let params = split_commas(l.skip(2));
        if params[0] == codeblock_word() {
            if params.len() < 3 {
                Err(ErrorView { kind: ParseErrorKind::NotEnoughParameters, line: k, text: l })
            } else if !is_float_literal(params[1]) || !is_float_literal(params[2]) {
                Err(ErrorView { kind: ParseErrorKind::InvalidNumber, line: k, text: l })
            } else {
                let kept = if last.block.text.len() == 0 {
                    unlink(bs.drop_last(), p)
                } else {
                    bs.update(
                        p,
                        ParsedView { block: BlockView { next: Some(bs.len() as usize), ..last.block }, ..last },
                    )
                };
                Ok(kept.push(ParsedView { pos: Some((params[1], params[2])), block: empty_block() }))
            }
        } else {
            Err(ErrorView { kind: ParseErrorKind::UnknownMetadata, line: k, text: l })
        }
    } else {
        let text = if last.block.text.len() == 0 {
            l
        } else {
            last.block.text.push('\n') + l
        };
        Ok(bs.update(p, ParsedView { block: BlockView { text, ..last.block }, ..last }))
    }
}

/// The result of reading the first `n` lines of `s`.
pub open spec fn parse_lines(s: Seq<char>, n: int) -> Result<Seq<ParsedView>, ErrorView>
    decreases n,
{
    if n <= 0 {
        Ok(seq![ParsedView { pos: None, block: empty_block() }])
    } else {
        match parse_lines(s, n - 1) {
            Ok(bs) => parse_line(bs, n - 1, line_at(s, line_starts(s)[n - 1])),
            Err(e) => Err(e),
        }
    }
}

/// The result of reading `s`.
pub open spec fn parse_text(s: Seq<char>) -> Result<Seq<ParsedView>, ErrorView> {
    parse_lines(s, line_starts(s).len() as int)
}

/// What reading keeps true of the blocks read so far: there is at least one,
/// and each leads to the one after it or nowhere.
pub open spec fn parsed_wf(bs: Seq<ParsedView>) -> bool {
    &&& bs.len() >= 1
    &&& forall|i: int|
        0 <= i < bs.len() ==> (#[trigger] bs[i]).block.next is None || bs[i].block.next == Some(
            (i + 1) as usize,
        )
    &&& forall|i: int| 0 <= i < bs.len() ==> (#[trigger] bs[i]).block.next_branch is None
    &&& bs[bs.len() - 1].block.next is None
}

/// Reads the first parameters of the metadata `t`: the first three pieces
/// between commas, and whether there are at least three.
fn first_params(t: &Vec<char>) -> (r: (Vec<char>, Option<(Vec<char>, Vec<char>)>))
    ensures
        r.0@ == split_commas(t@)[0],
        split_commas(t@).len() >= 1,
        match r.1 {
            Some((x, y)) => split_commas(t@).len() >= 3 && x@ == split_commas(t@)[1] && y@
                == split_commas(t@)[2],
            None => split_commas(t@).len() < 3,
        },
{
    let n = t.len();
    assert(t@.subrange(0, n as int) =~= t@);
    let k1 = find_char(t, ',', 0, n);
    proof {
        lemma_find_from(t@, ',', 0);
    }
    let mut w0: Vec<char> = Vec::new();
    extend_chars(&mut w0, t, 0, k1);
    if k1 >= n {
        assert(w0@ =~= t@);
        return (w0, None);
    }
    let ghost t1 = t@.skip(k1 + 1);
    let k2 = find_char(t, ',', k1 + 1, n);
    proof {
        lemma_find_from(t@, ',', k1 + 1);
        lemma_find_from_skip(t@, ',', k1 + 1, 0);
        assert(split_commas(t@) == seq![t@.subrange(0, k1 as int)] + split_commas(t1));
    }
    if k2 >= n {
        proof {
            assert(split_commas(t1).len() == 1);
        }
        return (w0, None);
    }
    let ghost t2 = t1.skip(k2 - k1);
    let k3 = find_char(t, ',', k2 + 1, n);
    proof {
        lemma_find_from(t@, ',', k2 + 1);
        lemma_find_from_skip(t1, ',', k2 - k1, 0);
        assert(t2 =~= t@.skip(k2 + 1));
        lemma_find_from_skip(t@, ',', k2 + 1, 0);
        assert(split_commas(t1) == seq![t1.subrange(0, k2 - k1 - 1)] + split_commas(t2));
        assert(t1.subrange(0, k2 - k1 - 1) =~= t@.subrange(k1 + 1, k2 as int));
        let k3r = find_from(t2, ',', 0);
        assert(k3r == k3 - (k2 + 1));
        if k3r >= t2.len() {
            assert(split_commas(t2) == seq![t2]);
            assert(t2 =~= t@.subrange(k2 + 1, k3 as int));
        } else {
            assert(t2.subrange(0, k3r) =~= t@.subrange(k2 + 1, k3 as int));
        }
    }
    let mut x: Vec<char> = Vec::new();
    extend_chars(&mut x, t, k1 + 1, k2);
    let mut y: Vec<char> = Vec::new();
    extend_chars(&mut y, t, k2 + 1, k3);
    (w0, Some((x, y)))
}

/// Reads the text format: each line `;#codeblock,x,y,` starts a block placed at
/// `(x, y)`, the other lines are the text of the current block, and a block
/// leads to the block after it. Fails on a metadata line (one that starts with
/// `;#`) of another kind, or with fewer than three parameters, or with a
/// coordinate that is not a number. What it reads holds at least one block;
/// each leads to the block after it or nowhere, none by a branch.
pub fn parse(str: &str) -> (r: Result<Vec<ParsedBlock>, ParseError>)
    ensures
        match r {
            Ok(bs) => parse_text(str@) == Ok::<Seq<ParsedView>, ErrorView>(parsed_views(bs@))
                && parsed_wf(parsed_views(bs@)),
            Err(e) => parse_text(str@) == Err::<Seq<ParsedView>, ErrorView>(
                ErrorView { kind: e.kind, line: e.line as int, text: e.text@ },
            ),
        },
{
    let s = chars_of(str);
    let starts = line_starts_of(&s);
    let mut code: Vec<ParsedBlock> = Vec::new();
    code.push(ParsedBlock { pos: None, block: CodeBlock::default() });
    proof {
        lemma_line_starts_from(s@, 0);
        assert(parsed_views(code@) =~= seq![ParsedView { pos: None, block: empty_block() }]);
    }
    let mut k: usize = 0;
    while k < starts.len()
        invariant
            s@ == str@,
            0 <= line_starts(s@).len(),
            k <= starts@.len(),
            starts@.len() == line_starts(s@).len(),
            forall|i: int| 0 <= i < starts@.len() ==> starts@[i] as int == #[trigger] line_starts(s@)[i],
            forall|i: int| 0 <= i < line_starts(s@).len() ==> 0 <= #[trigger] line_starts(s@)[i] < s@.len(),
            parse_lines(s@, k as int) == Ok::<Seq<ParsedView>, ErrorView>(parsed_views(code@)),
            parsed_wf(parsed_views(code@)),
        decreases starts.len() - k,
    {
        let st = starts[k];
        assert(st == line_starts(s@)[k as int]);
        let en = line_end_at(&s, st);
        proof {
            lemma_line_end(s@, st as int);
        }
        let mut l: Vec<char> = Vec::new();
        extend_chars(&mut l, &s, st, en);
        assert(l@ =~= line_at(s@, st as int));
        let ghost bs = parsed_views(code@);
        let ghost p = bs.len() - 1;
        proof {
            reveal(parse_line);
        }
        if l.len() >= 2 && l[0] == ';' && l[1] == '#' {
            let mut t: Vec<char> = Vec::new();
            extend_chars(&mut t, &l, 2, l.len());
            assert(t@ =~= l@.skip(2));
            let (w0, rest) = first_params(&t);
            if !chars_equal_slice(&w0, &['c', 'o', 'd', 'e', 'b', 'l', 'o', 'c', 'k']) {
                let e = ParseError { kind: ParseErrorKind::UnknownMetadata, line: k, text: string_of(&l, 0, l.len()) };
                proof {
                    assert(l@.subrange(0, l@.len() as int) =~= l@);
                    lemma_parse_error_stays(s@, k + 1, line_starts(s@).len() as int);
                }
                return Err(e);
            }
            match rest {
                None => {
                    let e = ParseError { kind: ParseErrorKind::NotEnoughParameters, line: k, text: string_of(&l, 0, l.len()) };
                    proof {
                        assert(l@.subrange(0, l@.len() as int) =~= l@);
                        lemma_parse_error_stays(s@, k + 1, line_starts(s@).len() as int);
                    }
                    return Err(e);
                },
                Some((x, y)) => {
                    if !is_float(&x) || !is_float(&y) {
                        let e = ParseError { kind: ParseErrorKind::InvalidNumber, line: k, text: string_of(&l, 0, l.len()) };
                        proof {
                            assert(l@.subrange(0, l@.len() as int) =~= l@);
                            lemma_parse_error_stays(s@, k + 1, line_starts(s@).len() as int);
                        }
                        return Err(e);
                    }
                    let total = code.len();
                    let last = code.pop().unwrap();
                    let ghost last_v = last@;
                    assert(last_v == bs[p]);
                    assert(parsed_views(code@) =~= bs.drop_last());
                    if last.block.text.as_str().is_empty() {
                        assert(last.block.text@.len() == 0);
                        let n = code.len();
                        if n > 0 {
                            let prev = code.pop().unwrap();
                            let fixed = if prev.block.next == Some(n) {
                                ParsedBlock {
                                    pos: prev.pos,
                                    block: CodeBlock {
                                        text: prev.block.text,
                                        next: None,
                                        next_branch: prev.block.next_branch,
                                        next_branch_line: prev.block.next_branch_line,
                                        next_branch_line_offset: prev.block.next_branch_line_offset,
                                    },
                                }
                            } else {
                                prev
                            };
                            code.push(fixed);
                        }
                        proof {
                            assert(parsed_views(code@) =~= unlink(bs.drop_last(), p)) by {
                                let u = unlink(bs.drop_last(), p);
                                assert forall|i: int| 0 <= i < u.len() implies #[trigger] u[i]
                                    == parsed_views(code@)[i] by {
                                    if i < p - 1 {
                                        assert(bs[i].block.next != Some(p as usize));
                                    }
                                }
                            }
                        }
                    } else {
                        let linked = ParsedBlock {
                            pos: last.pos,
                            block: CodeBlock {
                                text: last.block.text,
                                next: Some(total),
                                next_branch: last.block.next_branch,
                                next_branch_line: last.block.next_branch_line,
                                next_branch_line_offset: last.block.next_branch_line_offset,
                            },
                        };
                        code.push(linked);
                        proof {
                            assert(parsed_views(code@) =~= bs.update(
                                p,
                                ParsedView {
                                    block: BlockView { next: Some(bs.len() as usize), ..last_v.block },
                                    ..last_v
                                },
                            ));
                        }
                    }
                    let ghost kept = parsed_views(code@);
                    let xs = string_of(&x, 0, x.len());
                    let ys = string_of(&y, 0, y.len());
                    assert(xs@ =~= x@);
                    assert(ys@ =~= y@);
                    code.push(ParsedBlock { pos: Some((xs, ys)), block: CodeBlock::default() });
                    proof {
                        assert(parsed_views(code@) =~= kept.push(
                            ParsedView { pos: Some((x@, y@)), block: empty_block() },
                        ));
                    }
                },
            }
        } else {
            let last = code.pop().unwrap();
            let ghost last_v = last@;
            assert(last_v == bs[p]);
            let mut text = last.block.text;
            if !text.as_str().is_empty() {
                push_newline(&mut text);
            }
            append_chars(&mut text, &l, 0, l.len());
            assert(l@.subrange(0, l@.len() as int) =~= l@);
            let updated = ParsedBlock {
                pos: last.pos,
                block: CodeBlock {
                    text,
                    next: last.block.next,
                    next_branch: last.block.next_branch,
                    next_branch_line: last.block.next_branch_line,
                    next_branch_line_offset: last.block.next_branch_line_offset,
                },
            };
            code.push(updated);
            proof {
                assert(parsed_views(code@) =~= bs.update(
                    p,
                    ParsedView {
                        block: BlockView {
                            text: if last_v.block.text.len() == 0 {
                                l@
                            } else {
                                last_v.block.text.push('\n') + l@
                            },
                            ..last_v.block
                        },
                        ..last_v
                    },
                ));
            }
        }
        k = k + 1;
    }
    Ok(code)
}

fn push_newline(s: &mut String)
    ensures
        final(s)@ == old(s)@.push('\n'),
{
    crate::text::push_char(s, '\n');
}

fn chars_equal_slice(a: &Vec<char>, b: &[char]) -> (r: bool)
    ensures
        r == (a@ == b@),
{
    if a.len() != b.len() {
        return false;
    }
    let mut i: usize = 0;
    while i < a.len()
        invariant
            a@.len() == b@.len(),
            i <= a@.len(),
            forall|k: int| 0 <= k < i ==> a@[k] == b@[k],
        decreases a.len() - i,
    {
        if a[i] != b[i] {
            return false;
        }
        i = i + 1;
    }
    assert(a@ =~= b@);
    true
}

/// Once reading fails, it fails with the same error.
pub proof fn lemma_parse_error_stays(s: Seq<char>, m: int, n: int)
    requires
        0 <= m <= n,
        parse_lines(s, m) is Err,
    ensures
        parse_lines(s, n) == parse_lines(s, m),
    decreases n - m,
{
    if n > m {
        lemma_parse_error_stays(s, m, n - 1);
    }
}

/// What the message of an error says of its kind.
pub open spec fn kind_description(kind: ParseErrorKind) -> Seq<char> {
    match kind {
        ParseErrorKind::NotEnoughParameters => "Not enough parameters"@,
        ParseErrorKind::InvalidNumber => "Not a valid number parameter"@,
        ParseErrorKind::UnknownMetadata => "Unknown metadata type"@,
    }
}

/// The message of an error: its kind, its line counted from 1, and that line.
pub open spec fn error_message(e: ErrorView) -> Seq<char> {
    "File can not be parsed: "@ + kind_description(e.kind) + "\nError occured on line "@
        + nat_decimal((e.line + 1) as nat) + ":\n"@ + e.text
}

impl ParseError {
    /// The mathematical value of the error.
    pub open spec fn view(&self) -> ErrorView {
        ErrorView { kind: self.kind, line: self.line as int, text: self.text@ }
    }

    /// What kind of error it is, in words.
    pub fn desc(&self) -> (r: &'static str)
        ensures
            r@ == kind_description(self.kind),
    {
        match self.kind {
            ParseErrorKind::NotEnoughParameters => "Not enough parameters",
            ParseErrorKind::InvalidNumber => "Not a valid number parameter",
            ParseErrorKind::UnknownMetadata => "Unknown metadata type",
        }
    }

    /// The message that describes the error to a user.
    pub fn message(&self) -> (r: String)
        ensures
            r@ == error_message(self.view()),
    {
        let mut r = String::from_str("File can not be parsed: ");
        r.append(self.desc());
        r.append("\nError occured on line ");
        push_nat_decimal(&mut r, (self.line as u128) + 1);
        r.append(":\n");
        r.append(self.text.as_str());
        r
    }

    /// The old description of an error, which gives way to `message`.
    pub fn description(&self) -> (r: &'static str)
        ensures
            r@ == "description() is deprecated; use Display"@,
    {
        "description() is deprecated; use Display"
    }
}

} // verus!
