//! Recognising jumps in a line of assembly.
use vstd::prelude::*;
use crate::text::{
    chars_of, end_of_word, extend_chars, find_char, find_from, lemma_find_from, lemma_rfind_before,
    lemma_skip_whitespace, lemma_word_end, rfind_before, rfind_char, skip_whitespace, skip_ws,
    string_of, word_end,
};

verus! {

/// What kind of jump a line holds, and to which label.
#[derive(Debug)]
pub enum JumpType {
    NoJump,
    Jmp(String),
    CondJmp(String),
}

/// The mathematical value of a `JumpType`.
pub enum JumpView {
    NoJump,
    Jmp(Seq<char>),
    CondJmp(Seq<char>),
}

impl View for JumpType {
    type V = JumpView;

    open spec fn view(&self) -> JumpView {
        match self {
            JumpType::NoJump => JumpView::NoJump,
            JumpType::Jmp(l) => JumpView::Jmp(l@),
            JumpType::CondJmp(l) => JumpView::CondJmp(l@),
        }
    }
}

/// `c` with ASCII upper case letters made lower case.
pub open spec fn ascii_lower(c: char) -> char {
    if 'A' <= c && c <= 'Z' {
        ((c as u32) + 32) as char
    } else {
        c
    }
}

/// `w` with ASCII upper case letters made lower case. On the mnemonics below,
/// which are ASCII and hold no `k`, comparing this with a mnemonic gives what
/// comparing `str::to_lowercase` does: the only non-ASCII character that
/// `to_lowercase` maps into ASCII is KELVIN SIGN, which becomes `k`.
pub open spec fn lowercase_ascii(w: Seq<char>) -> Seq<char> {
    w.map_values(|c: char| ascii_lower(c))
}

/// The mnemonic of the unconditional jump.
pub open spec fn is_jump_mnemonic(m: Seq<char>) -> bool {
    m == seq!['j', 'm', 'p']
}

/// The mnemonics of the conditional jumps.
pub open spec fn is_conditional_jump_mnemonic(m: Seq<char>) -> bool {
    ||| m == seq!['j', 'a']
    ||| m == seq!['j', 'a', 'e']
    ||| m == seq!['j', 'b']
    ||| m == seq!['j', 'b', 'e']
    ||| m == seq!['j', 'c']
    ||| m == seq!['j', 'c', 'x', 'z']
    ||| m == seq!['j', 'e', 'c', 'x', 'z']
    ||| m == seq!['j', 'r', 'c', 'x', 'z']
    ||| m == seq!['j', 'e']
    ||| m == seq!['j', 'g']
    ||| m == seq!['j', 'g', 'e']
    ||| m == seq!['j', 'l']
    ||| m == seq!['j', 'l', 'e']
    ||| m == seq!['j', 'n', 'a']
    ||| m == seq!['j', 'n', 'a', 'e']
    ||| m == seq!['j', 'n', 'b']
    ||| m == seq!['j', 'n', 'b', 'e']
    ||| m == seq!['j', 'n', 'c']
    ||| m == seq!['j', 'n', 'e']
    ||| m == seq!['j', 'n', 'g']
    ||| m == seq!['j', 'n', 'g', 'e']
    ||| m == seq!['j', 'n', 'l']
    ||| m == seq!['j', 'n', 'l', 'e']
    ||| m == seq!['j', 'n', 'o']
    ||| m == seq!['j', 'n', 'p']
    ||| m == seq!['j', 'n', 's']
    ||| m == seq!['j', 'n', 'z']
    ||| m == seq!['j', 'o']
    ||| m == seq!['j', 'p']
    ||| m == seq!['j', 'p', 'e']
    ||| m == seq!['j', 'p', 'o']
    ||| m == seq!['j', 's']
    ||| m == seq!['j', 'z']
}

/// End of the code of a line: the first `;` starts a comment.
pub open spec fn code_end(l: Seq<char>) -> int {
    find_from(l, ';', 0)
}

/// The instruction and operands of a line: its code after the last `:` in it,
/// which ends a label.
pub open spec fn instruction(l: Seq<char>) -> Seq<char> {
    let e = code_end(l);
    l.subrange(rfind_before(l, ':', e) + 1, e)
}

/// The jump that a line holds. Its instruction is split at whitespace; when it
/// has at least two words, the first is the mnemonic (compared without regard to
/// ASCII case) and the second the label jumped to.
pub open spec fn jump_kind(l: Seq<char>) -> JumpView {
    let t = instruction(l);
    let a = skip_whitespace(t, 0);
    let b = word_end(t, a);
    let c = skip_whitespace(t, b);
    let d = word_end(t, c);
    if c < t.len() {
        let m = lowercase_ascii(t.subrange(a, b));
        if is_jump_mnemonic(m) {
            JumpView::Jmp(t.subrange(c, d))
        } else if is_conditional_jump_mnemonic(m) {
            JumpView::CondJmp(t.subrange(c, d))
        } else {
            JumpView::NoJump
        }
    } else {
        JumpView::NoJump
    }
}

fn lower_char(c: char) -> (r: char)
    ensures
        r == ascii_lower(c),
{
    if 'A' <= c && c <= 'Z' {
        let u = c as u8;
        assert(u as int == c as int);
        (u + 32) as char
    } else {
        c
    }
}

/// Whether `w[from..to]`, made lower case, is `m`.
fn is_lowercase_of(w: &Vec<char>, from: usize, to: usize, m: &[char]) -> (b: bool)
    requires
        from <= to <= w.len(),
    ensures
        b == (lowercase_ascii(w@.subrange(from as int, to as int)) == m@),
{
    let ghost word = w@.subrange(from as int, to as int);
    if to - from != m.len() {
        assert(lowercase_ascii(word).len() != m@.len());
        return false;
    }
    let mut i: usize = 0;
    while i < m.len()
        invariant
            from <= to <= w.len(),
            to - from == m@.len(),
            word == w@.subrange(from as int, to as int),
            i <= m@.len(),
            forall|k: int| 0 <= k < i ==> ascii_lower(word[k]) == m@[k],
        decreases m.len() - i,
    {
        if lower_char(w[from + i]) != m[i] {
            assert(lowercase_ascii(word)[i as int] != m@[i as int]);
            return false;
        }
        i = i + 1;
    }
    assert(lowercase_ascii(word) =~= m@);
    true
}

fn is_conditional(w: &Vec<char>, from: usize, to: usize) -> (b: bool)
    requires
        from <= to <= w.len(),
    ensures
        b == is_conditional_jump_mnemonic(lowercase_ascii(w@.subrange(from as int, to as int))),
{
    is_lowercase_of(w, from, to, &['j', 'a']) || is_lowercase_of(w, from, to, &['j', 'a', 'e'])
        || is_lowercase_of(w, from, to, &['j', 'b']) || is_lowercase_of(
        w,
        from,
        to,
        &['j', 'b', 'e'],
    ) || is_lowercase_of(w, from, to, &['j', 'c']) || is_lowercase_of(
        w,
        from,
        to,
        &['j', 'c', 'x', 'z'],
    ) || is_lowercase_of(w, from, to, &['j', 'e', 'c', 'x', 'z']) || is_lowercase_of(
        w,
        from,
        to,
        &['j', 'r', 'c', 'x', 'z'],
    ) || is_lowercase_of(w, from, to, &['j', 'e']) || is_lowercase_of(w, from, to, &['j', 'g'])
        || is_lowercase_of(w, from, to, &['j', 'g', 'e']) || is_lowercase_of(
        w,
        from,
        to,
        &['j', 'l'],
    ) || is_lowercase_of(w, from, to, &['j', 'l', 'e']) || is_lowercase_of(
        w,
        from,
        to,
        &['j', 'n', 'a'],
    ) || is_lowercase_of(w, from, to, &['j', 'n', 'a', 'e']) || is_lowercase_of(
        w,
        from,
        to,
        &['j', 'n', 'b'],
    ) || is_lowercase_of(w, from, to, &['j', 'n', 'b', 'e']) || is_lowercase_of(
        w,
        from,
        to,
        &['j', 'n', 'c'],
    ) || is_lowercase_of(w, from, to, &['j', 'n', 'e']) || is_lowercase_of(
        w,
        from,
        to,
        &['j', 'n', 'g'],
    ) || is_lowercase_of(w, from, to, &['j', 'n', 'g', 'e']) || is_lowercase_of(
        w,
        from,
        to,
        &['j', 'n', 'l'],
    ) || is_lowercase_of(w, from, to, &['j', 'n', 'l', 'e']) || is_lowercase_of(
        w,
        from,
        to,
        &['j', 'n', 'o'],
    ) || is_lowercase_of(w, from, to, &['j', 'n', 'p']) || is_lowercase_of(
        w,
        from,
        to,
        &['j', 'n', 's'],
    ) || is_lowercase_of(w, from, to, &['j', 'n', 'z']) || is_lowercase_of(
        w,
        from,
        to,
        &['j', 'o'],
    ) || is_lowercase_of(w, from, to, &['j', 'p']) || is_lowercase_of(
        w,
        from,
        to,
        &['j', 'p', 'e'],
    ) || is_lowercase_of(w, from, to, &['j', 'p', 'o']) || is_lowercase_of(
        w,
        from,
        to,
        &['j', 's'],
    ) || is_lowercase_of(w, from, to, &['j', 'z'])
}

/// The jump in the line `s[from..to]`.
pub fn jump_in(s: &Vec<char>, from: usize, to: usize) -> (r: JumpType)
    requires
        from <= to <= s.len(),
    ensures
        r@ == jump_kind(s@.subrange(from as int, to as int)),
{
    let mut l: Vec<char> = Vec::new();
    extend_chars(&mut l, s, from, to);
    assert(l@ =~= s@.subrange(from as int, to as int));
    jump_of_line(&l)
}

fn jump_of_line(l: &Vec<char>) -> (r: JumpType)
    ensures
        r@ == jump_kind(l@),
{
    assert(l@.subrange(0, l@.len() as int) =~= l@);
    let e = find_char(l, ';', 0, l.len());
    proof {
        lemma_find_from(l@, ';', 0);
    }
    let start = match rfind_char(l, ':', 0, e) {
        Some(k) => k + 1,
        None => 0,
    };
    proof {
        let le = l@.subrange(0, e as int);
        assert(le.len() == e);
        lemma_rfind_before(le, ':', e as int);
        lemma_rfind_before_prefix(l@, ':', e as int);
    }
    let mut t: Vec<char> = Vec::new();
    extend_chars(&mut t, l, start, e);
    assert(t@ =~= instruction(l@));
    assert(t@.subrange(0, t@.len() as int) =~= t@);
    let n = t.len();
    let a = skip_ws(&t, 0, n);
    proof {
        lemma_skip_whitespace(t@, 0);
    }
    let b = end_of_word(&t, a, n);
    proof {
        lemma_word_end(t@, a as int);
    }
    let c = skip_ws(&t, b, n);
    proof {
        lemma_skip_whitespace(t@, b as int);
    }
    let d = end_of_word(&t, c, n);
    proof {
        lemma_word_end(t@, c as int);
    }
    if c < n {
        if is_lowercase_of(&t, a, b, &['j', 'm', 'p']) {
            JumpType::Jmp(string_of(&t, c, d))
        } else if is_conditional(&t, a, b) {
            JumpType::CondJmp(string_of(&t, c, d))
        } else {
            JumpType::NoJump
        }
    } else {
        JumpType::NoJump
    }
}

/// `rfind_before` only looks at characters before its index.
pub proof fn lemma_rfind_before_prefix(s: Seq<char>, c: char, e: int)
    requires
        0 <= e <= s.len(),
    ensures
        rfind_before(s.subrange(0, e), c, e) == rfind_before(s, c, e),
    decreases e,
{
    if e > 0 {
        lemma_rfind_before_prefix(s, c, e - 1);
        assert(s.subrange(0, e - 1) =~= s.subrange(0, e).subrange(0, e - 1));
        lemma_rfind_before_prefix(s.subrange(0, e), c, e - 1);
    }
}

/// The jump that a line of assembly holds: `jmp label` or a conditional jump
/// such as `je label`, after an optional `label:` and before an optional
/// `; comment`.
pub fn contains_jump(str: &str) -> (r: JumpType)
    ensures
        r@ == jump_kind(str@),
{
    let l = chars_of(str);
    jump_of_line(&l)
}

} // verus!
