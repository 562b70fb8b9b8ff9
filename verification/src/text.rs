//! Text as sequences of characters: line splitting with the rules of
//! `str::lines`, Unicode whitespace, UTF-8 byte offsets, and the
//! conversions between `&str`/`String` and `Vec<char>`.
use vstd::prelude::*;
use vstd::utf8::encode_utf8;

verus! {

/// Unicode `White_Space`, the property that `char::is_whitespace` tests.
pub open spec fn is_whitespace(c: char) -> bool {
    ||| ('\u{9}' <= c && c <= '\u{d}')
    ||| c == ' '
    ||| c == '\u{85}'
    ||| c == '\u{a0}'
    ||| c == '\u{1680}'
    ||| ('\u{2000}' <= c && c <= '\u{200a}')
    ||| c == '\u{2028}'
    ||| c == '\u{2029}'
    ||| c == '\u{202f}'
    ||| c == '\u{205f}'
    ||| c == '\u{3000}'
}

/// Exec test for Unicode whitespace.
pub fn is_whitespace_char(c: char) -> (b: bool)
    ensures
        b == is_whitespace(c),
{
    ('\u{9}' <= c && c <= '\u{d}') || c == ' ' || c == '\u{85}' || c == '\u{a0}' || c == '\u{1680}'
        || ('\u{2000}' <= c && c <= '\u{200a}') || c == '\u{2028}' || c == '\u{2029}' || c
        == '\u{202f}' || c == '\u{205f}' || c == '\u{3000}'
}

/// Index of the first `c` at or after `i`, or `s.len()` when there is none.
pub open spec fn find_from(s: Seq<char>, c: char, i: int) -> int
    decreases s.len() - i,
{
    if i < 0 || i >= s.len() {
        s.len() as int
    } else if s[i] == c {
        i
    } else {
        find_from(s, c, i + 1)
    }
}

/// Index of the last `c` before `i`, or `-1` when there is none.
pub open spec fn rfind_before(s: Seq<char>, c: char, i: int) -> int
    decreases i,
{
    if i <= 0 || i > s.len() {
        -1
    } else if s[i - 1] == c {
        i - 1
    } else {
        rfind_before(s, c, i - 1)
    }
}

/// Index of the first character at or after `i` that is not whitespace, or `s.len()`.
pub open spec fn skip_whitespace(s: Seq<char>, i: int) -> int
    decreases s.len() - i,
{
    if 0 <= i < s.len() && is_whitespace(s[i]) {
        skip_whitespace(s, i + 1)
    } else {
        i
    }
}

/// Index of the first whitespace character at or after `i`, or `s.len()`.
pub open spec fn word_end(s: Seq<char>, i: int) -> int
    decreases s.len() - i,
{
    if 0 <= i < s.len() && !is_whitespace(s[i]) {
        word_end(s, i + 1)
    } else {
        i
    }
}

pub proof fn lemma_find_from(s: Seq<char>, c: char, i: int)
    requires
        0 <= i <= s.len(),
    ensures
        i <= find_from(s, c, i) <= s.len(),
        find_from(s, c, i) < s.len() ==> s[find_from(s, c, i)] == c,
        forall|k: int| i <= k < find_from(s, c, i) ==> s[k] != c,
    decreases s.len() - i,
{
    if i < s.len() && s[i] != c {
        lemma_find_from(s, c, i + 1);
    }
}

pub proof fn lemma_rfind_before(s: Seq<char>, c: char, i: int)
    requires
        0 <= i <= s.len(),
    ensures
        -1 <= rfind_before(s, c, i) < i,
        rfind_before(s, c, i) >= 0 ==> s[rfind_before(s, c, i)] == c,
        forall|k: int| rfind_before(s, c, i) < k < i ==> s[k] != c,
    decreases i,
{
    if i > 0 && s[i - 1] != c {
        lemma_rfind_before(s, c, i - 1);
    }
}

pub proof fn lemma_skip_whitespace(s: Seq<char>, i: int)
    requires
        0 <= i <= s.len(),
    ensures
        i <= skip_whitespace(s, i) <= s.len(),
        skip_whitespace(s, i) < s.len() ==> !is_whitespace(s[skip_whitespace(s, i)]),
        forall|k: int| i <= k < skip_whitespace(s, i) ==> is_whitespace(s[k]),
    decreases s.len() - i,
{
    if i < s.len() && is_whitespace(s[i]) {
        lemma_skip_whitespace(s, i + 1);
    }
}

pub proof fn lemma_word_end(s: Seq<char>, i: int)
    requires
        0 <= i <= s.len(),
    ensures
        i <= word_end(s, i) <= s.len(),
        word_end(s, i) < s.len() ==> is_whitespace(s[word_end(s, i)]),
        forall|k: int| i <= k < word_end(s, i) ==> !is_whitespace(s[k]),
    decreases s.len() - i,
{
    if i < s.len() && !is_whitespace(s[i]) {
        lemma_word_end(s, i + 1);
    }
}

/// Exec form of `find_from`.
pub fn find_char(s: &Vec<char>, c: char, from: usize, to: usize) -> (r: usize)
    requires
        from <= to <= s.len(),
    ensures
        r == find_from(s@.subrange(0, to as int), c, from as int),
{
    let ghost t = s@.subrange(0, to as int);
    let mut i = from;
    while i < to
        invariant
            from <= i <= to <= s.len(),
            t == s@.subrange(0, to as int),
            find_from(t, c, from as int) == find_from(t, c, i as int),
        decreases to - i,
    {
        if s[i] == c {
            return i;
        }
        i = i + 1;
    }
    i
}

/// Exec form of `rfind_before`, looking at the characters in `[from, to)`;
/// returns `None` for `-1`.
pub fn rfind_char(s: &Vec<char>, c: char, from: usize, to: usize) -> (r: Option<usize>)
    requires
        from <= to <= s.len(),
    ensures
        ({
            let t = s@.subrange(from as int, to as int);
            match r {
                Some(k) => from <= k < to && k - from == rfind_before(t, c, t.len() as int),
                None => rfind_before(t, c, t.len() as int) == -1,
            }
        }),
{
    let ghost t = s@.subrange(from as int, to as int);
    let mut i = to;
    while i > from
        invariant
            from <= i <= to <= s.len(),
            t == s@.subrange(from as int, to as int),
            rfind_before(t, c, t.len() as int) == rfind_before(t, c, i - from),
        decreases i,
    {
        if s[i - 1] == c {
            return Some(i - 1);
        }
        i = i - 1;
    }
    None
}

/// Exec form of `skip_whitespace` on `s[..to]`.
pub fn skip_ws(s: &Vec<char>, from: usize, to: usize) -> (r: usize)
    requires
        from <= to <= s.len(),
    ensures
        r == skip_whitespace(s@.subrange(0, to as int), from as int),
{
    let ghost t = s@.subrange(0, to as int);
    let mut i = from;
    while i < to && is_whitespace_char(s[i])
        invariant
            from <= i <= to <= s.len(),
            t == s@.subrange(0, to as int),
            skip_whitespace(t, from as int) == skip_whitespace(t, i as int),
        decreases to - i,
    {
        i = i + 1;
    }
    i
}

/// Exec form of `word_end` on `s[..to]`.
pub fn end_of_word(s: &Vec<char>, from: usize, to: usize) -> (r: usize)
    requires
        from <= to <= s.len(),
    ensures
        r == word_end(s@.subrange(0, to as int), from as int),
{
    let ghost t = s@.subrange(0, to as int);
    let mut i = from;
    while i < to && !is_whitespace_char(s[i])
        invariant
            from <= i <= to <= s.len(),
            t == s@.subrange(0, to as int),
            word_end(t, from as int) == word_end(t, i as int),
        decreases to - i,
    {
        i = i + 1;
    }
    i
}

// ---------------------------------------------------------------------------
// Lines, with the rules of `str::lines`: a line ends at `\n` or `\r\n`, the
// terminator is not part of the line, and a final terminator does not start
// another line.
// ---------------------------------------------------------------------------

/// End (exclusive) of the content of the line that starts at `i`: the next
/// `\n`, less one for a `\r` just before it.
pub open spec fn line_end(s: Seq<char>, i: int) -> int {
    let n = find_from(s, '\n', i);
    if i < n && n < s.len() && s[n - 1] == '\r' {
        n - 1
    } else {
        n
    }
}

/// Start of the line after the one that starts at `i` (past `s.len()` when
/// that line is the last).
pub open spec fn next_line_start(s: Seq<char>, i: int) -> int {
    find_from(s, '\n', i) + 1
}

/// The starts of the lines from the one that starts at `i` on.
pub open spec fn line_starts_from(s: Seq<char>, i: int) -> Seq<int>
    decreases s.len() + 1 - i,
{
    if 0 <= i < s.len() {
        proof {
            lemma_find_from(s, '\n', i);
        }
        seq![i] + line_starts_from(s, next_line_start(s, i))
    } else {
        seq![]
    }
}

/// The starts of the lines of `s`, in order.
pub open spec fn line_starts(s: Seq<char>) -> Seq<int> {
    line_starts_from(s, 0)
}

/// The content of the line that starts at `i`.
pub open spec fn line_at(s: Seq<char>, i: int) -> Seq<char> {
    s.subrange(i, line_end(s, i))
}

/// The lines of `s`, as `str::lines` yields them.
pub open spec fn lines(s: Seq<char>) -> Seq<Seq<char>> {
    line_starts(s).map_values(|st: int| line_at(s, st))
}

pub proof fn lemma_line_end(s: Seq<char>, i: int)
    requires
        0 <= i <= s.len(),
    ensures
        i <= line_end(s, i) <= find_from(s, '\n', i) <= s.len(),
        i < next_line_start(s, i),
        next_line_start(s, i) <= s.len() ==> s[next_line_start(s, i) - 1] == '\n',
        forall|k: int| i <= k < line_end(s, i) ==> s[k] != '\n',
{
    lemma_find_from(s, '\n', i);
}

/// Facts about the starts of lines: all in `[i, s.len())`, strictly increasing,
/// each past a `\n` (but the first), and no `\n` between two of them but the one
/// that ends the earlier line.
pub proof fn lemma_line_starts_from(s: Seq<char>, i: int)
    requires
        0 <= i,
    ensures
        ({
            let st = line_starts_from(s, i);
            &&& forall|k: int| 0 <= k < st.len() ==> i <= #[trigger] st[k] < s.len()
            &&& forall|k: int, l: int| 0 <= k < l < st.len() ==> st[k] < st[l]
            &&& st.len() > 0 ==> st[0] == i
            &&& forall|k: int|
                0 <= k < st.len() - 1 ==> #[trigger] next_line_start(s, st[k]) == st[k + 1]
            &&& st.len() > 0 ==> next_line_start(s, st[st.len() - 1]) >= s.len()
            &&& st.len() == 0 ==> i >= s.len()
        }),
    decreases s.len() + 1 - i,
{
    if 0 <= i < s.len() {
        lemma_find_from(s, '\n', i);
        let j = next_line_start(s, i);
        lemma_line_starts_from(s, j);
        let rest = line_starts_from(s, j);
        let st = line_starts_from(s, i);
        assert(st == seq![i] + rest);
        assert forall|k: int| 0 <= k < st.len() implies i <= #[trigger] st[k] < s.len() by {
            if k > 0 {
                assert(st[k] == rest[k - 1]);
            }
        }
        assert forall|k: int, l: int| 0 <= k < l < st.len() implies st[k] < st[l] by {
            if k > 0 {
                assert(st[k] == rest[k - 1]);
            }
            assert(st[l] == rest[l - 1]);
        }
        assert forall|k: int| 0 <= k < st.len() - 1 implies #[trigger] next_line_start(s, st[k])
            == st[k + 1] by {
            assert(st[k + 1] == rest[k]);
            if k > 0 {
                assert(st[k] == rest[k - 1]);
            }
        }
        if rest.len() > 0 {
            assert(st[st.len() - 1] == rest[rest.len() - 1]);
        }
    }
}

/// Computes `find_from(s, '\n', i)`.
pub fn find_newline(s: &Vec<char>, i: usize) -> (r: usize)
    requires
        i <= s.len(),
    ensures
        r == find_from(s@, '\n', i as int),
{
    let r = find_char(s, '\n', i, s.len());
    assert(s@.subrange(0, s@.len() as int) =~= s@);
    r
}

/// Computes `line_end(s, i)`.
pub fn line_end_at(s: &Vec<char>, i: usize) -> (r: usize)
    requires
        i <= s.len(),
    ensures
        r == line_end(s@, i as int),
{
    let n = find_newline(s, i);
    if i < n && n < s.len() && s[n - 1] == '\r' {
        n - 1
    } else {
        n
    }
}

/// The starts of the lines of `s`.
pub fn line_starts_of(s: &Vec<char>) -> (r: Vec<usize>)
    ensures
        r@.len() == line_starts(s@).len(),
        forall|k: int| 0 <= k < r@.len() ==> r@[k] as int == #[trigger] line_starts(s@)[k],
{
    let mut r: Vec<usize> = Vec::new();
    let mut pos: usize = 0;
    proof {
        lemma_line_starts_from(s@, 0);
    }
    while pos < s.len()
        invariant
            pos <= s.len() + 1,
            line_starts(s@).len() == r@.len() + line_starts_from(s@, pos as int).len(),
            forall|k: int| 0 <= k < r@.len() ==> r@[k] as int == #[trigger] line_starts(s@)[k],
            forall|k: int|
                0 <= k < line_starts_from(s@, pos as int).len() ==> #[trigger] line_starts_from(
                    s@,
                    pos as int,
                )[k] == line_starts(s@)[r@.len() + k],
        decreases s.len() + 1 - pos,
    {
        let ghost rest = line_starts_from(s@, pos as int);
        let n = find_newline(s, pos);
        proof {
            lemma_find_from(s@, '\n', pos as int);
            assert(rest == seq![pos as int] + line_starts_from(s@, n + 1));
            assert(rest[0] == pos);
            assert forall|k: int|
                0 <= k < line_starts_from(s@, n + 1).len() implies #[trigger] line_starts_from(
                s@,
                n + 1,
            )[k] == line_starts(s@)[r@.len() + 1 + k] by {
                assert(line_starts_from(s@, n + 1)[k] == rest[k + 1]);
            }
        }
        r.push(pos);
        if n >= s.len() {
            proof {
                assert(line_starts_from(s@, n + 1).len() == 0);
            }
            return r;
        }
        pos = n + 1;
    }
    proof {
        assert(line_starts_from(s@, pos as int).len() == 0);
    }
    r
}

// ---------------------------------------------------------------------------
// Conversions and building
// ---------------------------------------------------------------------------

/// The characters of `s`.
pub fn chars_of(s: &str) -> (v: Vec<char>)
    ensures
        v@ == s@,
{
    let mut v: Vec<char> = Vec::new();
    for c in it: s.chars()
        invariant
            v@ == it.seq().take(it.index() as int),
            it.seq() == s@,
    {
        v.push(c);
    }
    v
}

/// `String::push` of std, which appends the character `c` to `s`; trusted to
/// do just that.
#[verifier::external_body]
pub(crate) fn push_char(s: &mut String, c: char)
    ensures
        final(s)@ == old(s)@.push(c),
{
    s.push(c);
}

/// The `String` made of `s[from..to]`.
pub fn string_of(s: &Vec<char>, from: usize, to: usize) -> (r: String)
    requires
        from <= to <= s.len(),
    ensures
        r@ == s@.subrange(from as int, to as int),
{
    let mut r = String::new();
    let mut i = from;
    while i < to
        invariant
            from <= i <= to <= s.len(),
            r@ == s@.subrange(from as int, i as int),
        decreases to - i,
    {
        push_char(&mut r, s[i]);
        i = i + 1;
        assert(r@ =~= s@.subrange(from as int, i as int));
    }
    r
}

/// Appends `s[from..to]` to `out`.
pub fn extend_chars(out: &mut Vec<char>, s: &Vec<char>, from: usize, to: usize)
    requires
        from <= to <= s.len(),
    ensures
        final(out)@ == old(out)@ + s@.subrange(from as int, to as int),
{
    let mut i = from;
    while i < to
        invariant
            from <= i <= to <= s.len(),
            out@ == old(out)@ + s@.subrange(from as int, i as int),
        decreases to - i,
    {
        out.push(s[i]);
        i = i + 1;
        assert(out@ =~= old(out)@ + s@.subrange(from as int, i as int));
    }
}

// ---------------------------------------------------------------------------
// UTF-8 lengths, for the byte offsets that `str` indexing uses
// ---------------------------------------------------------------------------

/// Number of bytes of the UTF-8 encoding of `c`.
pub open spec fn utf8_width(c: char) -> int {
    if c <= '\u{7f}' {
        1
    } else if c <= '\u{7ff}' {
        2
    } else if c <= '\u{ffff}' {
        3
    } else {
        4
    }
}

/// Byte length of the UTF-8 encoding of `s`.
pub open spec fn utf8_len(s: Seq<char>) -> int {
    encode_utf8(s).len() as int
}

pub proof fn lemma_utf8_len_push(s: Seq<char>, c: char)
    ensures
        utf8_len(s.push(c)) == utf8_len(s) + utf8_width(c),
        utf8_len(s) >= 0,
    decreases s.len(),
{
    broadcast use vstd::utf8::char_is_scalar;

    if s.len() == 0 {
        assert(s.push(c).drop_first() =~= Seq::<char>::empty());
        assert(encode_utf8(Seq::<char>::empty()) =~= Seq::<u8>::empty());
    } else {
        lemma_utf8_len_push(s.drop_first(), c);
        assert(s.push(c).drop_first() =~= s.drop_first().push(c));
    }
}

/// Byte offset of the character at index `k` of `s`.
pub fn byte_offset(s: &Vec<char>, k: usize) -> (r: usize)
    requires
        k <= s.len(),
        utf8_len(s@) <= usize::MAX,
    ensures
        r == utf8_len(s@.subrange(0, k as int)),
{
    let mut i: usize = 0;
    let mut acc: usize = 0;
    proof {
        assert(s@.subrange(0, 0) =~= Seq::<char>::empty());
        assert(encode_utf8(Seq::<char>::empty()) =~= Seq::<u8>::empty());
    }
    while i < k
        invariant
            i <= k <= s.len(),
            utf8_len(s@) <= usize::MAX,
            acc == utf8_len(s@.subrange(0, i as int)),
        decreases k - i,
    {
        let c = s[i];
        proof {
            assert(s@.subrange(0, i + 1) =~= s@.subrange(0, i as int).push(c));
            lemma_utf8_len_push(s@.subrange(0, i as int), c);
            lemma_utf8_len_prefix(s@, i + 1);
        }
        let w: usize = if c <= '\u{7f}' {
            1
        } else if c <= '\u{7ff}' {
            2
        } else if c <= '\u{ffff}' {
            3
        } else {
            4
        };
        acc = acc + w;
        i = i + 1;
    }
    acc
}

/// A prefix never encodes longer than the whole.
pub proof fn lemma_utf8_len_prefix(s: Seq<char>, k: int)
    requires
        0 <= k <= s.len(),
    ensures
        0 <= utf8_len(s.subrange(0, k)) <= utf8_len(s),
    decreases s.len() - k,
{
    if k == s.len() {
        assert(s.subrange(0, k) =~= s);
        lemma_utf8_len_push(Seq::<char>::empty(), 'a');
        if s.len() > 0 {
            assert(s.subrange(0, s.len() - 1).push(s[s.len() - 1]) =~= s);
            lemma_utf8_len_push(s.subrange(0, s.len() - 1), s[s.len() - 1]);
        } else {
            assert(encode_utf8(s) =~= Seq::<u8>::empty());
        }
    } else {
        lemma_utf8_len_prefix(s, k + 1);
        assert(s.subrange(0, k + 1) =~= s.subrange(0, k).push(s[k]));
        lemma_utf8_len_push(s.subrange(0, k), s[k]);
    }
}


/// Whether the UTF-8 encoding of `s` is at most `usize::MAX` bytes long.
pub fn utf8_len_fits(s: &Vec<char>) -> (b: bool)
    ensures
        b == (utf8_len(s@) <= usize::MAX),
{
    let mut i: usize = 0;
    let mut acc: u128 = 0;
    proof {
        assert(s@.subrange(0, 0) =~= Seq::<char>::empty());
        assert(encode_utf8(Seq::<char>::empty()) =~= Seq::<u8>::empty());
    }
    while i < s.len()
        invariant
            i <= s.len(),
            acc == utf8_len(s@.subrange(0, i as int)),
            acc <= 4 * i,
        decreases s.len() - i,
    {
        let c = s[i];
        proof {
            assert(s@.subrange(0, i + 1) =~= s@.subrange(0, i as int).push(c));
            lemma_utf8_len_push(s@.subrange(0, i as int), c);
        }
        let w: u128 = if c <= '\u{7f}' {
            1
        } else if c <= '\u{7ff}' {
            2
        } else if c <= '\u{ffff}' {
            3
        } else {
            4
        };
        acc = acc + w;
        i = i + 1;
    }
    assert(s@.subrange(0, s@.len() as int) =~= s@);
    acc <= usize::MAX as u128
}

/// Whether two character sequences are equal.
pub fn chars_eq(a: &Vec<char>, b: &Vec<char>) -> (r: bool)
    ensures
        r == (a@ == b@),
{
    if a.len() != b.len() {
        return false;
    }
    let mut i: usize = 0;
    while i < a.len()
        invariant
            a@.len() == b@.len(),
            i <= a@.len(),
            forall|k: int| 0 <= k < i ==> a@[k] == b@[k],
        decreases a.len() - i,
    {
        if a[i] != b[i] {
            return false;
        }
        i = i + 1;
    }
    assert(a@ =~= b@);
    true
}

/// Appends `v[from..to]` to the string `s`.
pub fn append_chars(s: &mut String, v: &Vec<char>, from: usize, to: usize)
    requires
        from <= to <= v.len(),
    ensures
        final(s)@ == old(s)@ + v@.subrange(from as int, to as int),
{
    let mut i = from;
    while i < to
        invariant
            from <= i <= to <= v.len(),
            s@ == old(s)@ + v@.subrange(from as int, i as int),
        decreases to - i,
    {
        push_char(s, v[i]);
        i = i + 1;
        assert(s@ =~= old(s)@ + v@.subrange(from as int, i as int));
    }
}

/// `find_from` on a suffix is `find_from` on the whole, shifted.
pub proof fn lemma_find_from_skip(s: Seq<char>, c: char, a: int, i: int)
    requires
        0 <= a <= s.len(),
        0 <= i <= s.len() - a,
    ensures
        find_from(s.skip(a), c, i) == find_from(s, c, i + a) - a,
    decreases s.len() - a - i,
{
    if i < s.len() - a {
        lemma_find_from_skip(s, c, a, i + 1);
    }
}

// ---------------------------------------------------------------------------
// Decimal numerals, as `Display` writes integers
// ---------------------------------------------------------------------------

/// The digit for `d` in `0..10`.
pub open spec fn digit_char(d: int) -> char {
    ((d + 48) as u8) as char
}

/// The decimal numeral of `n`, without leading zeros.
pub open spec fn nat_decimal(n: nat) -> Seq<char>
    decreases n,
{
    if n < 10 {
        seq![digit_char(n as int)]
    } else {
        nat_decimal(n / 10).push(digit_char((n % 10) as int))
    }
}

/// The decimal numeral of `n`, with a `-` when it is negative.
pub open spec fn int_decimal(n: int) -> Seq<char> {
    if n < 0 {
        seq!['-'] + nat_decimal((-n) as nat)
    } else {
        nat_decimal(n as nat)
    }
}

/// Appends the decimal numeral of `n` to `out`.
pub fn push_nat_decimal(out: &mut String, n: u128)
    ensures
        final(out)@ == old(out)@ + nat_decimal(n as nat),
    decreases n,
{
    if n >= 10 {
        push_nat_decimal(out, n / 10);
    }
    let d: u8 = (n % 10) as u8;
    push_char(out, (d + 48) as char);
    proof {
        if n >= 10 {
            assert(old(out)@ + nat_decimal(n as nat) =~= old(out)@ + nat_decimal((n / 10) as nat)
                + seq![digit_char((n % 10) as int)]);
        } else {
            assert(old(out)@ + nat_decimal(n as nat) =~= old(out)@ + seq![digit_char(n as int)]);
        }
    }
}

/// Appends the decimal numeral of `n` to `out`.
pub fn push_int_decimal(out: &mut String, n: i64)
    ensures
        final(out)@ == old(out)@ + int_decimal(n as int),
{
    if n < 0 {
        push_char(out, '-');
        let m: u128 = (0i128 - (n as i128)) as u128;
        push_nat_decimal(out, m);
        assert(old(out)@ + int_decimal(n as int) =~= old(out)@.push('-') + nat_decimal(m as nat));
    } else {
        push_nat_decimal(out, n as u128);
    }
}

} // verus!
