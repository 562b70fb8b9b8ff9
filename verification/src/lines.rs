//! Facts about the lines of texts: the lines of a text cut after a line break
//! are the lines of its two parts.
use vstd::prelude::*;
use crate::text::{
    find_from, lemma_find_from, lemma_find_from_skip, line_at, line_end, line_starts,
    line_starts_from, lines, next_line_start,
};

verus! {

/// The starts of the lines of a suffix are those of the whole, shifted.
pub proof fn lemma_line_starts_skip(s: Seq<char>, b: int, i: int)
    requires
        0 <= b <= s.len(),
        0 <= i,
    ensures
        line_starts_from(s.skip(b), i).map_values(|x: int| x + b) == line_starts_from(s, i + b),
        forall|x: int| 0 <= x <= s.len() - b ==> #[trigger] line_at(s.skip(b), x) == line_at(s, x + b),
    decreases s.len() - b - i + 1,
{
    let t = s.skip(b);
    assert forall|x: int| 0 <= x <= s.len() - b implies #[trigger] line_at(t, x) == line_at(s, x + b) by {
        lemma_find_from_skip(s, '\n', b, x);
        lemma_find_from(t, '\n', x);
        let n = find_from(t, '\n', x);
        assert(line_end(t, x) + b == line_end(s, x + b));
        assert(t.subrange(x, line_end(t, x)) =~= s.subrange(x + b, line_end(s, x + b)));
    }
    if i < t.len() {
        lemma_find_from_skip(s, '\n', b, i);
        lemma_find_from(t, '\n', i);
        let j = next_line_start(t, i);
        lemma_line_starts_skip(s, b, j);
        assert(line_starts_from(t, i) == seq![i] + line_starts_from(t, j));
        assert(line_starts_from(s, i + b) == seq![i + b] + line_starts_from(s, j + b));
        assert(line_starts_from(t, i).map_values(|x: int| x + b) =~= seq![i + b]
            + line_starts_from(t, j).map_values(|x: int| x + b));
    } else {
        assert(line_starts_from(t, i).map_values(|x: int| x + b) =~= Seq::<int>::empty());
    }
}

/// `b` ends a line of `s`: it is past a line break.
pub open spec fn is_line_boundary(s: Seq<char>, b: int) -> bool {
    0 < b <= s.len() && s[b - 1] == '\n'
}

/// Cut after a line break, the line starts of `s` from `i` on are those of the
/// part before and those of the part after, shifted.
pub proof fn lemma_line_starts_take(s: Seq<char>, b: int, i: int)
    requires
        is_line_boundary(s, b),
        0 <= i <= b,
    ensures
        line_starts_from(s, i) == line_starts_from(s.take(b), i) + line_starts_from(
            s.skip(b),
            0,
        ).map_values(|x: int| x + b),
        forall|x: int| i <= x < b ==> #[trigger] line_at(s.take(b), x) == line_at(s, x),
    decreases b - i,
{
    let p = s.take(b);
    assert forall|x: int| i <= x < b implies #[trigger] line_at(p, x) == line_at(s, x) by {
        lemma_find_from_take(s, b, x);
        lemma_find_from(s, '\n', x);
        assert(p.subrange(x, line_end(p, x)) =~= s.subrange(x, line_end(s, x)));
    }
    lemma_line_starts_skip(s, b, 0);
    if i < b {
        lemma_find_from_take(s, b, i);
        lemma_find_from(s, '\n', i);
        let j = next_line_start(s, i);
        lemma_line_starts_take(s, b, j);
        assert(line_starts_from(s, i) == seq![i] + line_starts_from(s, j));
        assert(line_starts_from(p, i) == seq![i] + line_starts_from(p, j));
    } else {
        assert(line_starts_from(p, i) == Seq::<int>::empty());
        assert(line_starts_from(s, i) =~= line_starts_from(p, i) + line_starts_from(s, 0 + b));
    }
}

/// Before a line break at `b - 1`, the first line break of `s` and of its part
/// before `b` are the same.
pub proof fn lemma_find_from_take(s: Seq<char>, b: int, i: int)
    requires
        is_line_boundary(s, b),
        0 <= i < b,
    ensures
        find_from(s.take(b), '\n', i) == find_from(s, '\n', i),
        find_from(s, '\n', i) < b,
    decreases b - i,
{
    if s[i] != '\n' {
        lemma_find_from_take(s, b, i + 1);
    }
}

/// The lines of a text cut after a line break are the lines of the two parts.
pub proof fn lemma_lines_split(s: Seq<char>, b: int)
    requires
        is_line_boundary(s, b),
    ensures
        lines(s) == lines(s.take(b)) + lines(s.skip(b)),
        line_starts(s).len() == line_starts(s.take(b)).len() + line_starts(s.skip(b)).len(),
{
    lemma_line_starts_take(s, b, 0);
    lemma_line_starts_skip(s, b, 0);
    let p = s.take(b);
    let t = s.skip(b);
    let sp = line_starts(p);
    let st = line_starts(t);
    crate::text::lemma_line_starts_from(p, 0);
    crate::text::lemma_line_starts_from(t, 0);
    assert(line_starts(s) == sp + st.map_values(|x: int| x + b));
    assert forall|k: int| 0 <= k < lines(s).len() implies #[trigger] lines(s)[k] == (lines(p)
        + lines(t))[k] by {
        if k < sp.len() {
            assert(line_starts(s)[k] == sp[k]);
        } else {
            let x = st[k - sp.len()];
            assert(line_starts(s)[k] == x + b);
            assert(0 <= x < t.len());
        }
    }
    assert(lines(s) =~= lines(p) + lines(t));
}

/// Cutting a text in one place.
pub proof fn lemma_lines_subrange(s: Seq<char>, a: int, b: int)
    requires
        0 <= a <= b <= s.len(),
        a == 0 || is_line_boundary(s, a),
        b == s.len() || is_line_boundary(s, b),
    ensures
        lines(s) == lines(s.take(a)) + lines(s.subrange(a, b)) + lines(s.skip(b)),
{
    if a > 0 {
        lemma_lines_split(s, a);
    } else {
        assert(s.skip(0) =~= s);
        assert(lines(s.take(0)) =~= Seq::<Seq<char>>::empty()) by {
            assert(line_starts(s.take(0)) == Seq::<int>::empty());
        }
    }
    let u = s.skip(a);
    if b < s.len() {
        if b > a {
            assert(is_line_boundary(u, b - a));
            lemma_lines_split(u, b - a);
            assert(u.take(b - a) =~= s.subrange(a, b));
            assert(u.skip(b - a) =~= s.skip(b));
        } else {
            assert(s.subrange(a, b) =~= Seq::<char>::empty());
            assert(lines(s.subrange(a, b)) =~= Seq::<Seq<char>>::empty()) by {
                assert(line_starts(s.subrange(a, b)) == Seq::<int>::empty());
            }
            assert(u =~= s.skip(b));
        }
    } else {
        assert(u =~= s.subrange(a, b));
        assert(lines(s.skip(b)) =~= Seq::<Seq<char>>::empty()) by {
            assert(line_starts(s.skip(b)) == Seq::<int>::empty());
        }
    }
    if a > 0 {
    } else {
        assert(lines(s) =~= lines(s.take(a)) + lines(s.subrange(a, b)) + lines(s.skip(b)));
    }
}

/// Where line `p` of `s` starts, or `s.len()` past the last line.
pub open spec fn line_bound(s: Seq<char>, p: int) -> int {
    if p < line_starts(s).len() {
        line_starts(s)[p]
    } else {
        s.len() as int
    }
}

/// A line start past the first is a line boundary.
pub proof fn lemma_line_start_boundary(s: Seq<char>, p: int)
    requires
        0 < p < line_starts(s).len(),
    ensures
        is_line_boundary(s, line_starts(s)[p]),
{
    crate::text::lemma_line_starts_from(s, 0);
    let x = line_starts(s)[p - 1];
    crate::text::lemma_line_end(s, x);
    assert(next_line_start(s, x) == line_starts(s)[p]);
}

/// The text before line `p` has `p` lines.
pub proof fn lemma_lines_before(s: Seq<char>, p: int)
    requires
        0 <= p <= line_starts(s).len(),
    ensures
        lines(s.take(line_bound(s, p))).len() == p,
        p == 0 || line_bound(s, p) == s.len() || is_line_boundary(s, line_bound(s, p)),
{
    crate::text::lemma_line_starts_from(s, 0);
    let b = line_bound(s, p);
    if p == 0 {
        if line_starts(s).len() > 0 {
            assert(b == 0);
        } else {
            assert(s.len() == 0);
        }
        assert(line_starts(s.take(b)) == Seq::<int>::empty());
    } else if p < line_starts(s).len() {
        lemma_line_start_boundary(s, p);
        lemma_line_starts_take(s, b, 0);
        lemma_line_starts_skip(s, b, 0);
        let q = line_starts(s.take(b)).len();
        let rest = line_starts(s.skip(b));
        assert(rest.len() > 0 && rest[0] == 0);
        assert(line_starts(s)[q as int] == b);
        if q < p {
            assert(line_starts(s)[q as int] < line_starts(s)[p]);
        } else if q > p {
            assert(line_starts(s)[p] < line_starts(s)[q as int]);
        }
    } else {
        assert(s.take(b) =~= s);
        if s.len() > 0 {
            // the last line start is followed by no other
            let l = line_starts(s).len();
            assert(l > 0);
        }
    }
    if 0 < p && p == line_starts(s).len() && s.len() > 0 {
        assert(b == s.len());
    }
}

/// The lines from line `p` to line `q` of `s` are the lines of that part of `s`.
pub proof fn lemma_lines_of_range(s: Seq<char>, p: int, q: int)
    requires
        0 <= p <= q <= line_starts(s).len(),
    ensures
        lines(s.subrange(line_bound(s, p), line_bound(s, q))) == lines(s).subrange(p, q),
{
    crate::text::lemma_line_starts_from(s, 0);
    lemma_lines_before(s, p);
    lemma_lines_before(s, q);
    let a = line_bound(s, p);
    let b = line_bound(s, q);
    if p < q {
        if q < line_starts(s).len() {
            assert(line_starts(s)[p] < line_starts(s)[q]);
        }
    }
    assert(a <= b);
    if p == q {
        assert(s.subrange(a, b) =~= Seq::<char>::empty());
        assert(lines(s.subrange(a, b)) =~= Seq::<Seq<char>>::empty()) by {
            assert(line_starts(s.subrange(a, b)) == Seq::<int>::empty());
        }
        assert(lines(s).subrange(p, q) =~= Seq::<Seq<char>>::empty());
        return;
    }
    lemma_lines_subrange(s, a, b);
    let t = s.take(b);
    if a > 0 {
        assert(is_line_boundary(t, a));
    }
    lemma_lines_subrange(t, a, b);
    assert(t.take(a) =~= s.take(a));
    assert(t.subrange(a, b) =~= s.subrange(a, b));
    assert(t.skip(b) =~= Seq::<char>::empty());
    assert(lines(t.skip(b)) =~= Seq::<Seq<char>>::empty()) by {
        assert(line_starts(t.skip(b)) == Seq::<int>::empty());
    }
    assert(lines(s).subrange(p, q) =~= lines(s.subrange(a, b)));
}

} // verus!
