//! Mathematical model of the line-oriented text transformations.
//!
//! Text is modelled as a `Seq<char>`. A text is split into lines at `'\n'`
//! boundaries, with a `'\r'` immediately before a `'\n'` absorbed into the
//! line ending and an optional final line ending, mirroring how the engine
//! walks its input. Lines are rejoined with plain `'\n'` separators.

use vstd::prelude::*;

verus! {

/// Decorative glyph used as a visual prefix for user lines in the TUI.
pub const LIVE_PREFIX_GLYPH: char = '\u{258C}';

/// True when the glyph occurs anywhere in the text.
pub open spec fn contains_glyph(s: Seq<char>) -> bool {
    exists|i: int| 0 <= i < s.len() && s[i] == LIVE_PREFIX_GLYPH
}

/// Index of the first `'\n'` in `s`, or `s.len()` if there is none.
pub open spec fn first_nl(s: Seq<char>) -> nat
    decreases s.len(),
{
    if s.len() == 0 {
        0
    } else if s[0] == '\n' {
        0
    } else {
        1 + first_nl(s.skip(1))
    }
}

/// A line ending `"\r\n"` loses its `'\r'` along with the `'\n'`.
pub open spec fn chomp_cr(l: Seq<char>) -> Seq<char> {
    if l.len() > 0 && l.last() == '\r' {
        l.drop_last()
    } else {
        l
    }
}

/// The lines of `s`: pieces between `'\n'` separators, each stripped of a
/// `'\r'` standing right before the separator; a trailing line ending opens
/// no further empty line.
pub open spec fn split_lines(s: Seq<char>) -> Seq<Seq<char>>
    decreases s.len(),
{
    if s.len() == 0 {
        Seq::empty()
    } else {
        let i = first_nl(s);
        if i >= s.len() {
            seq![s]
        } else {
            seq![chomp_cr(s.take(i as int))] + split_lines(s.skip(i as int + 1))
        }
    }
}

/// Lines rejoined with single `'\n'` separators.
pub open spec fn join_lines(ls: Seq<Seq<char>>) -> Seq<char>
    decreases ls.len(),
{
    if ls.len() == 0 {
        Seq::empty()
    } else if ls.len() == 1 {
        ls[0]
    } else {
        ls[0] + seq!['\n'] + join_lines(ls.skip(1))
    }
}

/// The line begins with the decorative glyph.
pub open spec fn line_has_prefix(l: Seq<char>) -> bool {
    l.len() > 0 && l[0] == LIVE_PREFIX_GLYPH
}

/// Remove one leading glyph, and the single space following it if there is
/// one, from a line; a line without the glyph is untouched.
pub open spec fn strip_line(l: Seq<char>) -> Seq<char> {
    if l.len() >= 2 && l[0] == LIVE_PREFIX_GLYPH && l[1] == ' ' {
        l.skip(2)
    } else if line_has_prefix(l) {
        l.skip(1)
    } else {
        l
    }
}

/// Some line of `s` begins with the glyph.
pub open spec fn any_line_has_prefix(s: Seq<char>) -> bool {
    exists|i: int| 0 <= i < split_lines(s).len() && line_has_prefix(split_lines(s)[i])
}

/// The default rule. Text without the glyph, or in which no line begins with
/// it, passes through identically (the engine's allocation-free fast path);
/// otherwise every line is stripped and the lines are rejoined with `'\n'`.
pub open spec fn strip_glyph_text(s: Seq<char>) -> Seq<char> {
    if !contains_glyph(s) {
        s
    } else if !any_line_has_prefix(s) {
        s
    } else {
        join_lines(split_lines(s).map_values(|l: Seq<char>| strip_line(l)))
    }
}

/// The line contains no `'\n'`.
pub open spec fn line_clean(l: Seq<char>) -> bool {
    forall|j: int| 0 <= j < l.len() ==> l[j] != '\n'
}

pub proof fn lemma_first_nl(s: Seq<char>)
    ensures
        first_nl(s) <= s.len(),
        first_nl(s) < s.len() ==> s[first_nl(s) as int] == '\n',
        forall|j: int| 0 <= j < first_nl(s) ==> s[j] != '\n',
    decreases s.len(),
{
    if s.len() == 0 {
    } else if s[0] == '\n' {
    } else {
        lemma_first_nl(s.skip(1));
        assert forall|j: int| 0 <= j < first_nl(s) implies s[j] != '\n' by {
            if j > 0 {
                assert(s.skip(1)[j - 1] == s[j]);
            }
        }
    }
}

/// `first_nl` is pinned down by its characteristic properties.
pub proof fn lemma_first_nl_is(s: Seq<char>, k: int)
    requires
        0 <= k <= s.len(),
        forall|j: int| 0 <= j < k ==> s[j] != '\n',
        k < s.len() ==> s[k] == '\n',
    ensures
        first_nl(s) == k,
    decreases k,
{
    if k == 0 {
    } else {
        assert(s[0] != '\n');
        assert forall|j: int| 0 <= j < k - 1 implies s.skip(1)[j] != '\n' by {
            assert(s.skip(1)[j] == s[j + 1]);
        }
        assert(k - 1 < s.skip(1).len() ==> s.skip(1)[k - 1] == '\n');
        lemma_first_nl_is(s.skip(1), k - 1);
    }
}

/// Splitting distributes over concatenation at a line-ending boundary.
pub proof fn lemma_split_lines_append(a: Seq<char>, b: Seq<char>)
    requires
        a.len() > 0,
        a.last() == '\n',
    ensures
        split_lines(a + b) == split_lines(a) + split_lines(b),
    decreases a.len(),
{
    lemma_first_nl(a);
    let i = first_nl(a) as int;
    assert(i < a.len());
    lemma_first_nl_is(a + b, i);
    assert((a + b).len() > 0);
    assert((a + b).take(i) =~= a.take(i));
    assert((a + b).skip(i + 1) =~= a.skip(i + 1) + b);
    if a.skip(i + 1).len() == 0 {
        assert(a.skip(i + 1) + b =~= b);
        assert(split_lines(a.skip(i + 1)) =~~= Seq::<Seq<char>>::empty());
        assert(split_lines(a) =~~= seq![chomp_cr(a.take(i))]);
        assert(split_lines(a + b) =~~= seq![chomp_cr(a.take(i))] + split_lines(b));
        assert(split_lines(a) + split_lines(b) =~~= seq![chomp_cr(a.take(i))] + split_lines(b));
    } else {
        assert(a.skip(i + 1).last() == a.last());
        lemma_split_lines_append(a.skip(i + 1), b);
        assert(split_lines(a + b) =~~= seq![chomp_cr(a.take(i))] + (split_lines(a.skip(i + 1))
            + split_lines(b)));
        assert(split_lines(a) + split_lines(b) =~~= seq![chomp_cr(a.take(i))] + (split_lines(
            a.skip(i + 1),
        ) + split_lines(b)));
    }
}

/// Appending one line to a joined text inserts one `'\n'` separator, unless
/// it is the first line.
pub proof fn lemma_join_lines_push(ls: Seq<Seq<char>>, l: Seq<char>)
    ensures
        ls.len() == 0 ==> join_lines(ls.push(l)) == l,
        ls.len() > 0 ==> join_lines(ls.push(l)) == join_lines(ls) + seq!['\n'] + l,
    decreases ls.len(),
{
    if ls.len() == 0 {
        assert(join_lines(ls.push(l)) == ls.push(l)[0]);
        assert(ls.push(l)[0] == l);
    } else if ls.len() == 1 {
        assert(ls.push(l).skip(1) =~~= seq![l]);
        assert(join_lines(seq![l]) == seq![l][0]);
        assert(ls.push(l)[0] == ls[0]);
        assert(join_lines(ls.push(l)) == ls[0] + seq!['\n'] + l);
        assert(join_lines(ls) == ls[0]);
    } else {
        lemma_join_lines_push(ls.skip(1), l);
        assert(ls.push(l).skip(1) =~~= ls.skip(1).push(l));
        assert(join_lines(ls.push(l)) == ls[0] + seq!['\n'] + join_lines(ls.skip(1).push(l)));
    }
}

/// Every line produced by `split_lines` is free of `'\n'`.
pub proof fn lemma_split_lines_clean(s: Seq<char>)
    ensures
        forall|i: int| 0 <= i < split_lines(s).len() ==> line_clean(#[trigger] split_lines(s)[i]),
    decreases s.len(),
{
    if s.len() == 0 {
    } else {
        lemma_first_nl(s);
        let i = first_nl(s) as int;
        if i == s.len() {
            assert(line_clean(s));
        } else {
            assert(line_clean(s.take(i)));
            assert(line_clean(chomp_cr(s.take(i))));
            lemma_split_lines_clean(s.skip(i + 1));
            assert forall|k: int| 0 <= k < split_lines(s).len() implies line_clean(
                #[trigger] split_lines(s)[k],
            ) by {
                if k > 0 {
                    assert(split_lines(s)[k] == split_lines(s.skip(i + 1))[k - 1]);
                }
            }
        }
    }
}

/// A line without `'\n'` has no newline to find.
pub proof fn lemma_clean_first_nl(l: Seq<char>)
    requires
        line_clean(l),
    ensures
        first_nl(l) == l.len(),
{
    lemma_first_nl(l);
}

/// Joining `'\n'`-free lines and splitting again preserves the absence of
/// a leading glyph on every line.
pub proof fn lemma_split_join_no_prefix(ls: Seq<Seq<char>>)
    requires
        forall|i: int| 0 <= i < ls.len() ==> line_clean(#[trigger] ls[i]),
        forall|i: int| 0 <= i < ls.len() ==> !line_has_prefix(#[trigger] ls[i]),
    ensures
        forall|k: int|
            0 <= k < split_lines(join_lines(ls)).len() ==> !line_has_prefix(
                #[trigger] split_lines(join_lines(ls))[k],
            ),
    decreases ls.len(),
{
    if ls.len() == 0 {
    } else if ls.len() == 1 {
        let l = ls[0];
        if l.len() == 0 {
        } else {
            lemma_clean_first_nl(l);
            assert(split_lines(l) =~~= seq![l]);
        }
    } else {
        let l = ls[0];
        let a = l + seq!['\n'];
        let rest = join_lines(ls.skip(1));
        assert(join_lines(ls) =~= a + rest);
        lemma_split_lines_append(a, rest);
        lemma_clean_first_nl(l);
        assert forall|j: int| 0 <= j < l.len() implies a[j] != '\n' by {
            assert(a[j] == l[j]);
        }
        lemma_first_nl_is(a, l.len() as int);
        assert(a.take(l.len() as int) =~= l);
        assert(a.skip(l.len() as int + 1) =~= Seq::<char>::empty());
        assert(split_lines(a.skip(l.len() as int + 1)) =~~= Seq::<Seq<char>>::empty());
        assert(split_lines(a) =~~= seq![chomp_cr(l)]);
        if chomp_cr(l).len() > 0 {
            assert(chomp_cr(l)[0] == l[0]);
        }
        assert(!line_has_prefix(chomp_cr(l)));
        assert forall|i: int| 0 <= i < ls.skip(1).len() implies line_clean(#[trigger] ls.skip(1)[i])
            && !line_has_prefix(ls.skip(1)[i]) by {
            assert(ls.skip(1)[i] == ls[i + 1]);
        }
        lemma_split_join_no_prefix(ls.skip(1));
        assert forall|k: int| 0 <= k < split_lines(join_lines(ls)).len() implies !line_has_prefix(
            #[trigger] split_lines(join_lines(ls))[k],
        ) by {
            assert(split_lines(join_lines(ls)) == seq![chomp_cr(l)] + split_lines(rest));
            if k > 0 {
                assert(split_lines(join_lines(ls))[k] == split_lines(rest)[k - 1]);
            }
        }
    }
}

/// Stripping the glyph from a line cannot introduce a `'\n'`.
pub proof fn lemma_strip_line_clean(l: Seq<char>)
    requires
        line_clean(l),
    ensures
        line_clean(strip_line(l)),
{
}

/// Applying the default rule twice gives the same text as applying it once,
/// provided no line still begins with the glyph after one pass — which
/// excludes exactly the lines that open with a doubled glyph, such as a line
/// starting `"▌▌"` or `"▌ ▌"`.
pub proof fn lemma_strip_glyph_idempotent(s: Seq<char>)
    requires
        forall|i: int|
            0 <= i < split_lines(s).len() ==> !line_has_prefix(
                strip_line(#[trigger] split_lines(s)[i]),
            ),
    ensures
        strip_glyph_text(strip_glyph_text(s)) == strip_glyph_text(s),
{
    if !contains_glyph(s) {
    } else if !any_line_has_prefix(s) {
    } else {
        let ls = split_lines(s).map_values(|l: Seq<char>| strip_line(l));
        let t = join_lines(ls);
        assert(strip_glyph_text(s) == t);
        lemma_split_lines_clean(s);
        assert forall|i: int| 0 <= i < ls.len() implies line_clean(#[trigger] ls[i])
            && !line_has_prefix(ls[i]) by {
            assert(ls[i] == strip_line(split_lines(s)[i]));
            lemma_strip_line_clean(split_lines(s)[i]);
        }
        lemma_split_join_no_prefix(ls);
        assert(!any_line_has_prefix(t));
        assert(strip_glyph_text(t) == t);
    }
}

} // verus!
