//! Individual sanitization rules.
//!
//! A rule is a named, pure, deterministic text transformation. Rules report
//! whether they changed anything, so the engine can keep handing the original
//! text along — and allocate an owned copy only once — while no rule in the
//! chain has modified it.

use vstd::prelude::*;
use vstd::string::StrSliceExecFns;
use vstd::string::StringExecFns;

use crate::text::LIVE_PREFIX_GLYPH;
use crate::text::chomp_cr;
use crate::text::contains_glyph;
use crate::text::lemma_first_nl_is;
use crate::text::line_has_prefix;
use crate::text::split_lines;
use crate::text::strip_glyph_text;
use crate::text::strip_line;

verus! {

/// What a rule application produced: the input itself (nothing to do, no
/// allocation) or a freshly built text.
pub enum RuleOutput {
    Unchanged,
    Changed(String),
}

/// The behavior of a rule, as data. Every variant is a total, deterministic
/// text transformation.
#[derive(Clone)]
pub enum RuleFn {
    /// Remove the decorative prefix glyph (and one following space) from the
    /// start of every line; the built-in default.
    StripPrefixGlyph,
    /// Map ASCII lowercase letters to uppercase.
    UppercaseAscii,
    /// Remove ASCII whitespace from both ends of the text.
    TrimWhitespace,
    /// Append the given suffix to the text.
    AppendSuffix(String),
}

/// ASCII lowercase letters map to their uppercase form; all else unchanged.
pub open spec fn to_upper_char(c: char) -> char {
    if 97 <= c as u32 && c as u32 <= 122 {
        (c as u32 - 32) as char
    } else {
        c
    }
}

/// Uppercasing a text is uppercasing each of its characters.
pub open spec fn upper_text(s: Seq<char>) -> Seq<char> {
    s.map_values(|c: char| to_upper_char(c))
}

/// ASCII whitespace, the characters the trim rule removes at the ends.
pub open spec fn is_ws_char(c: char) -> bool {
    c == ' ' || c == '\t' || c == '\r' || c == '\n'
}

/// The text without its leading whitespace.
pub open spec fn trim_start_text(s: Seq<char>) -> Seq<char>
    decreases s.len(),
{
    if s.len() > 0 && is_ws_char(s[0]) {
        trim_start_text(s.skip(1))
    } else {
        s
    }
}

/// The text without its trailing whitespace.
pub open spec fn trim_end_text(s: Seq<char>) -> Seq<char>
    decreases s.len(),
{
    if s.len() > 0 && is_ws_char(s.last()) {
        trim_end_text(s.drop_last())
    } else {
        s
    }
}

/// The text without leading and trailing whitespace.
pub open spec fn trim_text(s: Seq<char>) -> Seq<char> {
    trim_end_text(trim_start_text(s))
}

/// What each rule behavior does to a text.
pub open spec fn rule_fn_spec(f: RuleFn, s: Seq<char>) -> Seq<char> {
    match f {
        RuleFn::StripPrefixGlyph => strip_glyph_text(s),
        RuleFn::UppercaseAscii => upper_text(s),
        RuleFn::TrimWhitespace => trim_text(s),
        RuleFn::AppendSuffix(suffix) => s + suffix@,
    }
}

/// Trait for an individual sanitization rule: a name for diagnostics and a
/// pure transformation. An implementation that recognizes that the input
/// needs no change returns `RuleOutput::Unchanged` to avoid allocating.
pub trait SanitizeRule {
    /// The rule's name, for diagnostics and tests.
    spec fn spec_name(&self) -> Seq<char>;

    /// The transformation the rule performs.
    spec fn spec_apply(&self, s: Seq<char>) -> Seq<char>;

    fn name(&self) -> (n: &str)
        ensures
            n@ == self.spec_name(),
    ;

    fn apply(&self, input: &str) -> (out: RuleOutput)
        ensures
            match out {
                RuleOutput::Unchanged => self.spec_apply(input@) == input@,
                RuleOutput::Changed(t) => t@ == self.spec_apply(input@),
            },
    ;
}

/// A rule given by a name and a [`RuleFn`] behavior.
#[derive(Clone)]
pub struct Rule {
    pub name: String,
    pub f: RuleFn,
}

/// Create a simple named rule from a behavior (public helper for tests and
/// extensions).
pub fn fn_rule(name: &str, f: RuleFn) -> (r: Rule)
    ensures
        r.name@ == name@,
        r.f == f,
{
    Rule { name: String::from_str(name), f }
}

impl SanitizeRule for Rule {
    open spec fn spec_name(&self) -> Seq<char> {
        self.name@
    }

    open spec fn spec_apply(&self, s: Seq<char>) -> Seq<char> {
        rule_fn_spec(self.f, s)
    }

    fn name(&self) -> (n: &str) {
        self.name.as_str()
    }

    fn apply(&self, input: &str) -> (out: RuleOutput) {
        match &self.f {
            RuleFn::StripPrefixGlyph => apply_strip_glyph(input),
            RuleFn::UppercaseAscii => apply_uppercase(input),
            RuleFn::TrimWhitespace => apply_trim(input),
            RuleFn::AppendSuffix(suffix) => apply_suffix(input, suffix.as_str()),
        }
    }
}

/// Relies on `String::push` from std: it appends exactly the one character
/// to the end of the string.
#[verifier::external_body]
fn push_char(s: &mut String, c: char)
    ensures
        final(s)@ == old(s)@.push(c),
{
    s.push(c);
}

fn upper_char(c: char) -> (r: char)
    ensures
        r == to_upper_char(c),
{
    let u = c as u32;
    if 97 <= u && u <= 122 {
        ((u - 32) as u8) as char
    } else {
        c
    }
}

fn apply_uppercase(input: &str) -> (out: RuleOutput)
    ensures
        match out {
            RuleOutput::Unchanged => upper_text(input@) == input@,
            RuleOutput::Changed(t) => t@ == upper_text(input@),
        },
{
    let n = input.unicode_len();
    let mut out = String::new();
    let mut k: usize = 0;
    while k < n
        invariant
            n == input@.len(),
            0 <= k <= n,
            out@.len() == k,
            forall|j: int| 0 <= j < k ==> out@[j] == to_upper_char(input@[j]),
        decreases n - k,
    {
        push_char(&mut out, upper_char(input.get_char(k)));
        k = k + 1;
    }
    proof {
        assert(out@ =~= upper_text(input@));
    }
    RuleOutput::Changed(out)
}

fn is_ws(c: char) -> (r: bool)
    ensures
        r == is_ws_char(c),
{
    c == ' ' || c == '\t' || c == '\r' || c == '\n'
}

proof fn lemma_trim_start_skip(s: Seq<char>, a: int)
    requires
        0 <= a <= s.len(),
        forall|j: int| 0 <= j < a ==> is_ws_char(s[j]),
    ensures
        trim_start_text(s) == trim_start_text(s.skip(a)),
    decreases a,
{
    if a == 0 {
        assert(s.skip(0) =~= s);
    } else {
        assert(is_ws_char(s[0]));
        assert forall|j: int| 0 <= j < a - 1 implies is_ws_char(s.skip(1)[j]) by {
            assert(s.skip(1)[j] == s[j + 1]);
        }
        lemma_trim_start_skip(s.skip(1), a - 1);
        assert(s.skip(1).skip(a - 1) =~= s.skip(a));
    }
}

proof fn lemma_trim_end_take(l: Seq<char>, k: int)
    requires
        0 <= k <= l.len(),
        forall|j: int| k <= j < l.len() ==> is_ws_char(l[j]),
        k > 0 ==> !is_ws_char(l[k - 1]),
    ensures
        trim_end_text(l) == l.take(k),
    decreases l.len(),
{
    if l.len() == k {
        assert(l.take(k) =~= l);
    } else {
        assert(is_ws_char(l.last()));
        assert(l.drop_last() =~= l.take(l.len() - 1));
        assert forall|j: int| k <= j < l.drop_last().len() implies is_ws_char(
            l.drop_last()[j],
        ) by {
            assert(l.drop_last()[j] == l[j]);
        }
        lemma_trim_end_take(l.drop_last(), k);
        assert(l.drop_last().take(k) =~= l.take(k));
    }
}

fn apply_trim(input: &str) -> (out: RuleOutput)
    ensures
        match out {
            RuleOutput::Unchanged => trim_text(input@) == input@,
            RuleOutput::Changed(t) => t@ == trim_text(input@),
        },
{
    let n = input.unicode_len();
    let mut a: usize = 0;
    while a < n && is_ws(input.get_char(a))
        invariant
            n == input@.len(),
            0 <= a <= n,
            forall|j: int| 0 <= j < a ==> is_ws_char(input@[j]),
        decreases n - a,
    {
        a = a + 1;
    }
    let mut b: usize = n;
    while b > a && is_ws(input.get_char(b - 1))
        invariant
            n == input@.len(),
            a <= b <= n,
            forall|j: int| b <= j < n ==> is_ws_char(input@[j]),
        decreases b,
    {
        b = b - 1;
    }
    proof {
        lemma_trim_start_skip(input@, a as int);
        assert(a < n ==> !is_ws_char(input@.skip(a as int)[0]));
        assert(trim_start_text(input@) == input@.skip(a as int));
        assert forall|j: int| b - a <= j < input@.skip(a as int).len() implies is_ws_char(
            input@.skip(a as int)[j],
        ) by {
            assert(input@.skip(a as int)[j] == input@[j + a]);
        }
        assert(b > a ==> !is_ws_char(input@.skip(a as int)[b - a - 1]));
        lemma_trim_end_take(input@.skip(a as int), b - a);
        assert(input@.skip(a as int).take(b - a) =~= input@.subrange(a as int, b as int));
        assert(trim_text(input@) == input@.subrange(a as int, b as int));
    }
    if a == 0 && b == n {
        proof {
            assert(trim_text(input@) =~= input@);
        }
        RuleOutput::Unchanged
    } else {
        let out = String::from_str(input.substring_char(a, b));
        RuleOutput::Changed(out)
    }
}

fn apply_suffix(input: &str, suffix: &str) -> (out: RuleOutput)
    ensures
        match out {
            RuleOutput::Unchanged => input@ + suffix@ == input@,
            RuleOutput::Changed(t) => t@ == input@ + suffix@,
        },
{
    let mut out = String::from_str(input);
    out.append(suffix);
    RuleOutput::Changed(out)
}

/// Scan for the glyph anywhere in the text.
fn text_contains_glyph(s: &str) -> (found: bool)
    ensures
        found == contains_glyph(s@),
{
    let n = s.unicode_len();
    let mut i: usize = 0;
    while i < n
        invariant
            n == s@.len(),
            0 <= i <= n,
            forall|j: int| 0 <= j < i ==> s@[j] != LIVE_PREFIX_GLYPH,
        decreases n - i,
    {
        if s.get_char(i) == LIVE_PREFIX_GLYPH {
            return true;
        }
        i = i + 1;
    }
    false
}

/// Position of the next `'\n'` at or after `from`, or the text's length.
fn find_newline(s: &str, from: usize) -> (i: usize)
    requires
        from <= s@.len(),
    ensures
        from <= i <= s@.len(),
        forall|j: int| from <= j < i ==> s@[j] != '\n',
        i < s@.len() ==> s@[i as int] == '\n',
{
    let n = s.unicode_len();
    let mut i: usize = from;
    while i < n
        invariant
            n == s@.len(),
            from <= i <= n,
            forall|j: int| from <= j < i ==> s@[j] != '\n',
        decreases n - i,
    {
        if s.get_char(i) == '\n' {
            return i;
        }
        i = i + 1;
    }
    i
}

fn apply_strip_glyph(input: &str) -> (out: RuleOutput)
    ensures
        match out {
            RuleOutput::Unchanged => strip_glyph_text(input@) == input@,
            RuleOutput::Changed(t) => t@ == strip_glyph_text(input@),
        },
{
    // Fast path: if the glyph never appears, the input passes through as is.
    if !text_contains_glyph(input) {
        return RuleOutput::Unchanged;
    }
    let n = input.unicode_len();
    let mut out = String::new();
    let mut changed = false;
    let mut p: usize = 0;
    let ghost mut done: Seq<Seq<char>> = Seq::empty();
    let ghost mut sdone: Seq<Seq<char>> = Seq::empty();
    proof {
        assert(input@.skip(0) =~= input@);
    }
    while p < n
        invariant
            n == input@.len(),
            0 <= p <= n,
            split_lines(input@) == done + split_lines(input@.skip(p as int)),
            sdone.len() == done.len(),
            forall|i: int| 0 <= i < done.len() ==> sdone[i] == strip_line(#[trigger] done[i]),
            out@ == crate::text::join_lines(sdone),
            changed == exists|i: int| 0 <= i < done.len() && line_has_prefix(#[trigger] done[i]),
            (p == 0) <==> (done.len() == 0),
        decreases n - p,
    {
        let i = find_newline(input, p);
        let ghost rem = input@.skip(p as int);
        proof {
            assert forall|j: int| 0 <= j < i - p implies rem[j] != '\n' by {
                assert(rem[j] == input@[j + p]);
            }
            assert(i < n ==> rem[i - p] == '\n');
            lemma_first_nl_is(rem, i - p);
        }
        let seg = input.substring_char(p, i);
        let seg_len = i - p;
        // A '\r' right before a line ending goes with the ending.
        let chomped = i < n && seg_len > 0 && seg.get_char(seg_len - 1) == '\r';
        let line: &str = if chomped {
            input.substring_char(p, i - 1)
        } else {
            seg
        };
        let line_len = if chomped {
            seg_len - 1
        } else {
            seg_len
        };
        let ghost cur_line: Seq<char> = if i < n {
            chomp_cr(input@.subrange(p as int, i as int))
        } else {
            input@.subrange(p as int, n as int)
        };
        proof {
            if i < n {
                if chomped {
                    assert(seg@.drop_last() =~= input@.subrange(p as int, i as int - 1));
                }
                assert(line@ == cur_line);
            } else {
                assert(line@ == cur_line);
            }
            assert(line@.len() == line_len);
        }
        // Strip one glyph, and the single space after it if there is one.
        let has2 = line_len >= 2 && line.get_char(0) == LIVE_PREFIX_GLYPH && line.get_char(1)
            == ' ';
        let has1 = line_len >= 1 && line.get_char(0) == LIVE_PREFIX_GLYPH;
        let stripped: &str = if has2 {
            line.substring_char(2, line_len)
        } else if has1 {
            line.substring_char(1, line_len)
        } else {
            line
        };
        proof {
            if has2 {
                assert(line@.subrange(2, line_len as int) =~= cur_line.skip(2));
            } else if has1 {
                assert(line@.subrange(1, line_len as int) =~= cur_line.skip(1));
            }
            assert(stripped@ == strip_line(cur_line));
            assert(has1 == line_has_prefix(cur_line));
        }
        let ghost old_done = done;
        let ghost old_sdone = sdone;
        let ghost old_out = out@;
        let ghost old_changed = changed;
        if p > 0 {
            out.append("\n");
        }
        out.append(stripped);
        if has1 {
            changed = true;
        }
        proof {
            done = old_done.push(cur_line);
            sdone = old_sdone.push(strip_line(cur_line));
            reveal_strlit("\n");
            assert("\n"@ =~= seq!['\n']);
            crate::text::lemma_join_lines_push(old_sdone, strip_line(cur_line));
            if old_done.len() == 0 {
                assert(out@ == crate::text::join_lines(sdone));
            } else {
                assert(out@ == old_out + seq!['\n'] + stripped@);
                assert(out@ == crate::text::join_lines(sdone));
            }
            // The lines recorded so far still prefix the split of the input.
            assert(rem.len() > 0);
            assert(crate::text::first_nl(rem) == i - p);
            if i < n {
                assert(rem.take(i - p) =~= input@.subrange(p as int, i as int));
                assert(rem.skip(i - p + 1) =~= input@.skip(i as int + 1));
                assert(split_lines(rem) == seq![cur_line] + split_lines(input@.skip(i as int + 1)));
                assert(old_done + split_lines(rem) =~~= done + split_lines(
                    input@.skip(i as int + 1),
                ));
            } else {
                assert(rem =~= cur_line);
                assert(split_lines(rem) == seq![rem]);
                assert(input@.skip(n as int).len() == 0);
                assert(split_lines(input@.skip(n as int)) =~~= Seq::<Seq<char>>::empty());
                assert(old_done + split_lines(rem) =~~= done + split_lines(input@.skip(n as int)));
            }
            // The changed flag still tracks whether any line had the prefix.
            if has1 {
                assert(line_has_prefix(done[old_done.len() as int]));
            } else if old_changed {
                let w = choose|w: int|
                    0 <= w < old_done.len() && line_has_prefix(#[trigger] old_done[w]);
                assert(line_has_prefix(done[w]));
            } else {
                assert forall|w: int| 0 <= w < done.len() implies !line_has_prefix(
                    #[trigger] done[w],
                ) by {
                    if w < old_done.len() {
                    } else {
                        assert(done[w] == cur_line);
                    }
                }
            }
        }
        if i < n {
            p = i + 1;
        } else {
            p = n;
        }
    }
    proof {
        assert(input@.skip(n as int).len() == 0);
        assert(split_lines(input@.skip(n as int)) =~~= Seq::<Seq<char>>::empty());
        assert(done =~~= split_lines(input@));
        assert(sdone =~~= split_lines(input@).map_values(|l: Seq<char>| strip_line(l)));
    }
    if changed {
        proof {
            assert(crate::text::any_line_has_prefix(input@));
        }
        RuleOutput::Changed(out)
    } else {
        proof {
            assert(!crate::text::any_line_has_prefix(input@));
        }
        RuleOutput::Unchanged
    }
}

} // verus!
