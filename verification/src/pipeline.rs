//! The pipeline registry: an ordered rule sequence and its entry points.
//!
//! A [`RuleSet`] holds the active ordered rules. Applying it runs every rule
//! in order, the output of one feeding the next; the engine keeps handing the
//! original text along until some rule actually changes it, and only then
//! materializes an owned copy. Mutation always replaces the whole sequence,
//! so a caller holding the set sees either the old pipeline or the new one,
//! never a mixture.

use vstd::prelude::*;
use vstd::string::StringExecFns;

use crate::rules::Rule;
use crate::rules::RuleFn;
use crate::rules::RuleOutput;
use crate::rules::SanitizeRule;
use crate::rules::fn_rule;
use crate::text::contains_glyph;
use crate::text::lemma_strip_glyph_idempotent;
use crate::text::line_has_prefix;
use crate::text::split_lines;
use crate::text::strip_line;

verus! {

/// What an ordered rule sequence does to a text: every rule applied in
/// order, each consuming the previous one's output.
pub open spec fn pipeline_spec(rules: Seq<Rule>, s: Seq<char>) -> Seq<char>
    decreases rules.len(),
{
    if rules.len() == 0 {
        s
    } else {
        rules.last().spec_apply(pipeline_spec(rules.drop_last(), s))
    }
}

/// Container for the active ordered rules.
#[derive(Clone)]
pub struct RuleSet {
    pub rules: Vec<Rule>,
}

impl RuleSet {
    /// A rule set holding the built-in default pipeline.
    pub fn new() -> (s: Self)
        ensures
            s.rules@.len() == 1,
            s.rules@[0].f == RuleFn::StripPrefixGlyph,
            s.rules@[0].name@ == "strip_user_prefix_glyph"@,
    {
        RuleSet { rules: default_rules() }
    }

    /// Apply all rules in order to the input and return the final text.
    pub fn apply(&self, input: &str) -> (out: String)
        ensures
            out@ == pipeline_spec(self.rules@, input@),
    {
        let mut cur = String::new();
        let mut changed = false;
        let mut k: usize = 0;
        while k < self.rules.len()
            invariant
                0 <= k <= self.rules@.len(),
                changed ==> cur@ == pipeline_spec(self.rules@.take(k as int), input@),
                !changed ==> pipeline_spec(self.rules@.take(k as int), input@) == input@,
            decreases self.rules@.len() - k,
        {
            // Each rule can report "unchanged"; the engine then keeps handing
            // the original text along instead of copying it.
            let step = if changed {
                self.rules[k].apply(cur.as_str())
            } else {
                self.rules[k].apply(input)
            };
            proof {
                assert(self.rules@.take(k as int + 1).drop_last() =~= self.rules@.take(k as int));
                assert(self.rules@.take(k as int + 1).last() == self.rules@[k as int]);
            }
            match step {
                RuleOutput::Changed(t) => {
                    cur = t;
                    changed = true;
                },
                RuleOutput::Unchanged => {},
            }
            k = k + 1;
        }
        proof {
            assert(self.rules@.take(self.rules@.len() as int) =~= self.rules@);
        }
        if changed {
            cur
        } else {
            input.to_owned()
        }
    }
}

/// The built-in default pipeline: the single rule that strips the decorative
/// prefix glyph from the start of each line.
pub fn default_rules() -> (r: Vec<Rule>)
    ensures
        r@.len() == 1,
        r@[0].f == RuleFn::StripPrefixGlyph,
        r@[0].name@ == "strip_user_prefix_glyph"@,
{
    let mut r: Vec<Rule> = Vec::new();
    r.push(fn_rule("strip_user_prefix_glyph", RuleFn::StripPrefixGlyph));
    r
}

/// Replace the entire rule pipeline (primarily for tests or advanced
/// configuration). Nothing of any previously installed pipeline remains.
pub fn set_rules(reg: &mut RuleSet, new_rules: Vec<Rule>)
    ensures
        final(reg).rules@ == new_rules@,
{
    reg.rules = new_rules;
}

/// Append a new rule at the end of the current pipeline.
pub fn register_rule(reg: &mut RuleSet, rule: Rule)
    ensures
        final(reg).rules@ == old(reg).rules@.push(rule),
{
    reg.rules.push(rule);
}

/// Reset the pipeline to the built-in defaults.
pub fn reset_to_defaults(reg: &mut RuleSet)
    ensures
        final(reg).rules@.len() == 1,
        final(reg).rules@[0].f == RuleFn::StripPrefixGlyph,
        final(reg).rules@[0].name@ == "strip_user_prefix_glyph"@,
{
    set_rules(reg, default_rules());
}

/// Apply all active rules to raw text about to leave the system, e.g. onto
/// a clipboard.
pub fn sanitize_for_copy(reg: &RuleSet, raw: &str) -> (out: String)
    ensures
        out@ == pipeline_spec(reg.rules@, raw@),
{
    reg.apply(raw)
}

/// Sanitize incoming pasted text. Currently the identical pipeline as
/// [`sanitize_for_copy`], kept as a separate entry point so the two
/// directions can diverge later without changing call sites.
pub fn sanitize_incoming(reg: &RuleSet, raw: &str) -> (out: String)
    ensures
        out@ == pipeline_spec(reg.rules@, raw@),
{
    reg.apply(raw)
}

/// Ordering is respected: running a pipeline extended at the end is running
/// the original pipeline first and feeding its output to the appended rules.
/// In particular a rule appended by `register_rule` observes the output of
/// every rule already installed.
pub proof fn lemma_pipeline_append(r1: Seq<Rule>, r2: Seq<Rule>, s: Seq<char>)
    ensures
        pipeline_spec(r1 + r2, s) == pipeline_spec(r2, pipeline_spec(r1, s)),
    decreases r2.len(),
{
    if r2.len() == 0 {
        assert(r1 + r2 =~= r1);
    } else {
        assert((r1 + r2).drop_last() =~= r1 + r2.drop_last());
        assert((r1 + r2).last() == r2.last());
        lemma_pipeline_append(r1, r2.drop_last(), s);
    }
}

/// Identity on unaffected text: under the default pipeline, text in which
/// the decorative glyph never occurs passes through unchanged.
pub proof fn lemma_default_pipeline_identity(rules: Seq<Rule>, s: Seq<char>)
    requires
        rules.len() == 1,
        rules[0].f == RuleFn::StripPrefixGlyph,
        !contains_glyph(s),
    ensures
        pipeline_spec(rules, s) == s,
{
    assert(rules.last() == rules[0]);
    assert(pipeline_spec(rules.drop_last(), s) == s);
}

/// Idempotence of the default pipeline: sanitizing twice gives the same text
/// as sanitizing once, provided no line still begins with the glyph after
/// one pass — which excludes exactly the lines opening with a doubled glyph,
/// such as a line starting `"▌▌"`.
pub proof fn lemma_default_pipeline_idempotent(rules: Seq<Rule>, s: Seq<char>)
    requires
        rules.len() == 1,
        rules[0].f == RuleFn::StripPrefixGlyph,
        forall|i: int|
            0 <= i < split_lines(s).len() ==> !line_has_prefix(
                strip_line(#[trigger] split_lines(s)[i]),
            ),
    ensures
        pipeline_spec(rules, pipeline_spec(rules, s)) == pipeline_spec(rules, s),
{
    assert(rules.last() == rules[0]);
    assert(pipeline_spec(rules.drop_last(), s) == s);
    let t = pipeline_spec(rules, s);
    assert(pipeline_spec(rules.drop_last(), t) == t);
    lemma_strip_glyph_idempotent(s);
}

} // verus!
