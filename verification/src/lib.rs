//! A small, extensible text-sanitization pipeline.
//!
//! Text crossing a clipboard boundary is run through an ordered sequence of
//! named, pure rules; the default pipeline strips a decorative prefix glyph
//! from the start of each line. Callers hold a [`RuleSet`] (typically one
//! shared process-wide behind a lock) and invoke the outbound or inbound
//! entry point, which applies every active rule in order.

mod pipeline;
mod rules;
mod text;

pub use pipeline::RuleSet;
pub use pipeline::default_rules;
pub use pipeline::lemma_default_pipeline_idempotent;
pub use pipeline::lemma_default_pipeline_identity;
pub use pipeline::lemma_pipeline_append;
pub use pipeline::pipeline_spec;
pub use pipeline::register_rule;
pub use pipeline::reset_to_defaults;
pub use pipeline::sanitize_for_copy;
pub use pipeline::sanitize_incoming;
pub use pipeline::set_rules;
pub use rules::Rule;
pub use rules::RuleFn;
pub use rules::RuleOutput;
pub use rules::SanitizeRule;
pub use rules::fn_rule;
pub use rules::is_ws_char;
pub use rules::rule_fn_spec;
pub use rules::to_upper_char;
pub use rules::trim_text;
pub use rules::upper_text;
pub use text::LIVE_PREFIX_GLYPH;
pub use text::any_line_has_prefix;
pub use text::chomp_cr;
pub use text::contains_glyph;
pub use text::first_nl;
pub use text::join_lines;
pub use text::lemma_strip_glyph_idempotent;
pub use text::line_has_prefix;
pub use text::split_lines;
pub use text::strip_glyph_text;
pub use text::strip_line;
