//! The configuration of the parser code generator: the grammar's name, the entry rule, the
//! tracing switches, bootstrap mode and the annotations it generates with.
use vstd::prelude::*;
use crate::annotations::Annotations;

verus! {

/// A parser code generator's configuration.
pub struct HighPerformanceRustGenerator {
    pub grammar_name: String,
    /// The entry rule; without one, the first rule of the order is the entry.
    pub entry_rule: Option<String>,
    pub enable_trace: bool,
    pub enable_backtrack_debug: bool,
    /// Limited return-annotation support, for bootstrapping the grammar of grammars.
    pub bootstrap_mode: bool,
    pub annotations: Option<Annotations>,
}

impl HighPerformanceRustGenerator {
    /// A generator for `grammar_name`: no entry rule set, tracing off, not bootstrapping, no
    /// annotations.
    pub fn new(grammar_name: &str) -> (r: Self)
        ensures
            r.grammar_name@ == grammar_name@,
            r.entry_rule is None,
            !r.enable_trace,
            !r.enable_backtrack_debug,
            !r.bootstrap_mode,
            r.annotations is None,
    {
        HighPerformanceRustGenerator {
            grammar_name: grammar_name.to_string(),
            entry_rule: None,
            enable_trace: false,
            enable_backtrack_debug: false,
            bootstrap_mode: false,
            annotations: None,
        }
    }

    /// A generator with tracing as given.
    pub fn with_trace(grammar_name: &str, enable_trace: bool) -> (r: Self)
        ensures
            r.grammar_name@ == grammar_name@,
            r.entry_rule is None,
            r.enable_trace == enable_trace,
            !r.enable_backtrack_debug,
            !r.bootstrap_mode,
            r.annotations is None,
    {
        let mut g = Self::new(grammar_name);
        g.enable_trace = enable_trace;
        g
    }

    /// A generator with tracing and backtrack debugging on.
    pub fn with_full_debug(grammar_name: &str) -> (r: Self)
        ensures
            r.grammar_name@ == grammar_name@,
            r.entry_rule is None,
            r.enable_trace,
            r.enable_backtrack_debug,
            !r.bootstrap_mode,
            r.annotations is None,
    {
        let mut g = Self::new(grammar_name);
        g.enable_trace = true;
        g.enable_backtrack_debug = true;
        g
    }

    /// Set the entry rule.
    pub fn set_entry_rule(&mut self, entry_rule: &str)
        ensures
            final(self).entry_rule matches Some(e) && e@ == entry_rule@,
            final(self).grammar_name == old(self).grammar_name,
            final(self).enable_trace == old(self).enable_trace,
            final(self).enable_backtrack_debug == old(self).enable_backtrack_debug,
            final(self).bootstrap_mode == old(self).bootstrap_mode,
            final(self).annotations == old(self).annotations,
    {
        self.entry_rule = Some(entry_rule.to_string());
    }

    /// Set the annotations to generate with.
    pub fn set_annotations(&mut self, annotations: Annotations)
        ensures
            final(self).annotations == Some(annotations),
            final(self).grammar_name == old(self).grammar_name,
            final(self).entry_rule == old(self).entry_rule,
            final(self).enable_trace == old(self).enable_trace,
            final(self).enable_backtrack_debug == old(self).enable_backtrack_debug,
            final(self).bootstrap_mode == old(self).bootstrap_mode,
    {
        self.annotations = Some(annotations);
    }

    /// Set bootstrap mode.
    pub fn set_bootstrap_mode(&mut self, bootstrap: bool)
        ensures
            final(self).bootstrap_mode == bootstrap,
            final(self).grammar_name == old(self).grammar_name,
            final(self).entry_rule == old(self).entry_rule,
            final(self).enable_trace == old(self).enable_trace,
            final(self).enable_backtrack_debug == old(self).enable_backtrack_debug,
            final(self).annotations == old(self).annotations,
    {
        self.bootstrap_mode = bootstrap;
    }

    /// Debug mode turns tracing on; turning it off leaves tracing as it was.
    pub fn set_debug_mode(&mut self, enable_debug: bool)
        ensures
            final(self).enable_trace == (old(self).enable_trace || enable_debug),
            final(self).grammar_name == old(self).grammar_name,
            final(self).entry_rule == old(self).entry_rule,
            final(self).enable_backtrack_debug == old(self).enable_backtrack_debug,
            final(self).bootstrap_mode == old(self).bootstrap_mode,
            final(self).annotations == old(self).annotations,
    {
        if enable_debug {
            self.enable_trace = true;
        }
    }
}

} // verus!
