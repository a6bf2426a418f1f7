//! The per-document analysis unit: it owns one immutable parsed tree and
//! memoizes the token computation for it, so every request observes the same
//! single result.

use crate::ast::Block;
use crate::diagnostics::{
    outcome_events, translate_events, Diagnostic, DiagnosticCollector, ParseOutcome,
};
use crate::tokens::collector::{
    block_token_stream, block_wire_tokens, stream_wf, SemanticToken, TokenCollector,
};
use vstd::prelude::*;

verus! {

/// One document's analysis unit: the parsed tree, immutable for the life of
/// the instance, and the memoized token stream. The cache starts unfilled
/// and is written at most once; a runtime wrapper may compute it in the
/// background, but every reader receives the one computed value.
pub struct Instance {
    source: Block,
    tokens_cache: Option<Vec<SemanticToken>>,
}

impl Instance {
    /// The tree this instance analyzes.
    pub closed spec fn ast_spec(&self) -> Block {
        self.source
    }

    /// The memoized token stream, when it has been computed.
    pub closed spec fn cache_spec(&self) -> Option<Seq<SemanticToken>> {
        match self.tokens_cache {
            Some(v) => Some(v@),
            None => None,
        }
    }

    /// Internal consistency: the tree's token stream can be encoded, and a
    /// filled cache holds exactly the tree's wire tokens.
    pub open spec fn wf(&self) -> bool {
        &&& stream_wf(block_token_stream(self.ast_spec()))
        &&& match self.cache_spec() {
            Some(v) => v == block_wire_tokens(self.ast_spec()),
            None => true,
        }
    }

    /// Wraps a freshly parsed tree; the token computation has not run yet.
    pub(crate) fn new(source: Block) -> (r: Instance)
        requires
            stream_wf(block_token_stream(source)),
        ensures
            r.wf(),
            r.ast_spec() == source,
            r.cache_spec() is None,
    {
        Instance { source, tokens_cache: None }
    }

    /// Parses one document's outcome into an analysis unit and diagnostics:
    /// the diagnostics translate the outcome's events; the unit exists
    /// exactly when the outcome carried a tree whose token stream can be
    /// encoded (hard failures, and trees with multi-line token spans, yield
    /// none).
    pub fn from_source(uri: String, outcome: ParseOutcome) -> (r: (
        Option<Instance>,
        Vec<Diagnostic>,
    ))
        ensures
            r.1.deep_view() == translate_events(uri@, outcome_events(outcome)),
            (match outcome {
                ParseOutcome::Success { ast, events } => {
                    &&& stream_wf(block_token_stream(ast)) ==> (match r.0 {
                        Some(inst) => inst.wf() && inst.ast_spec() == ast && inst.cache_spec()
                            is None,
                        None => false,
                    })
                    &&& !stream_wf(block_token_stream(ast)) ==> r.0 is None
                },
                ParseOutcome::HardFailure { events } => r.0 is None,
            }),
    {
        let (parsed, diagnostics) = DiagnosticCollector::process_diagnostics(uri, outcome);
        match parsed {
            Some(block) => {
                if TokenCollector::tokens_well_formed(&block) {
                    (Some(Instance::new(block)), diagnostics)
                } else {
                    (None, diagnostics)
                }
            },
            None => (None, diagnostics),
        }
    }

    /// The document's wire tokens: computed on the first call, replayed from
    /// the cache afterwards — every call returns the same value, a pure
    /// function of the tree.
    pub fn semantic_tokens(&mut self) -> (r: Vec<SemanticToken>)
        requires
            old(self).wf(),
        ensures
            final(self).wf(),
            final(self).ast_spec() == old(self).ast_spec(),
            r@ == block_wire_tokens(old(self).ast_spec()),
            final(self).cache_spec() == Some(r@),
            (match old(self).cache_spec() {
                Some(v) => r@ == v,
                None => true,
            }),
    {
        match &self.tokens_cache {
            Some(cached) => {
                let r = cached.clone();
                proof {
                    assert(r@ =~= self.tokens_cache->Some_0@);
                }
                r
            },
            None => {
                let computed = TokenCollector::collect_tokens(&self.source);
                let r = computed.clone();
                proof {
                    assert(r@ =~= computed@);
                }
                self.tokens_cache = Some(computed);
                r
            },
        }
    }
}

} // verus!
