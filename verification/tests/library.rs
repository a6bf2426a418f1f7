use catastrophic_ls::ast::{Block, InstrValue, Instruction, Symbol, SymbolValue};
use catastrophic_ls::diagnostics::{Diagnostic, DiagnosticCollector, Event, ParseOutcome};
use catastrophic_ls::instance::Instance;
use catastrophic_ls::registry::Registry;
use catastrophic_ls::span::{Position, Span};
use catastrophic_ls::tokens::collector::{SemanticToken, TokenCollector};
use catastrophic_ls::tokens::definitions::{
    comment, number, operator, parameter, token_types, variable,
};

fn pos(line: u32, col: u32) -> Position {
    Position { line, col }
}

fn sp(l1: u32, c1: u32, l2: u32, c2: u32) -> Span<()> {
    Span { start: pos(l1, c1), end: pos(l2, c2), data: () }
}

fn empty_block() -> Block {
    Block { comments: vec![], args: vec![], symbols: vec![], instrs: vec![] }
}

fn tok(delta_line: u32, delta_start: u32, length: u32, token_type: u32) -> SemanticToken {
    SemanticToken { delta_line, delta_start, length, token_type, token_modifiers_bitset: 0 }
}

/// A block with one comment, one parameter, one symbol bound to a number,
/// and one command instruction, in that textual order.
fn sample_block() -> Block {
    Block {
        comments: vec![sp(0, 0, 0, 5)],
        args: vec![sp(1, 2, 1, 5)],
        symbols: vec![Symbol {
            name_span: sp(2, 0, 2, 3),
            value: Span { start: pos(2, 4), end: pos(2, 6), data: SymbolValue::Number },
        }],
        instrs: vec![Span { start: pos(3, 1), end: pos(3, 2), data: Instruction::Command }],
    }
}

#[test]
fn legend_names_and_order() {
    let legend = token_types();
    assert_eq!(legend, vec!["variable", "parameter", "number", "operator", "comment"]);
    assert_eq!(variable(), 0);
    assert_eq!(parameter(), 1);
    assert_eq!(number(), 2);
    assert_eq!(operator(), 3);
    assert_eq!(comment(), 4);
}

#[test]
fn end_to_end_token_kinds() {
    let tokens = TokenCollector::collect_tokens(&sample_block());
    assert_eq!(
        tokens,
        vec![
            tok(0, 0, 5, 4), // comment, measured from (0, 0)
            tok(1, 2, 3, 1), // parameter
            tok(1, 0, 3, 0), // symbol name as variable
            tok(0, 4, 2, 2), // its numeric value
            tok(1, 1, 1, 3), // operator
        ]
    );
}

#[test]
fn empty_block_yields_no_tokens() {
    let tokens = TokenCollector::collect_tokens(&empty_block());
    assert_eq!(tokens, vec![]);
}

#[test]
fn sort_is_stable_on_equal_starts() {
    // A symbol name and its numeric value starting at the same column: the
    // name was emitted first and must stay first after the sort.
    let block = Block {
        comments: vec![],
        args: vec![],
        symbols: vec![Symbol {
            name_span: sp(0, 0, 0, 3),
            value: Span { start: pos(0, 0), end: pos(0, 5), data: SymbolValue::Number },
        }],
        instrs: vec![],
    };
    let tokens = TokenCollector::collect_tokens(&block);
    assert_eq!(tokens, vec![tok(0, 0, 3, 0), tok(0, 0, 5, 2)]);
}

#[test]
fn delta_encoding_round_trips() {
    // Replaying the cursor over the encoded stream recovers the absolute
    // spans of the sample block, in sorted order.
    let tokens = TokenCollector::collect_tokens(&sample_block());
    let mut line = 0u32;
    let mut col = 0u32;
    let mut decoded: Vec<(u32, u32, u32)> = Vec::new();
    for t in &tokens {
        line += t.delta_line;
        if t.delta_line > 0 {
            col = 0;
        }
        col += t.delta_start;
        decoded.push((line, col, t.length));
    }
    assert_eq!(
        decoded,
        vec![(0, 0, 5), (1, 2, 3), (2, 0, 3), (2, 4, 2), (3, 1, 1)]
    );
}

#[test]
fn nested_blocks_walk_depth_first() {
    let inner_symbol = Block {
        comments: vec![],
        args: vec![],
        symbols: vec![],
        instrs: vec![Span {
            start: pos(0, 4),
            end: pos(0, 5),
            data: Instruction::Push(InstrValue::Ident),
        }],
    };
    let inner_push = Block {
        comments: vec![],
        args: vec![],
        symbols: vec![],
        instrs: vec![Span { start: pos(1, 1), end: pos(1, 2), data: Instruction::Command }],
    };
    let block = Block {
        comments: vec![],
        args: vec![],
        symbols: vec![Symbol {
            name_span: sp(0, 0, 0, 1),
            value: Span {
                start: pos(0, 2),
                end: pos(0, 10),
                data: SymbolValue::Block(Box::new(inner_symbol)),
            },
        }],
        instrs: vec![Span {
            start: pos(1, 0),
            end: pos(1, 5),
            data: Instruction::Push(InstrValue::Block(Box::new(inner_push))),
        }],
    };
    // No token for a block boundary itself: only the name, the inner
    // identifier, and the inner command appear.
    let tokens = TokenCollector::collect_tokens(&block);
    assert_eq!(tokens, vec![tok(0, 0, 1, 0), tok(0, 4, 1, 0), tok(1, 1, 1, 3)]);
}

#[test]
fn push_value_kinds() {
    let block = Block {
        comments: vec![],
        args: vec![],
        symbols: vec![],
        instrs: vec![
            Span { start: pos(0, 0), end: pos(0, 1), data: Instruction::Push(InstrValue::Number) },
            Span { start: pos(0, 2), end: pos(0, 3), data: Instruction::Push(InstrValue::Builtin) },
            Span { start: pos(0, 4), end: pos(0, 5), data: Instruction::Push(InstrValue::Ident) },
            Span { start: pos(0, 6), end: pos(0, 7), data: Instruction::Command },
        ],
    };
    let tokens = TokenCollector::collect_tokens(&block);
    assert_eq!(
        tokens,
        vec![tok(0, 0, 1, 2), tok(0, 2, 1, 2), tok(0, 2, 1, 0), tok(0, 2, 1, 3)]
    );
}

#[test]
fn builtin_symbol_value_is_a_number_token() {
    let block = Block {
        comments: vec![],
        args: vec![],
        symbols: vec![Symbol {
            name_span: sp(0, 0, 0, 2),
            value: Span { start: pos(0, 3), end: pos(0, 7), data: SymbolValue::Builtin },
        }],
        instrs: vec![],
    };
    let tokens = TokenCollector::collect_tokens(&block);
    assert_eq!(tokens, vec![tok(0, 0, 2, 0), tok(0, 3, 4, 2)]);
}

#[test]
fn multi_line_token_span_is_rejected() {
    let block = Block {
        comments: vec![sp(0, 0, 1, 2)],
        args: vec![],
        symbols: vec![],
        instrs: vec![],
    };
    assert!(!TokenCollector::tokens_well_formed(&block));
    let (inst, diagnostics) = Instance::from_source(
        "file:///doc.cat".to_string(),
        ParseOutcome::Success { ast: block, events: vec![] },
    );
    assert!(inst.is_none());
    assert!(diagnostics.is_empty());
}

fn err(span: Option<Span<()>>, message: &str) -> Event {
    Event::Error { span, message: message.to_string() }
}

fn note(span: Span<()>, message: &str) -> Event {
    Event::Note { span, message: message.to_string() }
}

#[test]
fn diagnostics_one_per_error_with_attached_notes() {
    let events = vec![
        note(sp(0, 0, 0, 1), "orphan"), // before any error: dropped
        err(Some(sp(1, 0, 1, 4)), "first"),
        note(sp(1, 5, 1, 6), "n1"),
        note(sp(1, 7, 1, 8), "n2"),
        err(None, "second"),
        note(sp(2, 0, 2, 1), "n3"),
    ];
    let (_, diagnostics) = DiagnosticCollector::process_diagnostics(
        "file:///doc.cat".to_string(),
        ParseOutcome::HardFailure { events },
    );
    assert_eq!(diagnostics.len(), 2);

    assert_eq!(diagnostics[0].message, "first");
    assert_eq!(diagnostics[0].range.start, pos(1, 0));
    assert_eq!(diagnostics[0].range.end, pos(1, 4));
    assert_eq!(diagnostics[0].related_information.len(), 2);
    assert_eq!(diagnostics[0].related_information[0].message, "n1");
    assert_eq!(diagnostics[0].related_information[0].location.uri, "file:///doc.cat");
    assert_eq!(diagnostics[0].related_information[0].location.range.start, pos(1, 5));
    assert_eq!(diagnostics[0].related_information[1].message, "n2");

    // An error without a span is anchored at document start.
    assert_eq!(diagnostics[1].message, "second");
    assert_eq!(diagnostics[1].range.start, pos(0, 0));
    assert_eq!(diagnostics[1].range.end, pos(0, 0));
    assert_eq!(diagnostics[1].related_information.len(), 1);
    assert_eq!(diagnostics[1].related_information[0].message, "n3");
}

#[test]
fn notes_without_any_error_yield_no_diagnostics() {
    let events = vec![note(sp(0, 0, 0, 1), "a"), note(sp(0, 2, 0, 3), "b")];
    let (ast, diagnostics) = DiagnosticCollector::process_diagnostics(
        "file:///doc.cat".to_string(),
        ParseOutcome::HardFailure { events },
    );
    assert!(ast.is_none());
    assert!(diagnostics.is_empty());
}

#[test]
fn success_outcome_hands_back_the_tree_and_translates_events() {
    let events = vec![err(Some(sp(0, 0, 0, 2)), "soft")];
    let (ast, diagnostics) = DiagnosticCollector::process_diagnostics(
        "file:///doc.cat".to_string(),
        ParseOutcome::Success { ast: sample_block(), events },
    );
    assert!(ast.is_some());
    assert_eq!(diagnostics.len(), 1);
    assert_eq!(diagnostics[0].message, "soft");
}

#[test]
fn collector_sink_records_errors_and_notes() {
    let mut sink = DiagnosticCollector::new("file:///doc.cat".to_string());
    sink.note(sp(0, 0, 0, 1), "dropped".to_string());
    sink.error(Some(sp(0, 0, 0, 3)), "bad".to_string());
    sink.note(sp(0, 4, 0, 5), "because".to_string());
    let diagnostics: Vec<Diagnostic> = sink.finish();
    assert_eq!(diagnostics.len(), 1);
    assert_eq!(diagnostics[0].message, "bad");
    assert_eq!(diagnostics[0].related_information.len(), 1);
    assert_eq!(diagnostics[0].related_information[0].message, "because");
    assert_eq!(diagnostics[0].related_information[0].location.uri, "file:///doc.cat");
}

#[test]
fn instance_tokens_are_idempotent() {
    let (inst, _) = Instance::from_source(
        "file:///doc.cat".to_string(),
        ParseOutcome::Success { ast: sample_block(), events: vec![] },
    );
    let mut inst = inst.expect("a well-formed tree yields an instance");
    let first = inst.semantic_tokens();
    let second = inst.semantic_tokens();
    assert_eq!(first, second);
    assert_eq!(first, TokenCollector::collect_tokens(&sample_block()));
}

#[test]
fn hard_failure_yields_no_instance() {
    let (inst, diagnostics) = Instance::from_source(
        "file:///doc.cat".to_string(),
        ParseOutcome::HardFailure { events: vec![err(None, "broken")] },
    );
    assert!(inst.is_none());
    assert_eq!(diagnostics.len(), 1);
}

#[test]
fn unknown_document_serves_no_tokens() {
    let mut registry = Registry::new();
    let id = "file:///doc.cat".to_string();
    assert!(registry.request_semantic_tokens(&id).is_none());
    assert!(registry.lookup(&id).is_none());
}

#[test]
fn closed_document_serves_no_tokens() {
    let mut registry = Registry::new();
    let id = "file:///doc.cat".to_string();
    let diagnostics = registry.upsert(
        id.clone(),
        ParseOutcome::Success { ast: sample_block(), events: vec![] },
    );
    assert!(diagnostics.is_empty());
    assert!(registry.request_semantic_tokens(&id).is_some());

    registry.remove(&id);
    assert!(registry.request_semantic_tokens(&id).is_none());
    assert!(registry.lookup(&id).is_none());
}

#[test]
fn registry_keys_do_not_interfere() {
    let mut registry = Registry::new();
    let a = "file:///a.cat".to_string();
    let b = "file:///b.cat".to_string();
    registry.upsert(a.clone(), ParseOutcome::Success { ast: sample_block(), events: vec![] });
    registry.upsert(b.clone(), ParseOutcome::HardFailure { events: vec![err(None, "bad")] });
    assert!(registry.request_semantic_tokens(&a).is_some());
    assert!(registry.request_semantic_tokens(&b).is_none());
    registry.remove(&a);
    assert!(registry.request_semantic_tokens(&a).is_none());
    assert!(registry.request_semantic_tokens(&b).is_none());
    assert!(registry.lookup(&b).is_none());
}

#[test]
fn reopening_after_hard_failure_serves_fresh_tokens() {
    let mut registry = Registry::new();
    let id = "file:///doc.cat".to_string();

    registry.upsert(id.clone(), ParseOutcome::Success { ast: sample_block(), events: vec![] });
    let old_tokens = registry.request_semantic_tokens(&id).expect("tokens after open");

    // The edit breaks the document: diagnostics come back, tokens do not.
    let diagnostics = registry.upsert(
        id.clone(),
        ParseOutcome::HardFailure { events: vec![err(None, "unparsable")] },
    );
    assert_eq!(diagnostics.len(), 1);
    assert!(registry.request_semantic_tokens(&id).is_none());

    // Correcting the text installs a fresh unit whose tokens reflect only
    // the new content.
    let fixed = Block {
        comments: vec![sp(0, 0, 0, 2)],
        args: vec![],
        symbols: vec![],
        instrs: vec![],
    };
    let diagnostics = registry.upsert(
        id.clone(),
        ParseOutcome::Success { ast: fixed, events: vec![] },
    );
    assert!(diagnostics.is_empty());
    let new_tokens = registry.request_semantic_tokens(&id).expect("tokens after fix");
    assert_eq!(new_tokens, vec![tok(0, 0, 2, 4)]);
    assert_ne!(new_tokens, old_tokens);
}

#[test]
fn superseded_edit_never_overwrites_a_newer_one() {
    let mut registry = Registry::new();
    let id = "file:///doc.cat".to_string();

    // Two edits in flight: the older one finishes last but must not win.
    let first = registry.begin_update(id.clone());
    let second = registry.begin_update(id.clone());
    assert_ne!(first, second);

    let newer = registry.finish_update(
        &id,
        second,
        ParseOutcome::Success { ast: sample_block(), events: vec![] },
    );
    assert!(newer.is_some());
    let newer_tokens = registry.request_semantic_tokens(&id).expect("newer edit installed");

    let stale = registry.finish_update(
        &id,
        first,
        ParseOutcome::HardFailure { events: vec![err(None, "stale")] },
    );
    assert!(stale.is_none(), "a superseded edit publishes nothing");
    assert_eq!(registry.request_semantic_tokens(&id), Some(newer_tokens));
}
