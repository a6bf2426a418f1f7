//! The diagnostic translator: parse error and note events, in emission
//! order, become an ordered diagnostic list. Each error event appends a
//! diagnostic; each note event attaches related information to the last
//! diagnostic appended so far, and is dropped when none exists yet.

use crate::ast::Block;
use crate::span::{Position, Span};
use vstd::prelude::*;

verus! {

/// A source range on the wire: start and end positions.
#[derive(Clone, Copy, PartialEq, Eq, Structural, Debug)]
pub struct Range {
    pub start: Position,
    pub end: Position,
}

/// A range inside a named document.
#[derive(Clone, PartialEq, Eq, Debug)]
pub struct Location {
    pub uri: String,
    pub range: Range,
}

/// A note attached to a diagnostic: a location elsewhere and a message.
#[derive(Clone, PartialEq, Eq, Debug)]
pub struct RelatedInformation {
    pub location: Location,
    pub message: String,
}

/// One published diagnostic: a range, a message, and the ordered notes
/// attached to it (empty when none were).
#[derive(Clone, PartialEq, Eq, Debug)]
pub struct Diagnostic {
    pub range: Range,
    pub message: String,
    pub related_information: Vec<RelatedInformation>,
}

/// One event of the parser's error stream: an error opens a new diagnostic,
/// a note attaches to the diagnostic opened last.
#[derive(Clone, PartialEq, Eq, Debug)]
pub enum Event {
    /// An error, possibly without a location when the parser could not
    /// localize the fault.
    Error { span: Option<Span<()>>, message: String },
    /// A note; it always has a location.
    Note { span: Span<()>, message: String },
}

/// What a parse attempt produced: an abstract syntax tree with zero or more
/// recovered (soft) error events, or no tree and the hard failure's events.
pub enum ParseOutcome {
    /// Parsing returned a tree; permissive parsing may still have recovered
    /// from errors, so events may be non-empty.
    Success { ast: Block, events: Vec<Event> },
    /// Parsing returned no tree at all.
    HardFailure { events: Vec<Event> },
}

/// Mathematical image of [`RelatedInformation`].
pub struct RelatedView {
    pub uri: Seq<char>,
    pub range: Range,
    pub message: Seq<char>,
}

/// Mathematical image of [`Diagnostic`].
pub struct DiagnosticView {
    pub range: Range,
    pub message: Seq<char>,
    pub related: Seq<RelatedView>,
}

/// Mathematical image of [`Event`].
pub enum EventView {
    Error { span: Option<Span<()>>, message: Seq<char> },
    Note { span: Span<()>, message: Seq<char> },
}

impl DeepView for RelatedInformation {
    type V = RelatedView;

    open spec fn deep_view(&self) -> RelatedView {
        RelatedView {
            uri: self.location.uri@,
            range: self.location.range,
            message: self.message@,
        }
    }
}

impl DeepView for Diagnostic {
    type V = DiagnosticView;

    open spec fn deep_view(&self) -> DiagnosticView {
        DiagnosticView {
            range: self.range,
            message: self.message@,
            related: self.related_information.deep_view(),
        }
    }
}

impl DeepView for Event {
    type V = EventView;

    open spec fn deep_view(&self) -> EventView {
        match self {
            Event::Error { span, message } => EventView::Error {
                span: *span,
                message: message@,
            },
            Event::Note { span, message } => EventView::Note { span: *span, message: message@ },
        }
    }
}

/// The range a span maps to on the wire.
pub open spec fn range_of(span: Span<()>) -> Range {
    Range { start: span.start, end: span.end }
}

/// The zero-length range anchored at document start, used for an error the
/// parser could not localize.
pub open spec fn default_range() -> Range {
    Range { start: Position { line: 0, col: 0 }, end: Position { line: 0, col: 0 } }
}

/// The range of an error event: its span when present, the default anchor
/// when not.
pub open spec fn error_range(span: Option<Span<()>>) -> Range {
    match span {
        Some(s) => range_of(s),
        None => default_range(),
    }
}

/// One translation step: an error appends a fresh diagnostic; a note
/// attaches to the last diagnostic, or is dropped when none exists.
pub open spec fn translate_step(
    diags: Seq<DiagnosticView>,
    ev: EventView,
    uri: Seq<char>,
) -> Seq<DiagnosticView> {
    match ev {
        EventView::Error { span, message } => diags.push(
            DiagnosticView { range: error_range(span), message, related: Seq::empty() },
        ),
        EventView::Note { span, message } => {
            if diags.len() == 0 {
                diags
            } else {
                let last = diags.last();
                diags.update(
                    diags.len() - 1,
                    DiagnosticView {
                        range: last.range,
                        message: last.message,
                        related: last.related.push(
                            RelatedView { uri, range: range_of(span), message },
                        ),
                    },
                )
            }
        },
    }
}

/// The diagnostics an event sequence translates to, processed in emission
/// order.
pub open spec fn translate_events(uri: Seq<char>, events: Seq<EventView>) -> Seq<DiagnosticView>
    decreases events.len(),
{
    if events.len() == 0 {
        Seq::empty()
    } else {
        translate_step(translate_events(uri, events.drop_last()), events.last(), uri)
    }
}

/// The events a parse outcome carries, whichever shape it has.
pub open spec fn outcome_events(outcome: ParseOutcome) -> Seq<EventView> {
    match outcome {
        ParseOutcome::Success { ast, events } => events.deep_view(),
        ParseOutcome::HardFailure { events } => events.deep_view(),
    }
}

/// True of an error event.
pub open spec fn is_error_event(e: EventView) -> bool {
    match e {
        EventView::Error { .. } => true,
        EventView::Note { .. } => false,
    }
}

/// The number of error events in a sequence.
pub open spec fn error_count(events: Seq<EventView>) -> int
    decreases events.len(),
{
    if events.len() == 0 {
        0
    } else {
        error_count(events.drop_last()) + if is_error_event(events.last()) {
            1int
        } else {
            0int
        }
    }
}

/// The index of error event number `k` (zero-based) in the sequence.
pub open spec fn kth_error_index(events: Seq<EventView>, k: int) -> int
    decreases events.len(),
{
    if events.len() == 0 {
        0
    } else if is_error_event(events.last()) && k == error_count(events) - 1 {
        events.len() - 1
    } else {
        kth_error_index(events.drop_last(), k)
    }
}

/// The number of events between error `k` and the next error (or the end of
/// the sequence); all of them are notes, and they are the ones attached to
/// diagnostic `k`.
pub open spec fn notes_between(events: Seq<EventView>, k: int) -> int {
    let hi = if k + 1 < error_count(events) {
        kth_error_index(events, k + 1)
    } else {
        events.len() as int
    };
    hi - kth_error_index(events, k) - 1
}

/// `kth_error_index` indeed points at an error event, inside the sequence.
pub proof fn lemma_kth_error_bounds(events: Seq<EventView>, k: int)
    requires
        0 <= k < error_count(events),
    ensures
        0 <= kth_error_index(events, k) < events.len(),
        is_error_event(events[kth_error_index(events, k)]),
    decreases events.len(),
{
    if events.len() > 0 {
        let prev = events.drop_last();
        if !(is_error_event(events.last()) && k == error_count(events) - 1) {
            lemma_kth_error_bounds(prev, k);
            assert(events[kth_error_index(prev, k)] == prev[kth_error_index(prev, k)]);
        }
    }
}

/// Counting law of the translator: an event sequence yields exactly one
/// diagnostic per error event, in order, and diagnostic `k` carries exactly
/// the notes that follow error `k` before the next error (or the end);
/// notes before the first error attach to nothing.
pub proof fn lemma_diagnostic_counts(uri: Seq<char>, events: Seq<EventView>)
    ensures
        translate_events(uri, events).len() == error_count(events),
        forall|k: int|
            0 <= k < error_count(events) ==> #[trigger] translate_events(uri, events)[k]
                .related.len() == notes_between(events, k),
    decreases events.len(),
{
    if events.len() > 0 {
        let prev = events.drop_last();
        let e = events.last();
        lemma_diagnostic_counts(uri, prev);
        let t_prev = translate_events(uri, prev);
        let t = translate_events(uri, events);
        let c = error_count(events);
        assert forall|k: int| 0 <= k < c implies #[trigger] t[k].related.len() == notes_between(
            events,
            k,
        ) by {
            if is_error_event(e) {
                if k < error_count(prev) {
                    assert(t[k] == t_prev[k]);
                    assert(t_prev[k].related.len() == notes_between(prev, k));
                    assert(kth_error_index(events, k) == kth_error_index(prev, k));
                    if k + 1 < error_count(prev) {
                        assert(kth_error_index(events, k + 1) == kth_error_index(prev, k + 1));
                    } else {
                        assert(kth_error_index(events, k + 1) == events.len() - 1);
                    }
                } else {
                    assert(k == error_count(prev));
                    assert(t[k].related.len() == 0);
                    assert(kth_error_index(events, k) == events.len() - 1);
                }
            } else {
                assert(c == error_count(prev));
                assert(kth_error_index(events, k) == kth_error_index(prev, k));
                if k == c - 1 {
                    assert(t[k].related.len() == t_prev[k].related.len() + 1);
                    assert(t_prev[k].related.len() == notes_between(prev, k));
                } else {
                    assert(t[k] == t_prev[k]);
                    assert(t_prev[k].related.len() == notes_between(prev, k));
                    assert(kth_error_index(events, k + 1) == kth_error_index(prev, k + 1));
                }
            }
        }
    }
}

/// The range of a span, on the wire.
pub fn convert_span(span: Span<()>) -> (r: Range)
    ensures
        r == range_of(span),
{
    Range { start: span.start, end: span.end }
}

/// Builds the diagnostic list for one document by receiving the parser's
/// error stream, event by event.
pub struct DiagnosticCollector {
    uri: String,
    diagnostics: Vec<Diagnostic>,
}

impl DiagnosticCollector {
    /// The document identifier the collector attaches to its notes.
    pub closed spec fn uri_spec(&self) -> Seq<char> {
        self.uri@
    }

    /// The diagnostics collected so far, in order.
    pub closed spec fn diags_spec(&self) -> Seq<DiagnosticView> {
        self.diagnostics.deep_view()
    }

    /// An empty collector for one document's error stream.
    pub fn new(uri: String) -> (r: DiagnosticCollector)
        ensures
            r.uri_spec() == uri@,
            r.diags_spec() == Seq::<DiagnosticView>::empty(),
    {
        let r = DiagnosticCollector { uri, diagnostics: Vec::new() };
        proof {
            assert(r.diagnostics.deep_view() =~= Seq::<DiagnosticView>::empty());
        }
        r
    }

    /// Receives one error event: appends a fresh diagnostic, anchored at
    /// document start when the event has no span.
    pub fn error(&mut self, span: Option<Span<()>>, message: String)
        ensures
            final(self).uri_spec() == old(self).uri_spec(),
            final(self).diags_spec() == translate_step(
                old(self).diags_spec(),
                EventView::Error { span, message: message@ },
                old(self).uri_spec(),
            ),
    {
        let range = match span {
            Some(s) => convert_span(s),
            None => Range {
                start: Position { line: 0, col: 0 },
                end: Position { line: 0, col: 0 },
            },
        };
        let diag = Diagnostic { range, message, related_information: Vec::new() };
        proof {
            assert(diag.related_information.deep_view() =~= Seq::<RelatedView>::empty());
        }
        self.diagnostics.push(diag);
        proof {
            assert(self.diagnostics.deep_view() =~= translate_step(
                old(self).diagnostics.deep_view(),
                EventView::Error { span, message: message@ },
                old(self).uri@,
            ));
        }
    }

    /// Receives one note event: attaches related information to the last
    /// diagnostic appended so far, or drops the note when there is none.
    pub fn note(&mut self, span: Span<()>, message: String)
        ensures
            final(self).uri_spec() == old(self).uri_spec(),
            final(self).diags_spec() == translate_step(
                old(self).diags_spec(),
                EventView::Note { span, message: message@ },
                old(self).uri_spec(),
            ),
    {
        if let Some(mut diag) = self.diagnostics.pop() {
            let ghost popped = diag;
            let related = RelatedInformation {
                location: Location { uri: self.uri.clone(), range: convert_span(span) },
                message,
            };
            let ghost rel = related;
            diag.related_information.push(related);
            let ghost updated = diag;
            self.diagnostics.push(diag);
            proof {
                let old_vec = old(self).diagnostics@;
                let old_deep = old(self).diagnostics.deep_view();
                let n = old_vec.len() as int;
                assert(popped == old_vec[n - 1]);
                assert(old_deep[n - 1] == old_vec[n - 1].deep_view());
                assert(rel.deep_view() == (RelatedView {
                    uri: old(self).uri@,
                    range: range_of(span),
                    message: message@,
                }));
                assert(updated.deep_view().related =~= old_deep[n - 1].related.push(
                    rel.deep_view(),
                ));
                assert(self.diagnostics@ == old_vec.drop_last().push(updated));
                assert(self.diagnostics.deep_view() =~~= old_deep.update(
                    n - 1,
                    updated.deep_view(),
                ));
                assert(old_deep.update(n - 1, updated.deep_view()) =~~= translate_step(
                    old_deep,
                    EventView::Note { span, message: message@ },
                    old(self).uri@,
                ));
            }
        } else {
            proof {
                assert(self.diagnostics.deep_view() =~= translate_step(
                    old(self).diagnostics.deep_view(),
                    EventView::Note { span, message: message@ },
                    old(self).uri@,
                ));
            }
        }
    }

    /// Hands back the diagnostics collected so far, in order.
    pub fn finish(self) -> (r: Vec<Diagnostic>)
        ensures
            r.deep_view() == self.diags_spec(),
    {
        self.diagnostics
    }

    /// Translates a parse outcome for one document: hands back the tree when
    /// one was produced (hard failures produce none), and the diagnostics
    /// that the outcome's events translate to.
    pub fn process_diagnostics(uri: String, result: ParseOutcome) -> (r: (
        Option<Block>,
        Vec<Diagnostic>,
    ))
        ensures
            r.1.deep_view() == translate_events(uri@, outcome_events(result)),
            (match result {
                ParseOutcome::Success { ast, events } => r.0 == Some(ast),
                ParseOutcome::HardFailure { events } => r.0 is None,
            }),
    {
        let mut collector = DiagnosticCollector::new(uri);
        match result {
            ParseOutcome::Success { ast, events } => {
                collector.run_events(&events);
                (Some(ast), collector.diagnostics)
            },
            ParseOutcome::HardFailure { events } => {
                collector.run_events(&events);
                (None, collector.diagnostics)
            },
        }
    }

    /// Receives a whole event sequence, in emission order, starting from an
    /// empty diagnostic list.
    fn run_events(&mut self, events: &Vec<Event>)
        requires
            old(self).diagnostics.deep_view() == Seq::<DiagnosticView>::empty(),
        ensures
            final(self).uri@ == old(self).uri@,
            final(self).diagnostics.deep_view() == translate_events(
                old(self).uri@,
                events.deep_view(),
            ),
    {
        let n = events.len();
        proof {
            assert(events.deep_view().subrange(0, 0) =~= Seq::<EventView>::empty());
        }
        for i in 0..n
            invariant
                n == events.len(),
                self.uri@ == old(self).uri@,
                self.diagnostics.deep_view() == translate_events(
                    old(self).uri@,
                    events.deep_view().subrange(0, i as int),
                ),
        {
            match &events[i] {
                Event::Error { span, message } => {
                    self.error(*span, message.clone());
                },
                Event::Note { span, message } => {
                    self.note(*span, message.clone());
                },
            }
            proof {
                let evs = events.deep_view();
                assert(evs.subrange(0, i + 1).drop_last() =~= evs.subrange(0, i as int));
                assert(evs.subrange(0, i + 1).last() == events@[i as int].deep_view());
            }
        }
        proof {
            assert(events.deep_view().subrange(0, events.deep_view().len() as int)
                =~= events.deep_view());
        }
    }
}

} // verus!
