//! The session registry: one slot per open document, from identifier to the
//! current analysis unit or none. Edits replace a slot's unit wholesale under
//! a per-slot generation counter, so a result computed for a superseded edit
//! can never overwrite the state of a later one; closing a document drops its
//! slot entirely.

use crate::ast::Block;
use crate::diagnostics::{outcome_events, translate_events, Diagnostic, ParseOutcome};
use crate::instance::Instance;
use crate::tokens::collector::{block_token_stream, block_wire_tokens, stream_wf, SemanticToken};
use vstd::prelude::*;

verus! {

/// One document's slot: its identifier, the generation of the last edit
/// accepted for it, and the current analysis unit — none while the document
/// is mid-transition (reparsing, or its last parse yielded no tree).
struct Slot {
    id: String,
    generation: u64,
    instance: Option<Instance>,
}

/// No two slots share a document identifier.
spec fn ids_unique(slots: Seq<Slot>) -> bool {
    forall|i: int, j: int|
        0 <= i < j < slots.len() ==> (#[trigger] slots[i]).id@ != (#[trigger] slots[j]).id@
}

/// Whether some slot holds the identifier.
spec fn contains_id(slots: Seq<Slot>, id: Seq<char>) -> bool {
    exists|i: int| 0 <= i < slots.len() && (#[trigger] slots[i]).id@ == id
}

/// The index of the identifier's slot (meaningful only when one exists).
spec fn index_of(slots: Seq<Slot>, id: Seq<char>) -> int {
    choose|i: int| 0 <= i < slots.len() && (#[trigger] slots[i]).id@ == id
}

proof fn lemma_index_of(slots: Seq<Slot>, id: Seq<char>)
    requires
        contains_id(slots, id),
    ensures
        0 <= index_of(slots, id) < slots.len(),
        slots[index_of(slots, id)].id@ == id,
{
}

proof fn lemma_index_unique(slots: Seq<Slot>, id: Seq<char>, i: int)
    requires
        ids_unique(slots),
        0 <= i < slots.len(),
        slots[i].id@ == id,
    ensures
        contains_id(slots, id),
        index_of(slots, id) == i,
{
    assert(contains_id(slots, id));
    let j = index_of(slots, id);
    assert(slots[j].id@ == id);
    if i < j {
        assert(slots[i].id@ != slots[j].id@);
    } else if j < i {
        assert(slots[j].id@ != slots[i].id@);
    }
}

/// The generation of the identifier's slot; zero before the document was
/// ever opened.
spec fn gen_of(slots: Seq<Slot>, id: Seq<char>) -> u64 {
    if contains_id(slots, id) {
        slots[index_of(slots, id)].generation
    } else {
        0
    }
}

/// The analysis unit of the identifier's slot; none when absent or
/// mid-transition.
spec fn inst_of(slots: Seq<Slot>, id: Seq<char>) -> Option<Instance> {
    if contains_id(slots, id) {
        slots[index_of(slots, id)].instance
    } else {
        None
    }
}

proof fn lemma_same_ids_frame(a: Seq<Slot>, b: Seq<Slot>, id: Seq<char>)
    requires
        ids_unique(a),
        a.len() == b.len(),
        forall|k: int| 0 <= k < a.len() ==> (#[trigger] a[k]).id@ == (#[trigger] b[k]).id@,
        forall|k: int| 0 <= k < a.len() && (#[trigger] a[k]).id@ != id ==> a[k] == b[k],
    ensures
        ids_unique(b),
        forall|other: Seq<char>|
            other != id ==> contains_id(a, other) == #[trigger] contains_id(b, other),
        forall|other: Seq<char>| other != id ==> gen_of(a, other) == #[trigger] gen_of(b, other),
        forall|other: Seq<char>| other != id ==> inst_of(a, other) == #[trigger] inst_of(b, other),
{
    assert forall|i: int, j: int| 0 <= i < j < b.len() implies (#[trigger] b[i]).id@
        != (#[trigger] b[j]).id@ by {
        assert(a[i].id@ != a[j].id@);
        assert(a[i].id@ == b[i].id@ && a[j].id@ == b[j].id@);
    }
    assert forall|other: Seq<char>| other != id implies contains_id(a, other) == contains_id(
        b,
        other,
    ) && gen_of(a, other) == gen_of(b, other) && inst_of(a, other) == inst_of(b, other) by {
        if contains_id(a, other) {
            let k = index_of(a, other);
            lemma_index_of(a, other);
            assert(b[k].id@ == other);
            lemma_index_unique(b, other, k);
            assert(a[k] == b[k]);
        } else if contains_id(b, other) {
            let k = index_of(b, other);
            lemma_index_of(b, other);
            assert(a[k].id@ == other);
        }
    }
}

proof fn lemma_push_frame(a: Seq<Slot>, s: Slot)
    requires
        ids_unique(a),
        !contains_id(a, s.id@),
    ensures
        ids_unique(a.push(s)),
        contains_id(a.push(s), s.id@),
        index_of(a.push(s), s.id@) == a.len(),
        forall|other: Seq<char>|
            other != s.id@ ==> contains_id(a, other) == #[trigger] contains_id(a.push(s), other),
        forall|other: Seq<char>|
            other != s.id@ ==> gen_of(a, other) == #[trigger] gen_of(a.push(s), other),
        forall|other: Seq<char>|
            other != s.id@ ==> inst_of(a, other) == #[trigger] inst_of(a.push(s), other),
{
    let b = a.push(s);
    assert(b[a.len() as int] == s);
    assert forall|i: int, j: int| 0 <= i < j < b.len() implies (#[trigger] b[i]).id@
        != (#[trigger] b[j]).id@ by {
        if j < a.len() {
            assert(a[i].id@ != a[j].id@);
        } else {
            assert(b[i] == a[i]);
            if a[i].id@ == s.id@ {
                assert(contains_id(a, s.id@));
            }
        }
    }
    lemma_index_unique(b, s.id@, a.len() as int);
    assert forall|other: Seq<char>| other != s.id@ implies contains_id(a, other) == contains_id(
        b,
        other,
    ) && gen_of(a, other) == gen_of(b, other) && inst_of(a, other) == inst_of(b, other) by {
        if contains_id(a, other) {
            let k = index_of(a, other);
            lemma_index_of(a, other);
            assert(b[k].id@ == other);
            lemma_index_unique(b, other, k);
        } else if contains_id(b, other) {
            let k = index_of(b, other);
            lemma_index_of(b, other);
            assert(b[k] == a[k]);
            assert(a[k].id@ == other);
        }
    }
}

proof fn lemma_remove_frame(a: Seq<Slot>, i: int)
    requires
        ids_unique(a),
        0 <= i < a.len(),
    ensures
        ids_unique(a.remove(i)),
        !contains_id(a.remove(i), a[i].id@),
        forall|other: Seq<char>|
            other != a[i].id@ ==> contains_id(a, other) == #[trigger] contains_id(
                a.remove(i),
                other,
            ),
        forall|other: Seq<char>|
            other != a[i].id@ ==> gen_of(a, other) == #[trigger] gen_of(a.remove(i), other),
        forall|other: Seq<char>|
            other != a[i].id@ ==> inst_of(a, other) == #[trigger] inst_of(a.remove(i), other),
{
    let b = a.remove(i);
    assert(forall|k: int| 0 <= k < i ==> #[trigger] b[k] == a[k]);
    assert(forall|k: int| i <= k < b.len() ==> #[trigger] b[k] == a[k + 1]);
    assert forall|p: int, q: int| 0 <= p < q < b.len() implies (#[trigger] b[p]).id@
        != (#[trigger] b[q]).id@ by {
        let p0 = if p < i {
            p
        } else {
            p + 1
        };
        let q0 = if q < i {
            q
        } else {
            q + 1
        };
        assert(b[p] == a[p0] && b[q] == a[q0]);
        assert(a[p0].id@ != a[q0].id@);
    }
    assert forall|k: int| 0 <= k < b.len() implies (#[trigger] b[k]).id@ != a[i].id@ by {
        let k0 = if k < i {
            k
        } else {
            k + 1
        };
        assert(b[k] == a[k0]);
        if k0 < i {
            assert(a[k0].id@ != a[i].id@);
        } else {
            assert(a[i].id@ != a[k0].id@);
        }
    }
    assert forall|other: Seq<char>| other != a[i].id@ implies contains_id(a, other) == contains_id(
        b,
        other,
    ) && gen_of(a, other) == gen_of(b, other) && inst_of(a, other) == inst_of(b, other) by {
        if contains_id(a, other) {
            let k = index_of(a, other);
            lemma_index_of(a, other);
            assert(k != i);
            let kb = if k < i {
                k
            } else {
                k - 1
            };
            assert(b[kb] == a[k]);
            lemma_index_unique(b, other, kb);
        } else if contains_id(b, other) {
            let k = index_of(b, other);
            lemma_index_of(b, other);
            let k0 = if k < i {
                k
            } else {
                k + 1
            };
            assert(b[k] == a[k0]);
            assert(a[k0].id@ == other);
        }
    }
}

/// The registry of open documents, one slot per identifier.
pub struct Registry {
    slots: Vec<Slot>,
}

impl Registry {
    /// Internal consistency: one slot per identifier, and every held
    /// analysis unit is itself consistent.
    pub closed spec fn wf(&self) -> bool {
        &&& ids_unique(self.slots@)
        &&& forall|i: int|
            0 <= i < self.slots@.len() ==> (match (#[trigger] self.slots@[i]).instance {
                Some(inst) => inst.wf(),
                None => true,
            })
    }

    /// Whether the registry has a slot for the document.
    pub closed spec fn contains_doc(&self, id: Seq<char>) -> bool {
        contains_id(self.slots@, id)
    }

    /// The generation of the document's last accepted edit; zero before the
    /// document was ever opened.
    pub closed spec fn doc_generation(&self, id: Seq<char>) -> u64 {
        gen_of(self.slots@, id)
    }

    /// The document's current analysis unit; none when the document is
    /// unknown, mid-transition, or failed to parse.
    pub closed spec fn doc_instance(&self, id: Seq<char>) -> Option<Instance> {
        inst_of(self.slots@, id)
    }

    /// The document's current tree, when an analysis unit holds one.
    pub open spec fn doc_ast(&self, id: Seq<char>) -> Option<Block> {
        match self.doc_instance(id) {
            Some(inst) => Some(inst.ast_spec()),
            None => None,
        }
    }

    /// An empty registry: no document is known, and every generation
    /// counter starts at zero.
    pub fn new() -> (r: Registry)
        ensures
            r.wf(),
            forall|id: Seq<char>| !r.contains_doc(id),
            forall|id: Seq<char>| r.doc_generation(id) == 0,
    {
        Registry { slots: Vec::new() }
    }

    /// The index of the document's slot, when one exists.
    fn find_slot(&self, id: &String) -> (r: Option<usize>)
        requires
            self.wf(),
        ensures
            (match r {
                Some(i) => i < self.slots@.len() && self.slots@[i as int].id@ == id@
                    && self.contains_doc(id@) && index_of(self.slots@, id@) == i as int,
                None => !self.contains_doc(id@),
            }),
    {
        let n = self.slots.len();
        for i in 0..n
            invariant
                n == self.slots@.len(),
                self.wf(),
                forall|k: int| 0 <= k < i ==> (#[trigger] self.slots@[k]).id@ != id@,
        {
            if self.slots[i].id == *id {
                proof {
                    lemma_index_unique(self.slots@, id@, i as int);
                }
                return Some(i);
            }
        }
        proof {
            assert forall|k: int| 0 <= k < self.slots@.len() implies (#[trigger] self.slots@[k]).id@
                != id@ by {}
        }
        None
    }
}

impl Registry {
    /// Starts an edit of the document: the slot (created on first open) is
    /// cleared — the previous analysis unit is discarded, not mutated — and
    /// the slot's generation is advanced. The caller reparses off-thread and
    /// hands the outcome to `finish_update` under the returned generation.
    pub fn begin_update(&mut self, id: String) -> (generation: u64)
        requires
            old(self).wf(),
            old(self).doc_generation(id@) < u64::MAX,
        ensures
            final(self).wf(),
            final(self).contains_doc(id@),
            final(self).doc_instance(id@) is None,
            generation == old(self).doc_generation(id@) + 1,
            final(self).doc_generation(id@) == generation,
            forall|other: Seq<char>|
                other != id@ ==> #[trigger] doc_unchanged(*old(self), *final(self), other),
    {
        let ghost pre = self.slots@;
        match self.find_slot(&id) {
            Some(i) => {
                let mut slot = self.slots.remove(i);
                let generation = slot.generation + 1;
                slot.generation = generation;
                slot.instance = None;
                let ghost updated = slot;
                self.slots.insert(i, slot);
                proof {
                    assert(self.slots@ =~= pre.update(i as int, updated));
                    lemma_same_ids_frame(pre, self.slots@, id@);
                    lemma_index_unique(self.slots@, id@, i as int);
                    assert forall|k: int|
                        0 <= k < self.slots@.len() implies (match (#[trigger] self.slots@[k])
                            .instance {
                            Some(inst) => inst.wf(),
                            None => true,
                        }) by {
                        if k != i {
                            assert(self.slots@[k] == pre[k]);
                        }
                    }
                }
                generation
            },
            None => {
                let slot = Slot { id, generation: 1, instance: None };
                let ghost pushed = slot;
                self.slots.push(slot);
                proof {
                    assert(self.slots@ =~= pre.push(pushed));
                    lemma_push_frame(pre, pushed);
                    assert forall|k: int|
                        0 <= k < self.slots@.len() implies (match (#[trigger] self.slots@[k])
                            .instance {
                            Some(inst) => inst.wf(),
                            None => true,
                        }) by {
                        if k < pre.len() {
                            assert(self.slots@[k] == pre[k]);
                        }
                    }
                }
                1
            },
        }
    }

    /// Finishes an edit: when the generation is still the slot's current one
    /// the outcome is installed — a fresh analysis unit when it carried an
    /// encodable tree, none otherwise — and the diagnostics that its events
    /// translate to are handed back for publication. A superseded
    /// generation changes nothing and publishes nothing.
    pub fn finish_update(&mut self, id: &String, generation: u64, outcome: ParseOutcome) -> (r:
        Option<Vec<Diagnostic>>)
        requires
            old(self).wf(),
        ensures
            final(self).wf(),
            (match r {
                Some(diags) => {
                    &&& old(self).contains_doc(id@)
                    &&& old(self).doc_generation(id@) == generation
                    &&& diags.deep_view() == translate_events(id@, outcome_events(outcome))
                    &&& final(self).contains_doc(id@)
                    &&& final(self).doc_generation(id@) == generation
                    &&& (match outcome {
                        ParseOutcome::Success { ast, events } => {
                            &&& stream_wf(block_token_stream(ast)) ==> final(self).doc_ast(id@)
                                == Some(ast) && (match final(self).doc_instance(id@) {
                                Some(inst) => inst.cache_spec() is None,
                                None => false,
                            })
                            &&& !stream_wf(block_token_stream(ast)) ==> final(self).doc_instance(
                                id@,
                            ) is None
                        },
                        ParseOutcome::HardFailure { events } => final(self).doc_instance(id@)
                            is None,
                    })
                    &&& forall|other: Seq<char>|
                        other != id@ ==> #[trigger] doc_unchanged(*old(self), *final(self), other)
                },
                None => !(old(self).contains_doc(id@) && old(self).doc_generation(id@)
                    == generation) && *final(self) == *old(self),
            }),
    {
        let ghost pre = self.slots@;
        match self.find_slot(id) {
            Some(i) => {
                if self.slots[i].generation == generation {
                    let (inst, diags) = Instance::from_source(id.clone(), outcome);
                    let mut slot = self.slots.remove(i);
                    slot.instance = inst;
                    let ghost updated = slot;
                    self.slots.insert(i, slot);
                    proof {
                        assert(self.slots@ =~= pre.update(i as int, updated));
                        lemma_same_ids_frame(pre, self.slots@, id@);
                        lemma_index_unique(self.slots@, id@, i as int);
                        assert forall|k: int|
                            0 <= k < self.slots@.len() implies (match (#[trigger] self.slots@[k])
                                .instance {
                                Some(inst) => inst.wf(),
                                None => true,
                            }) by {
                            if k != i {
                                assert(self.slots@[k] == pre[k]);
                            }
                        }
                    }
                    Some(diags)
                } else {
                    None
                }
            },
            None => None,
        }
    }

    /// Replaces the document's state for a new full text in one step: the
    /// slot is cleared and advanced, the outcome installed, and the
    /// diagnostics for publication handed back.
    pub fn upsert(&mut self, id: String, outcome: ParseOutcome) -> (r: Vec<Diagnostic>)
        requires
            old(self).wf(),
            old(self).doc_generation(id@) < u64::MAX,
        ensures
            final(self).wf(),
            r.deep_view() == translate_events(id@, outcome_events(outcome)),
            final(self).contains_doc(id@),
            final(self).doc_generation(id@) == old(self).doc_generation(id@) + 1,
            (match outcome {
                ParseOutcome::Success { ast, events } => {
                    &&& stream_wf(block_token_stream(ast)) ==> final(self).doc_ast(id@) == Some(
                        ast,
                    )
                    &&& !stream_wf(block_token_stream(ast)) ==> final(self).doc_instance(id@)
                        is None
                },
                ParseOutcome::HardFailure { events } => final(self).doc_instance(id@) is None,
            }),
            forall|other: Seq<char>|
                other != id@ ==> #[trigger] doc_unchanged(*old(self), *final(self), other),
    {
        let ghost pre = *self;
        let generation = self.begin_update(id.clone());
        let ghost mid = *self;
        let result = self.finish_update(&id, generation, outcome);
        proof {
            assert forall|other: Seq<char>| other != id@ implies #[trigger] doc_unchanged(
                pre,
                *self,
                other,
            ) by {
                assert(doc_unchanged(pre, mid, other));
                assert(doc_unchanged(mid, *self, other));
            }
        }
        match result {
            Some(diags) => diags,
            None => {
                proof {
                    assert(false);
                }
                vstd::pervasive::unreached()
            },
        }
    }

    /// Drops the document's slot entirely: the document was closed, and no
    /// tokens or diagnostics are served for it until it is reopened.
    pub fn remove(&mut self, id: &String)
        requires
            old(self).wf(),
        ensures
            final(self).wf(),
            !final(self).contains_doc(id@),
            final(self).doc_generation(id@) == 0,
            forall|other: Seq<char>|
                other != id@ ==> #[trigger] doc_unchanged(*old(self), *final(self), other),
    {
        let ghost pre = self.slots@;
        match self.find_slot(id) {
            Some(i) => {
                self.slots.remove(i);
                proof {
                    lemma_remove_frame(pre, i as int);
                    assert forall|k: int|
                        0 <= k < self.slots@.len() implies (match (#[trigger] self.slots@[k])
                            .instance {
                            Some(inst) => inst.wf(),
                            None => true,
                        }) by {
                        let k0 = if k < i as int {
                            k
                        } else {
                            k + 1
                        };
                        assert(self.slots@[k] == pre[k0]);
                    }
                }
            },
            None => {},
        }
    }

    /// The generation of the document's last accepted edit; zero before the
    /// document was ever opened.
    pub fn current_generation(&self, id: &String) -> (r: u64)
        requires
            self.wf(),
        ensures
            r == self.doc_generation(id@),
    {
        match self.find_slot(id) {
            Some(i) => self.slots[i].generation,
            None => 0,
        }
    }

    /// The document's current analysis unit, by reference; absent when the
    /// document is unknown or mid-transition.
    pub fn lookup(&self, id: &String) -> (r: Option<&Instance>)
        requires
            self.wf(),
        ensures
            (match r {
                Some(inst) => self.doc_instance(id@) == Some(*inst) && inst.wf(),
                None => self.doc_instance(id@) is None,
            }),
    {
        match self.find_slot(id) {
            Some(i) => {
                match &self.slots[i].instance {
                    Some(inst) => Some(inst),
                    None => None,
                }
            },
            None => None,
        }
    }

    /// Serves a token request: the wire tokens of the document's current
    /// tree, memoized inside its analysis unit; nothing when the document is
    /// unknown or has no unit. The registry's visible state — presence,
    /// generations, trees — is untouched.
    pub fn request_semantic_tokens(&mut self, id: &String) -> (r: Option<Vec<SemanticToken>>)
        requires
            old(self).wf(),
        ensures
            final(self).wf(),
            (match r {
                Some(v) => tokens_response(*old(self), id@) == Some(v@),
                None => tokens_response(*old(self), id@) is None,
            }),
            final(self).contains_doc(id@) == old(self).contains_doc(id@),
            final(self).doc_generation(id@) == old(self).doc_generation(id@),
            final(self).doc_ast(id@) == old(self).doc_ast(id@),
            tokens_response(*final(self), id@) == tokens_response(*old(self), id@),
            forall|other: Seq<char>|
                other != id@ ==> #[trigger] doc_unchanged(*old(self), *final(self), other),
    {
        let ghost pre = self.slots@;
        match self.find_slot(id) {
            Some(i) => {
                let mut slot = self.slots.remove(i);
                let r = match &mut slot.instance {
                    Some(inst) => Some(inst.semantic_tokens()),
                    None => None,
                };
                let ghost updated = slot;
                self.slots.insert(i, slot);
                proof {
                    assert(self.slots@ =~= pre.update(i as int, updated));
                    lemma_same_ids_frame(pre, self.slots@, id@);
                    lemma_index_unique(self.slots@, id@, i as int);
                    assert forall|k: int|
                        0 <= k < self.slots@.len() implies (match (#[trigger] self.slots@[k])
                            .instance {
                            Some(inst) => inst.wf(),
                            None => true,
                        }) by {
                        if k != i {
                            assert(self.slots@[k] == pre[k]);
                        }
                    }
                }
                r
            },
            None => None,
        }
    }
}

/// What a token request answers on a given registry state: the wire tokens
/// of the document's tree when an analysis unit is installed, nothing
/// otherwise.
pub open spec fn tokens_response(reg: Registry, id: Seq<char>) -> Option<Seq<SemanticToken>> {
    match reg.doc_instance(id) {
        Some(inst) => Some(block_wire_tokens(inst.ast_spec())),
        None => None,
    }
}

/// Nothing about the document changed between two registry states: neither
/// its presence, nor its generation, nor its analysis unit.
pub open spec fn doc_unchanged(pre: Registry, post: Registry, id: Seq<char>) -> bool {
    &&& post.contains_doc(id) == pre.contains_doc(id)
    &&& post.doc_generation(id) == pre.doc_generation(id)
    &&& post.doc_instance(id) == pre.doc_instance(id)
}

/// A closed document serves no tokens: on any registry state without a slot
/// for the document, a token request answers nothing.
pub proof fn lemma_closed_document_serves_nothing(reg: Registry, id: Seq<char>)
    requires
        !reg.contains_doc(id),
    ensures
        tokens_response(reg, id) is None,
{
}

} // verus!

