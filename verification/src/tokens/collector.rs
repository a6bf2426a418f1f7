//! The token encoder: a depth-first walk of a block emits kind-tagged spans
//! in a fixed order; the spans are then stably sorted by start position and
//! delta-encoded against a cursor into the wire format.

use crate::ast::{Block, InstrValue, Instruction, Symbol, SymbolValue};
use crate::span::{pos_le, pos_lt, span_single_line, Position, Span};
use crate::tokens::definitions::{
    comment, number, operator, parameter, token_index_spec, variable, TokenKind,
};
use vstd::prelude::*;

verus! {

/// One wire-level semantic token: position deltas against a cursor, length,
/// and the kind id from the published legend.
#[derive(Clone, Copy, PartialEq, Eq, Structural, Debug)]
pub struct SemanticToken {
    pub delta_line: u32,
    pub delta_start: u32,
    pub length: u32,
    pub token_type: u32,
    pub token_modifiers_bitset: u32,
}

/// The same range re-tagged with a wire-level kind id.
pub open spec fn retag<T>(s: Span<T>, kind: u32) -> Span<u32> {
    Span { start: s.start, end: s.end, data: kind }
}

/// The comment spans of a block, tagged with the comment kind.
pub open spec fn comment_stream(cs: Seq<Span<()>>) -> Seq<Span<u32>> {
    cs.map_values(|s: Span<()>| retag(s, token_index_spec(TokenKind::Comment)))
}

/// The parameter spans of a block, tagged with the parameter kind.
pub open spec fn arg_stream(args: Seq<Span<()>>) -> Seq<Span<u32>> {
    args.map_values(|s: Span<()>| retag(s, token_index_spec(TokenKind::Parameter)))
}

/// The spans a block's walk emits, in emission order: comments, parameters,
/// bindings (name, then value or nested block), then instructions.
pub open spec fn block_token_stream(b: Block) -> Seq<Span<u32>>
    decreases b,
{
    comment_stream(b.comments@) + arg_stream(b.args@) + symbols_token_stream(b.symbols@)
        + instrs_token_stream(b.instrs@)
}

/// The spans a run of bindings emits, in order.
pub open spec fn symbols_token_stream(syms: Seq<Symbol>) -> Seq<Span<u32>>
    decreases syms,
{
    if syms.len() == 0 {
        Seq::empty()
    } else {
        symbol_token_stream(syms[0]) + symbols_token_stream(syms.drop_first())
    }
}

/// The spans one binding emits: its name as a variable, then either its
/// literal value as a number or the contents of its nested block.
pub open spec fn symbol_token_stream(sym: Symbol) -> Seq<Span<u32>>
    decreases sym,
{
    let name = seq![retag(sym.name_span, token_index_spec(TokenKind::Variable))];
    match sym.value.data {
        SymbolValue::Number => name.push(retag(sym.value, token_index_spec(TokenKind::Number))),
        SymbolValue::Builtin => name.push(retag(sym.value, token_index_spec(TokenKind::Number))),
        SymbolValue::Block(inner) => name + block_token_stream(*inner),
    }
}

/// The spans a run of instructions emits, in order.
pub open spec fn instrs_token_stream(instrs: Seq<Span<Instruction>>) -> Seq<Span<u32>>
    decreases instrs,
{
    if instrs.len() == 0 {
        Seq::empty()
    } else {
        instr_token_stream(instrs[0]) + instrs_token_stream(instrs.drop_first())
    }
}

/// The spans one instruction emits: a command as an operator; a push by the
/// kind of the pushed value; a nested block by its contents.
pub open spec fn instr_token_stream(instr: Span<Instruction>) -> Seq<Span<u32>>
    decreases instr,
{
    match instr.data {
        Instruction::Command => seq![retag(instr, token_index_spec(TokenKind::Operator))],
        Instruction::Push(value) => match value {
            InstrValue::Number => seq![retag(instr, token_index_spec(TokenKind::Number))],
            InstrValue::Builtin => seq![retag(instr, token_index_spec(TokenKind::Number))],
            InstrValue::Ident => seq![retag(instr, token_index_spec(TokenKind::Variable))],
            InstrValue::Block(inner) => block_token_stream(*inner),
        },
    }
}

/// Every span of the stream stays on one line and does not run backwards;
/// only such streams can be delta-encoded.
pub open spec fn stream_wf(s: Seq<Span<u32>>) -> bool {
    forall|i: int| 0 <= i < s.len() ==> span_single_line(#[trigger] s[i])
}

/// The spans are in ascending order of start position.
pub open spec fn sorted_by_start(s: Seq<Span<u32>>) -> bool {
    forall|i: int, j: int| 0 <= i < j < s.len() ==> pos_le(#[trigger] s[i].start, #[trigger] s[j].start)
}

/// Where a stable sort places `x` in the sorted sequence `s`: after every
/// element whose start does not come after `x`'s, before all others.
pub open spec fn insert_pos(s: Seq<Span<u32>>, x: Span<u32>) -> int
    decreases s.len(),
{
    if s.len() == 0 {
        0
    } else if pos_lt(x.start, s[0].start) {
        0
    } else {
        1 + insert_pos(s.drop_first(), x)
    }
}

/// One step of the stable sort: `x` inserted at its place in `s`.
pub open spec fn sorted_insert(s: Seq<Span<u32>>, x: Span<u32>) -> Seq<Span<u32>> {
    s.insert(insert_pos(s, x), x)
}

/// The stable sort of `s` by start position: elements with equal starts keep
/// their original order.
pub open spec fn stable_sort(s: Seq<Span<u32>>) -> Seq<Span<u32>>
    decreases s.len(),
{
    if s.len() == 0 {
        s
    } else {
        sorted_insert(stable_sort(s.drop_last()), s.last())
    }
}

/// The delta encoding of `s` against a cursor at `(line, col)`: each token
/// carries its line delta, its column delta (from column zero whenever the
/// line advances), its single-line width, and its kind; the cursor then moves
/// to the token's start.
pub open spec fn delta_encode_from(s: Seq<Span<u32>>, line: int, col: int) -> Seq<SemanticToken>
    decreases s.len(),
{
    if s.len() == 0 {
        Seq::empty()
    } else {
        let t = s[0];
        let delta_line = t.start.line - line;
        let base = if delta_line > 0 { 0 } else { col };
        let delta_start = t.start.col - base;
        let tok = SemanticToken {
            delta_line: delta_line as u32,
            delta_start: delta_start as u32,
            length: (t.end.col - t.start.col) as u32,
            token_type: t.data,
            token_modifiers_bitset: 0,
        };
        seq![tok] + delta_encode_from(s.drop_first(), t.start.line as int, t.start.col as int)
    }
}

/// The delta encoding of a whole stream, with the cursor starting at (0, 0).
pub open spec fn delta_encode(s: Seq<Span<u32>>) -> Seq<SemanticToken> {
    delta_encode_from(s, 0, 0)
}

/// The wire tokens a block's walk produces: its emitted spans, stably sorted
/// by start position and delta-encoded from (0, 0).
pub open spec fn block_wire_tokens(b: Block) -> Seq<SemanticToken> {
    delta_encode(stable_sort(block_token_stream(b)))
}

/// Replaying the cursor over a delta-encoded stream: the inverse of
/// `delta_encode_from`, recovering each token's absolute single-line span.
pub open spec fn delta_decode_from(toks: Seq<SemanticToken>, line: int, col: int) -> Seq<
    Span<u32>,
>
    decreases toks.len(),
{
    if toks.len() == 0 {
        Seq::empty()
    } else {
        let t = toks[0];
        let new_line = line + t.delta_line;
        let base = if t.delta_line > 0 { 0 } else { col };
        let new_col = base + t.delta_start;
        let sp = Span {
            start: Position { line: new_line as u32, col: new_col as u32 },
            end: Position { line: new_line as u32, col: (new_col + t.length) as u32 },
            data: t.token_type,
        };
        seq![sp] + delta_decode_from(toks.drop_first(), new_line, new_col)
    }
}

/// Decoding a whole stream, with the cursor starting at (0, 0).
pub open spec fn delta_decode(toks: Seq<SemanticToken>) -> Seq<Span<u32>> {
    delta_decode_from(toks, 0, 0)
}

proof fn lemma_delta_round_trip_from(s: Seq<Span<u32>>, line: int, col: int)
    requires
        stream_wf(s),
        sorted_by_start(s),
        0 <= line <= u32::MAX,
        0 <= col <= u32::MAX,
        s.len() > 0 ==> line < s[0].start.line || (line == s[0].start.line && col
            <= s[0].start.col),
    ensures
        delta_decode_from(delta_encode_from(s, line, col), line, col) == s,
    decreases s.len(),
{
    if s.len() > 0 {
        let t = s[0];
        let rest = s.drop_first();
        assert(forall|i: int| 0 <= i < rest.len() ==> rest[i] == s[i + 1]);
        lemma_delta_round_trip_from(rest, t.start.line as int, t.start.col as int);
        let enc = delta_encode_from(s, line, col);
        assert(enc.drop_first() =~= delta_encode_from(rest, t.start.line as int,
            t.start.col as int));
        assert(delta_decode_from(enc, line, col) =~= s);
    } else {
        assert(delta_decode_from(delta_encode_from(s, line, col), line, col) =~= s);
    }
}

/// Round-trip law: replaying the cursor over the delta-encoded form of a
/// sorted, single-line span stream reproduces the absolute spans exactly.
pub proof fn lemma_delta_round_trip(s: Seq<Span<u32>>)
    requires
        stream_wf(s),
        sorted_by_start(s),
    ensures
        delta_decode(delta_encode(s)) == s,
{
    lemma_delta_round_trip_from(s, 0, 0);
}

proof fn lemma_insert_pos_properties(s: Seq<Span<u32>>, x: Span<u32>)
    ensures
        0 <= insert_pos(s, x) <= s.len(),
        forall|k: int| 0 <= k < insert_pos(s, x) ==> !pos_lt(x.start, #[trigger] s[k].start),
        insert_pos(s, x) < s.len() ==> pos_lt(x.start, s[insert_pos(s, x)].start),
    decreases s.len(),
{
    if s.len() > 0 && !pos_lt(x.start, s[0].start) {
        let rest = s.drop_first();
        lemma_insert_pos_properties(rest, x);
        assert(forall|i: int| 0 <= i < rest.len() ==> rest[i] == s[i + 1]);
        assert forall|k: int| 0 <= k < insert_pos(s, x) implies !pos_lt(
            x.start,
            #[trigger] s[k].start,
        ) by {
            if k > 0 {
                assert(!pos_lt(x.start, rest[k - 1].start));
            }
        }
    }
}

proof fn lemma_insert_pos_unique(s: Seq<Span<u32>>, x: Span<u32>, j: int)
    requires
        0 <= j <= s.len(),
        forall|k: int| 0 <= k < j ==> !pos_lt(x.start, #[trigger] s[k].start),
        j < s.len() ==> pos_lt(x.start, s[j].start),
    ensures
        j == insert_pos(s, x),
    decreases s.len(),
{
    if s.len() > 0 && !pos_lt(x.start, s[0].start) {
        let rest = s.drop_first();
        assert(forall|i: int| 0 <= i < rest.len() ==> rest[i] == s[i + 1]);
        lemma_insert_pos_unique(rest, x, j - 1);
    }
}

proof fn lemma_sorted_insert_sorted(s: Seq<Span<u32>>, x: Span<u32>)
    requires
        sorted_by_start(s),
    ensures
        sorted_by_start(sorted_insert(s, x)),
{
    lemma_insert_pos_properties(s, x);
    let pos = insert_pos(s, x);
    let r = sorted_insert(s, x);
    s.insert_ensures(pos, x);
    assert forall|i: int, j: int| 0 <= i < j < r.len() implies pos_le(r[i].start, r[j].start) by {
        if i < pos && j == pos {
            assert(r[i] == s[i] && r[j] == x);
        } else if i == pos && j > pos {
            assert(r[i] == x && r[j] == s[j - 1]);
            if pos < s.len() {
                assert(pos_lt(x.start, s[pos].start));
                assert(pos_le(s[pos].start, s[j - 1].start));
            }
        }
    }
}

/// The stable sort orders the spans by start position.
pub proof fn lemma_stable_sort_sorted(s: Seq<Span<u32>>)
    ensures
        sorted_by_start(stable_sort(s)),
    decreases s.len(),
{
    if s.len() > 0 {
        lemma_stable_sort_sorted(s.drop_last());
        lemma_sorted_insert_sorted(stable_sort(s.drop_last()), s.last());
    }
}

proof fn lemma_filter_insert_at_pos(s: Seq<Span<u32>>, x: Span<u32>, k: Position)
    requires
        sorted_by_start(s),
    ensures
        x.start == k ==> sorted_insert(s, x).filter(|t: Span<u32>| t.start == k) == s.filter(
            |t: Span<u32>| t.start == k,
        ).push(x),
        x.start != k ==> sorted_insert(s, x).filter(|t: Span<u32>| t.start == k) == s.filter(
            |t: Span<u32>| t.start == k,
        ),
{
    let pred = |t: Span<u32>| t.start == k;
    lemma_insert_pos_properties(s, x);
    let pos = insert_pos(s, x);
    let r = sorted_insert(s, x);
    s.insert_ensures(pos, x);
    let front = s.take(pos);
    let back = s.skip(pos);
    assert(r =~= front + (seq![x] + back));
    assert(s =~= front + back);
    Seq::filter_distributes_over_add(front, seq![x] + back, pred);
    Seq::filter_distributes_over_add(seq![x], back, pred);
    Seq::filter_distributes_over_add(front, back, pred);
    reveal(Seq::filter);
    assert(seq![x].drop_last() =~= Seq::<Span<u32>>::empty());
    assert(Seq::<Span<u32>>::empty().filter(pred) =~= Seq::<Span<u32>>::empty());
    if x.start == k {
        assert(seq![x].filter(pred) =~= seq![x]);
        // everything placed after `x` starts strictly later, so nothing there
        // shares the start position `k`
        assert forall|i: int| 0 <= i < back.len() implies !pred(#[trigger] back[i]) by {
            assert(back[i] == s[pos + i]);
            if pos < s.len() {
                assert(pos_lt(x.start, s[pos].start));
                assert(pos_le(s[pos].start, s[pos + i].start));
            }
        }
        back.lemma_all_neg_filter_empty(pred);
        assert(sorted_insert(s, x).filter(pred) =~= s.filter(pred).push(x));
    } else {
        assert(seq![x].filter(pred) =~= Seq::<Span<u32>>::empty());
        assert(sorted_insert(s, x).filter(pred) =~= s.filter(pred));
    }
}

proof fn lemma_symbols_stream_snoc(syms: Seq<Symbol>, x: Symbol)
    ensures
        symbols_token_stream(syms.push(x)) == symbols_token_stream(syms) + symbol_token_stream(x),
    decreases syms.len(),
{
    let sp = syms.push(x);
    if syms.len() == 0 {
        assert(sp[0] == x);
        assert(sp.drop_first() =~= Seq::<Symbol>::empty());
        assert(symbols_token_stream(sp) == symbol_token_stream(x) + symbols_token_stream(
            Seq::<Symbol>::empty(),
        ));
        assert(symbols_token_stream(sp) =~= symbols_token_stream(syms) + symbol_token_stream(x));
    } else {
        assert(sp[0] == syms[0]);
        assert(sp.drop_first() =~= syms.drop_first().push(x));
        lemma_symbols_stream_snoc(syms.drop_first(), x);
        assert(symbols_token_stream(sp) == symbol_token_stream(syms[0]) + (symbols_token_stream(
            syms.drop_first(),
        ) + symbol_token_stream(x)));
        assert(symbols_token_stream(sp) =~= symbols_token_stream(syms) + symbol_token_stream(x));
    }
}

proof fn lemma_instrs_stream_snoc(instrs: Seq<Span<Instruction>>, x: Span<Instruction>)
    ensures
        instrs_token_stream(instrs.push(x)) == instrs_token_stream(instrs) + instr_token_stream(x),
    decreases instrs.len(),
{
    let sp = instrs.push(x);
    if instrs.len() == 0 {
        assert(sp[0] == x);
        assert(sp.drop_first() =~= Seq::<Span<Instruction>>::empty());
        assert(instrs_token_stream(sp) == instr_token_stream(x) + instrs_token_stream(
            Seq::<Span<Instruction>>::empty(),
        ));
        assert(instrs_token_stream(sp) =~= instrs_token_stream(instrs) + instr_token_stream(x));
    } else {
        assert(sp[0] == instrs[0]);
        assert(sp.drop_first() =~= instrs.drop_first().push(x));
        lemma_instrs_stream_snoc(instrs.drop_first(), x);
        assert(instrs_token_stream(sp) == instr_token_stream(instrs[0]) + (instrs_token_stream(
            instrs.drop_first(),
        ) + instr_token_stream(x)));
        assert(instrs_token_stream(sp) =~= instrs_token_stream(instrs) + instr_token_stream(x));
    }
}

proof fn lemma_stable_sort_wf(s: Seq<Span<u32>>)
    requires
        stream_wf(s),
    ensures
        stream_wf(stable_sort(s)),
    decreases s.len(),
{
    if s.len() > 0 {
        let prefix = s.drop_last();
        assert(forall|i: int| 0 <= i < prefix.len() ==> prefix[i] == s[i]);
        lemma_stable_sort_wf(prefix);
        let prev = stable_sort(prefix);
        let x = s.last();
        let pos = insert_pos(prev, x);
        lemma_insert_pos_properties(prev, x);
        prev.insert_ensures(pos, x);
        assert forall|i: int| 0 <= i < stable_sort(s).len() implies span_single_line(
            #[trigger] stable_sort(s)[i],
        ) by {
            if i < pos {
                assert(stable_sort(s)[i] == prev[i]);
            } else if i == pos {
                assert(stable_sort(s)[i] == x);
            } else {
                assert(stable_sort(s)[i] == prev[i - 1]);
            }
        }
    }
}

/// Stability law: spans that share a start position keep their original
/// emission order through the sort — for any position `k`, the subsequence of
/// sorted spans starting at `k` is exactly the subsequence of original spans
/// starting at `k`.
pub proof fn lemma_stable_sort_stable(s: Seq<Span<u32>>, k: Position)
    ensures
        stable_sort(s).filter(|t: Span<u32>| t.start == k) == s.filter(|t: Span<u32>| t.start == k),
    decreases s.len(),
{
    let pred = |t: Span<u32>| t.start == k;
    if s.len() == 0 {
        reveal(Seq::filter);
    } else {
        let prefix = s.drop_last();
        lemma_stable_sort_stable(prefix, k);
        lemma_stable_sort_sorted(prefix);
        lemma_filter_insert_at_pos(stable_sort(prefix), s.last(), k);
        reveal(Seq::filter);
        assert(s.filter(pred) == if pred(s.last()) {
            prefix.filter(pred).push(s.last())
        } else {
            prefix.filter(pred)
        });
    }
}

/// Accumulates the kind-tagged spans a depth-first walk emits, then encodes
/// them into the wire stream.
pub struct TokenCollector {
    tokens: Vec<Span<u32>>,
}

impl TokenCollector {
    fn new() -> (r: TokenCollector)
        ensures
            r.tokens@ == Seq::<Span<u32>>::empty(),
    {
        TokenCollector { tokens: Vec::new() }
    }

    /// Walks one block depth-first and appends every span it emits, in
    /// emission order, to the accumulator.
    fn process_block(&mut self, block: &Block)
        ensures
            final(self).tokens@ == old(self).tokens@ + block_token_stream(*block),
        decreases *block,
    {
        let ghost orig = self.tokens@;
        let nc = block.comments.len();
        for i in 0..nc
            invariant
                self.tokens@ == orig + comment_stream(block.comments@.subrange(0, i as int)),
                nc == block.comments.len(),
        {
            let tok = block.comments[i].swap(comment());
            self.tokens.push(tok);
            proof {
                assert(block.comments@.subrange(0, i + 1) =~= block.comments@.subrange(
                    0,
                    i as int,
                ).push(block.comments@[i as int]));
                assert(comment_stream(block.comments@.subrange(0, i + 1)) =~= comment_stream(
                    block.comments@.subrange(0, i as int),
                ).push(retag(block.comments@[i as int], token_index_spec(TokenKind::Comment))));
            }
        }
        proof {
            assert(block.comments@.subrange(0, block.comments@.len() as int) =~= block.comments@);
        }
        let ghost after_comments = self.tokens@;

        let na = block.args.len();
        for i in 0..na
            invariant
                self.tokens@ == after_comments + arg_stream(block.args@.subrange(0, i as int)),
                na == block.args.len(),
        {
            let tok = block.args[i].swap(parameter());
            self.tokens.push(tok);
            proof {
                assert(block.args@.subrange(0, i + 1) =~= block.args@.subrange(0, i as int).push(
                    block.args@[i as int],
                ));
                assert(arg_stream(block.args@.subrange(0, i + 1)) =~= arg_stream(
                    block.args@.subrange(0, i as int),
                ).push(retag(block.args@[i as int], token_index_spec(TokenKind::Parameter))));
            }
        }
        proof {
            assert(block.args@.subrange(0, block.args@.len() as int) =~= block.args@);
        }

        let ghost pre_syms = self.tokens@;
        let ns = block.symbols.len();
        for i in 0..ns
            invariant
                self.tokens@ == pre_syms + symbols_token_stream(
                    block.symbols@.subrange(0, i as int),
                ),
                ns == block.symbols.len(),
            decreases *block, ns - i,
        {
            let ghost before = self.tokens@;
            let sym = &block.symbols[i];
            let name_tok = sym.name_span.swap(variable());
            self.tokens.push(name_tok);
            let value_span = sym.value.swap(());
            match &sym.value.data {
                SymbolValue::Number | SymbolValue::Builtin => {
                    self.tokens.push(value_span.swap(number()));
                },
                SymbolValue::Block(inner) => {
                    proof {
                        assert(decreases_to!(*block => *inner));
                    }
                    self.process_block(inner);
                },
            }
            proof {
                assert(self.tokens@ =~= before + symbol_token_stream(block.symbols@[i as int]));
                lemma_symbols_stream_snoc(
                    block.symbols@.subrange(0, i as int),
                    block.symbols@[i as int],
                );
                assert(block.symbols@.subrange(0, i + 1) =~= block.symbols@.subrange(
                    0,
                    i as int,
                ).push(block.symbols@[i as int]));
                assert(self.tokens@ =~= pre_syms + symbols_token_stream(
                    block.symbols@.subrange(0, i + 1),
                ));
            }
        }
        proof {
            assert(block.symbols@.subrange(0, block.symbols@.len() as int) =~= block.symbols@);
        }

        let ghost pre_instrs = self.tokens@;
        let ni = block.instrs.len();
        for i in 0..ni
            invariant
                self.tokens@ == pre_instrs + instrs_token_stream(
                    block.instrs@.subrange(0, i as int),
                ),
                ni == block.instrs.len(),
            decreases *block, ni - i,
        {
            let ghost before = self.tokens@;
            let instr = &block.instrs[i];
            let instr_span = instr.swap(());
            match &instr.data {
                Instruction::Command => {
                    self.tokens.push(instr_span.swap(operator()));
                },
                Instruction::Push(value) => match value {
                    InstrValue::Number | InstrValue::Builtin => {
                        self.tokens.push(instr_span.swap(number()));
                    },
                    InstrValue::Ident => {
                        self.tokens.push(instr_span.swap(variable()));
                    },
                    InstrValue::Block(inner) => {
                        proof {
                            assert(decreases_to!(*block => *inner));
                        }
                        self.process_block(inner);
                    },
                },
            }
            proof {
                assert(self.tokens@ =~= before + instr_token_stream(block.instrs@[i as int]));
                lemma_instrs_stream_snoc(
                    block.instrs@.subrange(0, i as int),
                    block.instrs@[i as int],
                );
                assert(block.instrs@.subrange(0, i + 1) =~= block.instrs@.subrange(
                    0,
                    i as int,
                ).push(block.instrs@[i as int]));
                assert(self.tokens@ =~= pre_instrs + instrs_token_stream(
                    block.instrs@.subrange(0, i + 1),
                ));
            }
        }
        proof {
            assert(block.instrs@.subrange(0, block.instrs@.len() as int) =~= block.instrs@);
            assert(self.tokens@ =~= orig + block_token_stream(*block));
        }
    }

    /// Walks a block and encodes its tokens: the emitted spans, stably
    /// sorted by start position, delta-encoded from (0, 0).
    pub fn collect_tokens(source: &Block) -> (r: Vec<SemanticToken>)
        requires
            stream_wf(block_token_stream(*source)),
        ensures
            r@ == block_wire_tokens(*source),
    {
        let mut collector = TokenCollector::new();
        collector.process_block(source);
        proof {
            assert(collector.tokens@ =~= block_token_stream(*source));
        }
        collector.map_semantic_tokens()
    }

    /// Encodes the accumulated spans: stable sort by start position, then
    /// delta encoding against a cursor starting at (0, 0).
    fn map_semantic_tokens(self) -> (r: Vec<SemanticToken>)
        requires
            stream_wf(self.tokens@),
        ensures
            r@ == delta_encode(stable_sort(self.tokens@)),
    {
        proof {
            lemma_stable_sort_sorted(self.tokens@);
            lemma_stable_sort_wf(self.tokens@);
        }
        let sorted = sort_tokens(&self.tokens);
        encode_sorted(&sorted)
    }

    /// Answers whether every span the walk of `source` emits is
    /// single-line and does not run backwards: only then can the stream be
    /// delta-encoded (multi-line tokens are out of scope for the wire
    /// format).
    pub fn tokens_well_formed(source: &Block) -> (r: bool)
        ensures
            r == stream_wf(block_token_stream(*source)),
    {
        let mut collector = TokenCollector::new();
        collector.process_block(source);
        proof {
            assert(collector.tokens@ =~= block_token_stream(*source));
        }
        let n = collector.tokens.len();
        let mut ok = true;
        for i in 0..n
            invariant
                n == collector.tokens.len(),
                collector.tokens@ == block_token_stream(*source),
                ok == (forall|k: int|
                    0 <= k < i ==> span_single_line(#[trigger] collector.tokens@[k])),
        {
            let s = collector.tokens[i];
            ok = ok && s.start.line == s.end.line && s.start.col <= s.end.col;
        }
        ok
    }
}

/// Stable insertion sort of the emitted spans by start position: each span
/// goes after every earlier span whose start does not come after its own.
fn sort_tokens(tokens: &Vec<Span<u32>>) -> (r: Vec<Span<u32>>)
    ensures
        r@ == stable_sort(tokens@),
{
    let mut out: Vec<Span<u32>> = Vec::new();
    let n = tokens.len();
    proof {
        assert(tokens@.subrange(0, 0) =~= Seq::<Span<u32>>::empty());
    }
    for i in 0..n
        invariant
            n == tokens.len(),
            out@ == stable_sort(tokens@.subrange(0, i as int)),
    {
        let x = tokens[i];
        let mut j: usize = 0;
        while j < out.len() && !out[j].start.gt(&x.start)
            invariant
                j <= out.len(),
                out@ == stable_sort(tokens@.subrange(0, i as int)),
                forall|k: int| 0 <= k < j ==> !pos_lt(x.start, #[trigger] out@[k].start),
            decreases out.len() - j,
        {
            j = j + 1;
        }
        proof {
            lemma_insert_pos_unique(out@, x, j as int);
            assert(tokens@.subrange(0, i + 1).drop_last() =~= tokens@.subrange(0, i as int));
            assert(tokens@.subrange(0, i + 1).last() == x);
        }
        out.insert(j, x);
    }
    proof {
        assert(tokens@.subrange(0, tokens@.len() as int) =~= tokens@);
    }
    out
}

/// Delta-encodes spans already in ascending start order: the cursor starts
/// at (0, 0) and moves to each token's start in turn.
fn encode_sorted(spans: &Vec<Span<u32>>) -> (r: Vec<SemanticToken>)
    requires
        sorted_by_start(spans@),
        stream_wf(spans@),
    ensures
        r@ == delta_encode(spans@),
{
    let mut data: Vec<SemanticToken> = Vec::new();
    let mut line: u32 = 0;
    let mut col: u32 = 0;
    let n = spans.len();
    proof {
        assert(spans@.skip(0) =~= spans@);
        assert(data@ + delta_encode_from(spans@, 0, 0) =~= delta_encode(spans@));
    }
    for i in 0..n
        invariant
            n == spans.len(),
            sorted_by_start(spans@),
            stream_wf(spans@),
            data@ + delta_encode_from(spans@.skip(i as int), line as int, col as int)
                == delta_encode(spans@),
            i > 0 ==> line == spans@[i - 1].start.line && col == spans@[i - 1].start.col,
            i == 0 ==> line == 0 && col == 0,
    {
        let t = spans[i];
        proof {
            if i > 0 {
                assert(pos_le(spans@[i - 1].start, spans@[i as int].start));
            }
            assert(span_single_line(spans@[i as int]));
        }
        let delta_line = t.start.line - line;
        let delta_start = if delta_line > 0 {
            t.start.col
        } else {
            t.start.col - col
        };
        let length = t.end.col - t.start.col;
        data.push(
            SemanticToken {
                delta_line,
                delta_start,
                length,
                token_type: t.data,
                token_modifiers_bitset: 0,
            },
        );
        line = t.start.line;
        col = t.start.col;
        proof {
            let suffix = spans@.skip(i as int);
            assert(suffix[0] == spans@[i as int]);
            assert(suffix.drop_first() =~= spans@.skip(i + 1));
            assert(data@ + delta_encode_from(spans@.skip(i + 1), line as int, col as int)
                =~= delta_encode(spans@));
        }
    }
    proof {
        assert(spans@.skip(n as int) =~= Seq::<Span<u32>>::empty());
        assert(data@ =~= delta_encode(spans@));
    }
    data
}

} // verus!
