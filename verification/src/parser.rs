//! Push-down repairing validator over lexeme pairs.
//!
//! The parser carries pending whitespace, a one-token look-behind delay slot,
//! and a stack of structural states.  For each incoming lexeme it consults a
//! total repair table and drops, inserts, or rewrites tokens until the stream
//! satisfies JSON grammar; synthetic open and close delimiters balance the
//! stack at the end of the stream.

use vstd::prelude::*;

use crate::lexer::{spec_lexem_bytes, spec_fix_lexem, fix_lexem, lexem_bytes, Lexem, Paired};

verus! {

/// The parser's unit: a lexeme, its original bytes, and the verbatim
/// whitespace that preceded it in the input.
#[derive(Debug)]
pub struct Token {
    /// The lexeme kind.
    pub lexem: Lexem,
    /// The whitespace run that preceded this token, reproduced on output.
    pub whitespace_before: Vec<u8>,
    /// The original bytes of the lexeme.
    pub value: Vec<u8>,
}

/// The mathematical content of a [`Token`].
#[verifier::ext_equal]
pub ghost struct TokenModel {
    /// The lexeme kind.
    pub lexem: Lexem,
    /// The whitespace run preceding the token.
    pub whitespace_before: Seq<u8>,
    /// The original bytes of the lexeme.
    pub value: Seq<u8>,
}

impl View for Token {
    type V = TokenModel;

    open spec fn view(&self) -> TokenModel {
        TokenModel {
            lexem: self.lexem,
            whitespace_before: self.whitespace_before@,
            value: self.value@,
        }
    }
}

/// A token synthesized from a bare lexeme: no preceding whitespace, and the
/// kind's canonical byte as its text.
pub open spec fn spec_token_of_lexem(l: Lexem) -> TokenModel {
    TokenModel { lexem: l, whitespace_before: Seq::empty(), value: spec_lexem_bytes(l) }
}

/// The serialization of a token: its whitespace followed by the canonical
/// JSON bytes of its lexeme.
pub open spec fn spec_render(t: TokenModel) -> Seq<u8> {
    t.whitespace_before + spec_fix_lexem(t.lexem, t.value)
}

impl Token {
    /// A token from its parts.
    pub fn new(lexem: Lexem, whitespace_before: Vec<u8>, value: Vec<u8>) -> (t: Self)
        ensures
            t@ == (TokenModel {
                lexem,
                whitespace_before: whitespace_before@,
                value: value@,
            }),
    {
        Self { lexem, whitespace_before, value }
    }

    /// A synthesized token carrying a lexeme's canonical byte and no
    /// whitespace.
    pub fn from_lexem(lexem: Lexem) -> (t: Self)
        ensures
            t@ == spec_token_of_lexem(lexem),
    {
        Self { lexem, whitespace_before: Vec::new(), value: lexem_bytes(lexem) }
    }

    /// Serializes the token: its whitespace followed by its canonical bytes.
    pub fn render(self) -> (r: Vec<u8>)
        ensures
            r@ == spec_render(self@),
    {
        let mut result = self.whitespace_before;
        let mut fixed = fix_lexem(self.lexem, self.value);
        result.append(&mut fixed);
        result
    }
}

impl Default for Token {
    /// A stream-terminator token with no text.
    fn default() -> (t: Self)
        ensures
            t@ == (TokenModel {
                lexem: Lexem::Close(Paired::File),
                whitespace_before: Seq::<u8>::empty(),
                value: Seq::<u8>::empty(),
            }),
    {
        Self { lexem: Lexem::Close(Paired::File), whitespace_before: Vec::new(), value: Vec::new() }
    }
}

/// A structural state of the push-down machine.
#[derive(Debug, Clone, Copy, PartialEq, Eq, Structural)]
pub enum State {
    /// Top level: accepts a value; the stack bottom is implicitly `File`.
    File,
    /// Inside `[`: needs a value.
    Array,
    /// Just finished a value: needs a comma or a close.
    Value,
    /// Inside `{`: needs a key.
    Object,
    /// Just saw an object key: needs a colon.
    Key,
    /// Just saw the colon: needs a value.
    Colon,
    /// Just saw a comma: needs another value.
    Comma,
}

/// The outcome of consulting the repair table.
#[derive(Debug, Clone, Copy, PartialEq, Eq, Structural)]
pub enum Validate {
    /// Replace the top state; keep the token.
    Take(State),
    /// Push a new state; keep the token.
    Push(State),
    /// Pop the top state; re-examine the token against the exposed state.
    Pop,
    /// Synthesize a lexeme ahead of the token; re-examine both.
    Insert(Lexem),
    /// Discard the token; its whitespace returns to the pending buffer.
    Drop,
    /// Discard the delayed token; pop; fold its whitespace into the token.
    DropBefore,
}

/// The structural state a container delimiter opens.
pub open spec fn spec_state_of_paired(p: Paired) -> State {
    match p {
        Paired::Brace => State::Object,
        Paired::Bracket => State::Array,
        Paired::File => State::File,
    }
}

/// The repair table: a total function of the top structural state and the
/// incoming lexeme kind.
///
/// After a complete value, any non-closer and non-comma implies a forgotten
/// separator, which is inserted.  Leading commas and colons inside a
/// container are erased, as are stray closers and separators at top level.
/// A trailing comma is retracted through the delay slot (`DropBefore`).
/// A pending `Close(File)` first synthesizes whatever closers balance the
/// stack; the `File` row then consumes it.
pub open spec fn spec_validate(state: State, lexem: Lexem) -> Validate {
    match state {
        State::File => match lexem {
            Lexem::Close(Paired::File) => Validate::Take(State::File),
            Lexem::Open(p) => Validate::Take(spec_state_of_paired(p)),
            Lexem::String | Lexem::Else => Validate::Take(State::Value),
            _ => Validate::Drop,
        },
        State::Array => match lexem {
            Lexem::Comma | Lexem::Colon => Validate::Drop,
            Lexem::String | Lexem::Else => Validate::Push(State::Value),
            Lexem::Open(p) => Validate::Push(spec_state_of_paired(p)),
            Lexem::Close(Paired::Bracket) => Validate::Take(State::Value),
            Lexem::Close(_) => Validate::Insert(Lexem::Close(Paired::Bracket)),
            Lexem::WhiteSpace => Validate::Drop,
        },
        State::Object => match lexem {
            Lexem::Comma | Lexem::Colon => Validate::Drop,
            Lexem::String | Lexem::Else => Validate::Push(State::Key),
            Lexem::Open(p) => Validate::Push(spec_state_of_paired(p)),
            Lexem::Close(Paired::Brace) => Validate::Take(State::Value),
            Lexem::Close(_) => Validate::Insert(Lexem::Close(Paired::Brace)),
            Lexem::WhiteSpace => Validate::Drop,
        },
        State::Value => match lexem {
            Lexem::Comma => Validate::Take(State::Comma),
            Lexem::Colon => Validate::Drop,
            Lexem::String | Lexem::Else | Lexem::Open(_) => Validate::Insert(Lexem::Comma),
            Lexem::Close(_) => Validate::Pop,
            Lexem::WhiteSpace => Validate::Drop,
        },
        State::Key => match lexem {
            Lexem::Close(Paired::Bracket) | Lexem::Comma => Validate::Drop,
            Lexem::Colon => Validate::Take(State::Colon),
            Lexem::Open(_) | Lexem::Close(_) | Lexem::Else | Lexem::String => Validate::Insert(
                Lexem::Colon,
            ),
            Lexem::WhiteSpace => Validate::Drop,
        },
        State::Colon => match lexem {
            Lexem::String | Lexem::Else => Validate::Take(State::Value),
            Lexem::Comma | Lexem::Colon => Validate::Drop,
            Lexem::Open(p) => Validate::Take(spec_state_of_paired(p)),
            Lexem::Close(Paired::Bracket) => Validate::Insert(Lexem::Open(Paired::Bracket)),
            Lexem::Close(_) => Validate::Insert(Lexem::Open(Paired::Brace)),
            Lexem::WhiteSpace => Validate::Drop,
        },
        State::Comma => match lexem {
            Lexem::Open(_) | Lexem::String | Lexem::Else => Validate::Pop,
            Lexem::Comma | Lexem::Colon => Validate::Drop,
            Lexem::Close(_) => Validate::DropBefore,
            Lexem::WhiteSpace => Validate::Drop,
        },
    }
}

/// The structural state a container delimiter opens.
fn state_of_paired(p: Paired) -> (s: State)
    ensures
        s == spec_state_of_paired(p),
{
    match p {
        Paired::Brace => State::Object,
        Paired::Bracket => State::Array,
        Paired::File => State::File,
    }
}

/// Consults the repair table.
fn validate(state: State, lexem: Lexem) -> (v: Validate)
    ensures
        v == spec_validate(state, lexem),
{
    match state {
        State::File => match lexem {
            Lexem::Close(Paired::File) => Validate::Take(State::File),
            Lexem::Open(p) => Validate::Take(state_of_paired(p)),
            Lexem::String | Lexem::Else => Validate::Take(State::Value),
            _ => Validate::Drop,
        },
        State::Array => match lexem {
            Lexem::Comma | Lexem::Colon => Validate::Drop,
            Lexem::String | Lexem::Else => Validate::Push(State::Value),
            Lexem::Open(p) => Validate::Push(state_of_paired(p)),
            Lexem::Close(Paired::Bracket) => Validate::Take(State::Value),
            Lexem::Close(_) => Validate::Insert(Lexem::Close(Paired::Bracket)),
            Lexem::WhiteSpace => Validate::Drop,
        },
        State::Object => match lexem {
            Lexem::Comma | Lexem::Colon => Validate::Drop,
            Lexem::String | Lexem::Else => Validate::Push(State::Key),
            Lexem::Open(p) => Validate::Push(state_of_paired(p)),
            Lexem::Close(Paired::Brace) => Validate::Take(State::Value),
            Lexem::Close(_) => Validate::Insert(Lexem::Close(Paired::Brace)),
            Lexem::WhiteSpace => Validate::Drop,
        },
        State::Value => match lexem {
            Lexem::Comma => Validate::Take(State::Comma),
            Lexem::Colon => Validate::Drop,
            Lexem::String | Lexem::Else | Lexem::Open(_) => Validate::Insert(Lexem::Comma),
            Lexem::Close(_) => Validate::Pop,
            Lexem::WhiteSpace => Validate::Drop,
        },
        State::Key => match lexem {
            Lexem::Close(Paired::Bracket) | Lexem::Comma => Validate::Drop,
            Lexem::Colon => Validate::Take(State::Colon),
            Lexem::Open(_) | Lexem::Close(_) | Lexem::Else | Lexem::String => Validate::Insert(
                Lexem::Colon,
            ),
            Lexem::WhiteSpace => Validate::Drop,
        },
        State::Colon => match lexem {
            Lexem::String | Lexem::Else => Validate::Take(State::Value),
            Lexem::Comma | Lexem::Colon => Validate::Drop,
            Lexem::Open(p) => Validate::Take(state_of_paired(p)),
            Lexem::Close(Paired::Bracket) => Validate::Insert(Lexem::Open(Paired::Bracket)),
            Lexem::Close(_) => Validate::Insert(Lexem::Open(Paired::Brace)),
            Lexem::WhiteSpace => Validate::Drop,
        },
        State::Comma => match lexem {
            Lexem::Open(_) | Lexem::String | Lexem::Else => Validate::Pop,
            Lexem::Comma | Lexem::Colon => Validate::Drop,
            Lexem::Close(_) => Validate::DropBefore,
            Lexem::WhiteSpace => Validate::Drop,
        },
    }
}

/// The state the repair table consults: the top of the stack, or `File` when
/// the stack is empty.
pub open spec fn top_state(states: Seq<State>) -> State {
    if states.len() == 0 {
        State::File
    } else {
        states.last()
    }
}

/// The stack after replacing its top (a pop that may hit the empty stack,
/// then a push).
pub open spec fn pop_push(states: Seq<State>, s: State) -> Seq<State> {
    if states.len() == 0 {
        states.push(s)
    } else {
        states.drop_last().push(s)
    }
}

/// A bound on how many tokens the repair loop can synthesize in a row while
/// the stack keeps its height; used as a termination measure.
pub open spec fn state_rank(s: State) -> nat {
    match s {
        State::File => 0,
        State::Comma => 0,
        State::Value => 1,
        State::Array => 2,
        State::Object => 2,
        State::Colon => 3,
        State::Key => 4,
    }
}

/// The delayed token as a (zero- or one-element) output sequence.
pub open spec fn opt_token_seq(delay: Option<TokenModel>) -> Seq<TokenModel> {
    match delay {
        None => Seq::empty(),
        Some(t) => seq![t],
    }
}

/// What one run of the repair loop leaves behind.
#[verifier::ext_equal]
pub ghost struct DrainOut {
    /// The stack after the loop.
    pub states: Seq<State>,
    /// The delay slot after the loop.
    pub delay: Option<TokenModel>,
    /// The tokens dislodged from the delay slot, in order.
    pub out: Seq<TokenModel>,
    /// Whitespace of a dropped token, returned to the pending buffer.
    pub give_back: Seq<u8>,
}

/// The repair loop on one incoming token.
///
/// The table is consulted with the top state.  `Push`, `Take` and `Drop`
/// consume the token; `Pop` and `DropBefore` shrink the stack and re-examine
/// it; `Insert` synthesizes a token which the same state immediately accepts
/// with a `Take`.  Consumed tokens pass through the delay slot, whose
/// previous occupant moves to the output.
pub open spec fn drain(states: Seq<State>, delay: Option<TokenModel>, t: TokenModel) -> DrainOut
    decreases states.len(), state_rank(top_state(states)),
{
    match spec_validate(top_state(states), t.lexem) {
        Validate::Push(s) => DrainOut {
            states: states.push(s),
            delay: Some(t),
            out: opt_token_seq(delay),
            give_back: Seq::empty(),
        },
        Validate::Take(s) => DrainOut {
            states: pop_push(states, s),
            delay: Some(t),
            out: opt_token_seq(delay),
            give_back: Seq::empty(),
        },
        Validate::Pop => {
            if states.len() == 0 {
                DrainOut { states, delay, out: Seq::empty(), give_back: t.whitespace_before }
            } else {
                drain(states.drop_last(), delay, t)
            }
        },
        Validate::Insert(l) => {
            if states.len() == 0 {
                DrainOut { states, delay, out: Seq::empty(), give_back: t.whitespace_before }
            } else {
                match spec_validate(top_state(states), l) {
                    Validate::Take(s) => {
                        let rest = drain(pop_push(states, s), Some(spec_token_of_lexem(l)), t);
                        DrainOut {
                            states: rest.states,
                            delay: rest.delay,
                            out: opt_token_seq(delay) + rest.out,
                            give_back: rest.give_back,
                        }
                    },
                    _ => DrainOut {
                        states,
                        delay,
                        out: Seq::empty(),
                        give_back: t.whitespace_before,
                    },
                }
            }
        },
        Validate::Drop => DrainOut {
            states,
            delay,
            out: Seq::empty(),
            give_back: t.whitespace_before,
        },
        Validate::DropBefore => {
            if states.len() == 0 {
                DrainOut { states, delay, out: Seq::empty(), give_back: t.whitespace_before }
            } else {
                let folded = TokenModel {
                    lexem: t.lexem,
                    whitespace_before: match delay {
                        None => t.whitespace_before,
                        Some(d) => d.whitespace_before + t.whitespace_before,
                    },
                    value: t.value,
                };
                drain(states.drop_last(), None, folded)
            }
        },
    }
}

/// The mathematical state of the parser.
#[verifier::ext_equal]
pub ghost struct ParserModel {
    /// Pending whitespace, to be attached to the next token.
    pub whitespace: Seq<u8>,
    /// The stack of structural states; its bottom is implicitly `File`.
    pub states: Seq<State>,
    /// The one-token look-behind buffer.
    pub delay: Option<TokenModel>,
}

/// The view of an optional delayed token.
pub open spec fn opt_view(d: Option<Token>) -> Option<TokenModel> {
    match d {
        None => None,
        Some(t) => Some(t@),
    }
}

/// The views of a produced token sequence.
pub open spec fn tokens_view(s: Seq<Token>) -> Seq<TokenModel> {
    s.map_values(|t: Token| t@)
}

/// One call of the parser on a lexeme: whitespace accumulates silently;
/// anything else becomes a token carrying the drained whitespace buffer and
/// runs through the repair loop.
pub open spec fn parse_step(p: ParserModel, lexem: Lexem, value: Seq<u8>) -> (ParserModel, Seq<
    TokenModel,
>) {
    if lexem is WhiteSpace {
        (
            ParserModel { whitespace: p.whitespace + value, states: p.states, delay: p.delay },
            Seq::empty(),
        )
    } else {
        let t = TokenModel { lexem, whitespace_before: p.whitespace, value };
        let d = drain(p.states, p.delay, t);
        (ParserModel { whitespace: d.give_back, states: d.states, delay: d.delay }, d.out)
    }
}

/// Whenever the table says `Insert(l)`, the same state accepts `l` itself
/// with a `Take`, so the repair loop never stalls on a synthesized token.
pub proof fn lemma_insert_take(state: State, lexem: Lexem)
    ensures
        spec_validate(state, lexem) matches Validate::Insert(l) ==> spec_validate(
            state,
            l,
        ) matches Validate::Take(s) && state_rank(s) < state_rank(state),
{
}

/// The `File` row only drops or takes: with an empty stack the repair loop
/// neither pops nor inserts.
pub proof fn lemma_file_row(lexem: Lexem)
    ensures
        !(spec_validate(State::File, lexem) is Pop),
        !(spec_validate(State::File, lexem) is DropBefore),
        !(spec_validate(State::File, lexem) is Insert),
        !(spec_validate(State::File, lexem) is Push),
{
}

/// The whitespace carried by a possibly delayed token.
pub open spec fn opt_ws(delay: Option<TokenModel>) -> Seq<u8> {
    match delay {
        None => Seq::empty(),
        Some(t) => t.whitespace_before,
    }
}

/// The whitespace carried by a token sequence, in order.
pub open spec fn out_ws(toks: Seq<TokenModel>) -> Seq<u8>
    decreases toks.len(),
{
    if toks.len() == 0 {
        Seq::empty()
    } else {
        toks[0].whitespace_before + out_ws(toks.skip(1))
    }
}

/// `out_ws` distributes over concatenation.
proof fn lemma_out_ws_concat(a: Seq<TokenModel>, b: Seq<TokenModel>)
    ensures
        out_ws(a + b) == out_ws(a) + out_ws(b),
    decreases a.len(),
{
    if a.len() == 0 {
        assert(a + b =~= b);
        assert(out_ws(a) + out_ws(b) =~= out_ws(b));
    } else {
        assert((a + b).skip(1) =~= a.skip(1) + b);
        lemma_out_ws_concat(a.skip(1), b);
        assert(out_ws(a + b) =~= out_ws(a) + out_ws(b));
    }
}

/// The whitespace of an optional token, seen as a one-token sequence.
proof fn lemma_out_ws_opt(delay: Option<TokenModel>)
    ensures
        out_ws(opt_token_seq(delay)) == opt_ws(delay),
{
    match delay {
        None => {},
        Some(t) => {
            let s = opt_token_seq(delay);
            assert(s.len() == 1 && s[0] == t);
            assert(s.skip(1) =~= Seq::<TokenModel>::empty());
            assert(out_ws(s) == s[0].whitespace_before + out_ws(s.skip(1)));
            assert(out_ws(Seq::<TokenModel>::empty()) == Seq::<u8>::empty());
            assert(t.whitespace_before + Seq::<u8>::empty() =~= t.whitespace_before);
        },
    }
}

/// The repair loop never loses a whitespace byte: the whitespace carried by
/// the tokens it moves to the output, by the new delay slot, and by the
/// pending buffer together are exactly the whitespace that came in, in
/// order.
pub proof fn lemma_drain_whitespace(states: Seq<State>, delay: Option<TokenModel>, t: TokenModel)
    ensures
        ({
            let d = drain(states, delay, t);
            out_ws(d.out) + opt_ws(d.delay) + d.give_back == opt_ws(delay) + t.whitespace_before
        }),
    decreases states.len(), state_rank(top_state(states)),
{
    let d = drain(states, delay, t);
    match spec_validate(top_state(states), t.lexem) {
        Validate::Push(s) => {
            lemma_out_ws_opt(delay);
            assert(out_ws(d.out) + opt_ws(d.delay) + d.give_back =~= opt_ws(delay)
                + t.whitespace_before);
        },
        Validate::Take(s) => {
            lemma_out_ws_opt(delay);
            assert(out_ws(d.out) + opt_ws(d.delay) + d.give_back =~= opt_ws(delay)
                + t.whitespace_before);
        },
        Validate::Pop => {
            if states.len() == 0 {
                assert(out_ws(d.out) + opt_ws(d.delay) + d.give_back =~= opt_ws(delay)
                    + t.whitespace_before);
            } else {
                lemma_drain_whitespace(states.drop_last(), delay, t);
                assert(out_ws(d.out) + opt_ws(d.delay) + d.give_back =~= opt_ws(delay)
                    + t.whitespace_before);
            }
        },
        Validate::Insert(l) => {
            if states.len() == 0 {
                assert(out_ws(d.out) + opt_ws(d.delay) + d.give_back =~= opt_ws(delay)
                    + t.whitespace_before);
            } else {
                match spec_validate(top_state(states), l) {
                    Validate::Take(s) => {
                        lemma_insert_take(top_state(states), t.lexem);
                        let rest = drain(pop_push(states, s), Some(spec_token_of_lexem(l)), t);
                        lemma_drain_whitespace(pop_push(states, s), Some(spec_token_of_lexem(l)), t);
                        lemma_out_ws_concat(opt_token_seq(delay), rest.out);
                        lemma_out_ws_opt(delay);
                        assert(out_ws(d.out) + opt_ws(d.delay) + d.give_back =~= opt_ws(delay)
                            + t.whitespace_before);
                    },
                    _ => {
                        assert(out_ws(d.out) + opt_ws(d.delay) + d.give_back =~= opt_ws(delay)
                            + t.whitespace_before);
                    },
                }
            }
        },
        Validate::Drop => {
            assert(out_ws(d.out) + opt_ws(d.delay) + d.give_back =~= opt_ws(delay)
                + t.whitespace_before);
        },
        Validate::DropBefore => {
            if states.len() == 0 {
                assert(out_ws(d.out) + opt_ws(d.delay) + d.give_back =~= opt_ws(delay)
                    + t.whitespace_before);
            } else {
                let folded = TokenModel {
                    lexem: t.lexem,
                    whitespace_before: match delay {
                        None => t.whitespace_before,
                        Some(dd) => dd.whitespace_before + t.whitespace_before,
                    },
                    value: t.value,
                };
                lemma_drain_whitespace(states.drop_last(), None, folded);
                assert(out_ws(d.out) + opt_ws(d.delay) + d.give_back =~= opt_ws(delay)
                    + t.whitespace_before);
            }
        },
    }
}

/// Whitespace preservation: one parser call neither loses nor reorders
/// whitespace.  What the produced tokens carry, what the delay slot holds,
/// and what stays pending together are exactly what was delayed, pending and
/// incoming before the call, in input order.
pub proof fn lemma_parse_whitespace(p: ParserModel, lexem: Lexem, value: Seq<u8>)
    ensures
        ({
            let (p2, out) = parse_step(p, lexem, value);
            out_ws(out) + opt_ws(p2.delay) + p2.whitespace == opt_ws(p.delay) + p.whitespace + (
            if lexem is WhiteSpace {
                value
            } else {
                Seq::<u8>::empty()
            })
        }),
{
    let (p2, out) = parse_step(p, lexem, value);
    if lexem is WhiteSpace {
        assert(out_ws(out) + opt_ws(p2.delay) + p2.whitespace =~= opt_ws(p.delay) + p.whitespace
            + value);
    } else {
        let t = TokenModel { lexem, whitespace_before: p.whitespace, value };
        lemma_drain_whitespace(p.states, p.delay, t);
        assert(out_ws(out) + opt_ws(p2.delay) + p2.whitespace =~= opt_ws(p.delay) + p.whitespace
            + Seq::<u8>::empty());
    }
}

/// Whether a state stands for an open container.
pub open spec fn is_container(s: State) -> bool {
    s is Object || s is Array
}

/// How many open containers the stack holds.
pub open spec fn container_count(states: Seq<State>) -> int
    decreases states.len(),
{
    if states.len() == 0 {
        0
    } else {
        container_count(states.drop_last()) + if is_container(states.last()) {
            1int
        } else {
            0int
        }
    }
}

/// The nesting contribution of a token: `+1` for an open delimiter, `-1`
/// for a close, `0` for everything else (file markers included).
pub open spec fn token_balance(l: Lexem) -> int {
    match l {
        Lexem::Open(Paired::Brace) | Lexem::Open(Paired::Bracket) => 1,
        Lexem::Close(Paired::Brace) | Lexem::Close(Paired::Bracket) => -1,
        _ => 0,
    }
}

/// The nesting contribution of a token sequence.
pub open spec fn seq_balance(toks: Seq<TokenModel>) -> int
    decreases toks.len(),
{
    if toks.len() == 0 {
        0
    } else {
        token_balance(toks[0].lexem) + seq_balance(toks.skip(1))
    }
}

/// The nesting contribution of a possibly delayed token.
pub open spec fn opt_balance(delay: Option<TokenModel>) -> int {
    match delay {
        None => 0,
        Some(t) => token_balance(t.lexem),
    }
}

/// Everything below the top of the stack is an open container; transient
/// states live only at the top.
pub open spec fn stack_wf(states: Seq<State>) -> bool {
    forall|i: int| 0 <= i < states.len() - 1 ==> is_container(#[trigger] states[i])
}

/// The parser's structural invariant: the stack is well formed, and while a
/// comma is awaited the delay slot holds no delimiter (it holds the comma
/// that a later close may retract).
pub open spec fn parser_wf(p: ParserModel) -> bool {
    &&& stack_wf(p.states)
    &&& top_state(p.states) is Comma ==> opt_balance(p.delay) == 0
}

/// A well-formed stack holds at most one transient state, so its height is
/// at most one more than its container count.
proof fn lemma_stack_wf_count(states: Seq<State>)
    requires
        stack_wf(states),
    ensures
        container_count(states) >= states.len() - 1,
        container_count(states) >= 0,
    decreases states.len(),
{
    if states.len() > 0 {
        assert(stack_wf(states.drop_last())) by {
            assert(forall|i: int|
                0 <= i < states.drop_last().len() - 1 ==> states.drop_last()[i] == states[i]);
        }
        lemma_stack_wf_count(states.drop_last());
        if states.len() >= 2 {
            assert(is_container(states[states.len() - 2]));
            assert(states.drop_last().last() == states[states.len() - 2]);
            assert(container_count(states.drop_last()) >= states.drop_last().len() - 1 + 1) by {
                lemma_container_count_last(states.drop_last());
            }
        }
    }
}

/// A well-formed stack whose top is a container has as many containers as
/// elements.
proof fn lemma_container_count_last(states: Seq<State>)
    requires
        stack_wf(states),
        states.len() > 0,
        is_container(states.last()),
    ensures
        container_count(states) >= states.len(),
    decreases states.len(),
{
    if states.len() == 1 {
        assert(states.drop_last().len() == 0);
        assert(container_count(states.drop_last()) == 0);
    } else {
        assert(stack_wf(states.drop_last())) by {
            assert(forall|i: int|
                0 <= i < states.drop_last().len() - 1 ==> states.drop_last()[i] == states[i]);
        }
        assert(states.drop_last().last() == states[states.len() - 2]);
        assert(is_container(states[states.len() - 2]));
        lemma_container_count_last(states.drop_last());
    }
}

/// The balance of an optional token as a one-token sequence.
proof fn lemma_seq_balance_opt(delay: Option<TokenModel>)
    ensures
        seq_balance(opt_token_seq(delay)) == opt_balance(delay),
{
    match delay {
        None => {},
        Some(t) => {
            let s = opt_token_seq(delay);
            assert(s.len() == 1 && s[0] == t);
            assert(s.skip(1) =~= Seq::<TokenModel>::empty());
            assert(seq_balance(s) == token_balance(t.lexem) + seq_balance(s.skip(1)));
        },
    }
}

/// `seq_balance` distributes over concatenation.
proof fn lemma_seq_balance_concat(a: Seq<TokenModel>, b: Seq<TokenModel>)
    ensures
        seq_balance(a + b) == seq_balance(a) + seq_balance(b),
    decreases a.len(),
{
    if a.len() == 0 {
        assert(a + b =~= b);
    } else {
        assert((a + b).skip(1) =~= a.skip(1) + b);
        lemma_seq_balance_concat(a.skip(1), b);
    }
}

/// Replacing the top of a well-formed stack keeps it well formed and
/// changes the container count by the difference of the two tops.
proof fn lemma_pop_push_count(states: Seq<State>, s: State)
    requires
        states.len() > 0,
    ensures
        container_count(pop_push(states, s)) == container_count(states) + (if is_container(s) {
            1int
        } else {
            0int
        }) - (if is_container(states.last()) {
            1int
        } else {
            0int
        }),
        stack_wf(states) ==> stack_wf(pop_push(states, s)),
        top_state(pop_push(states, s)) == s,
{
    assert(pop_push(states, s).drop_last() =~= states.drop_last());
    assert(forall|i: int|
        0 <= i < pop_push(states, s).len() - 1 ==> pop_push(states, s)[i] == states[i]);
}

/// The repair loop keeps the stack well formed, and the containers it opens
/// or closes on the stack are exactly the open and close delimiters among
/// the tokens it hands on: the stack never grows past the nesting depth of
/// what is emitted.
#[verifier::rlimit(60)]
pub proof fn lemma_drain_balance(states: Seq<State>, delay: Option<TokenModel>, t: TokenModel)
    requires
        stack_wf(states),
        top_state(states) is Comma ==> opt_balance(delay) == 0,
    ensures
        ({
            let d = drain(states, delay, t);
            &&& stack_wf(d.states)
            &&& top_state(d.states) is Comma ==> opt_balance(d.delay) == 0
            &&& container_count(d.states) == container_count(states) + seq_balance(d.out)
                + opt_balance(d.delay) - opt_balance(delay)
        }),
    decreases states.len(), state_rank(top_state(states)),
{
    let d = drain(states, delay, t);
    match spec_validate(top_state(states), t.lexem) {
        Validate::Push(s) => {
            lemma_seq_balance_opt(delay);
            assert(d.states.drop_last() =~= states);
            assert(forall|i: int| 0 <= i < d.states.len() - 1 ==> d.states[i] == states[i]);
        },
        Validate::Take(s) => {
            lemma_seq_balance_opt(delay);
            if states.len() == 0 {
                assert(d.states.drop_last() =~= states);
            } else {
                lemma_pop_push_count(states, s);
            }
        },
        Validate::Pop => {
            if states.len() > 0 {
                assert(stack_wf(states.drop_last())) by {
                    assert(forall|i: int|
                        0 <= i < states.drop_last().len() - 1 ==> states.drop_last()[i]
                            == states[i]);
                }
                assert(top_state(states.drop_last()) !is Comma) by {
                    if states.len() >= 2 {
                        assert(is_container(states[states.len() - 2]));
                        assert(states.drop_last().last() == states[states.len() - 2]);
                    }
                }
                lemma_drain_balance(states.drop_last(), delay, t);
                assert(!is_container(states.last()));
            }
        },
        Validate::Insert(l) => {
            if states.len() > 0 {
                match spec_validate(top_state(states), l) {
                    Validate::Take(s) => {
                        lemma_insert_take(top_state(states), t.lexem);
                        lemma_pop_push_count(states, s);
                        lemma_drain_balance(pop_push(states, s), Some(spec_token_of_lexem(l)), t);
                        let rest = drain(pop_push(states, s), Some(spec_token_of_lexem(l)), t);
                        lemma_seq_balance_concat(opt_token_seq(delay), rest.out);
                        lemma_seq_balance_opt(delay);
                    },
                    _ => {},
                }
            }
        },
        Validate::Drop => {},
        Validate::DropBefore => {
            if states.len() > 0 {
                assert(stack_wf(states.drop_last())) by {
                    assert(forall|i: int|
                        0 <= i < states.drop_last().len() - 1 ==> states.drop_last()[i]
                            == states[i]);
                }
                assert(top_state(states.drop_last()) !is Comma) by {
                    if states.len() >= 2 {
                        assert(is_container(states[states.len() - 2]));
                        assert(states.drop_last().last() == states[states.len() - 2]);
                    }
                }
                let folded = TokenModel {
                    lexem: t.lexem,
                    whitespace_before: match delay {
                        None => t.whitespace_before,
                        Some(dd) => dd.whitespace_before + t.whitespace_before,
                    },
                    value: t.value,
                };
                lemma_drain_balance(states.drop_last(), None, folded);
                assert(!is_container(states.last()));
            }
        },
    }
}

/// The `File` state never sits above anything: it can only be the whole
/// stack.  This holds throughout any run whose lexemes come from the lexer,
/// which never produces an open file marker.
pub open spec fn lone_file(states: Seq<State>) -> bool {
    top_state(states) is File ==> states.len() <= 1
}

/// The repair loop preserves stack well-formedness and the lone-file shape,
/// as long as the incoming lexeme is not an open file marker (the lexer
/// produces none).
pub proof fn lemma_drain_lone_file(states: Seq<State>, delay: Option<TokenModel>, t: TokenModel)
    requires
        stack_wf(states),
        lone_file(states),
        t.lexem != Lexem::Open(Paired::File),
    ensures
        ({
            let d = drain(states, delay, t);
            stack_wf(d.states) && lone_file(d.states)
        }),
    decreases states.len(), state_rank(top_state(states)),
{
    let d = drain(states, delay, t);
    match spec_validate(top_state(states), t.lexem) {
        Validate::Push(s) => {
            assert(is_container(top_state(states)));
            assert(!(s is File));
            assert(d.states.drop_last() =~= states);
            assert(forall|i: int| 0 <= i < d.states.len() - 1 ==> d.states[i] == states[i]);
        },
        Validate::Take(s) => {
            if states.len() == 0 {
                assert(d.states =~= Seq::<State>::empty().push(s));
            } else {
                lemma_pop_push_count(states, s);
                if s is File {
                    assert(top_state(states) is File);
                    assert(states.len() <= 1);
                    assert(d.states.len() <= 1);
                }
            }
        },
        Validate::Pop => {
            if states.len() > 0 {
                assert(stack_wf(states.drop_last())) by {
                    assert(forall|i: int|
                        0 <= i < states.drop_last().len() - 1 ==> states.drop_last()[i]
                            == states[i]);
                }
                assert(lone_file(states.drop_last())) by {
                    if states.len() >= 2 {
                        assert(is_container(states[states.len() - 2]));
                        assert(states.drop_last().last() == states[states.len() - 2]);
                    }
                }
                lemma_drain_lone_file(states.drop_last(), delay, t);
            }
        },
        Validate::Insert(l) => {
            if states.len() > 0 {
                match spec_validate(top_state(states), l) {
                    Validate::Take(s) => {
                        lemma_insert_take(top_state(states), t.lexem);
                        lemma_pop_push_count(states, s);
                        assert(!(s is File));
                        lemma_drain_lone_file(pop_push(states, s), Some(spec_token_of_lexem(l)), t);
                    },
                    _ => {},
                }
            }
        },
        Validate::Drop => {},
        Validate::DropBefore => {
            if states.len() > 0 {
                assert(stack_wf(states.drop_last())) by {
                    assert(forall|i: int|
                        0 <= i < states.drop_last().len() - 1 ==> states.drop_last()[i]
                            == states[i]);
                }
                assert(lone_file(states.drop_last())) by {
                    if states.len() >= 2 {
                        assert(is_container(states[states.len() - 2]));
                        assert(states.drop_last().last() == states[states.len() - 2]);
                    }
                }
                let folded = TokenModel {
                    lexem: t.lexem,
                    whitespace_before: match delay {
                        None => t.whitespace_before,
                        Some(dd) => dd.whitespace_before + t.whitespace_before,
                    },
                    value: t.value,
                };
                lemma_drain_lone_file(states.drop_last(), None, folded);
            }
        },
    }
}

/// One parser call preserves stack well-formedness and the lone-file shape,
/// as long as the incoming lexeme is not an open file marker.
pub proof fn lemma_parse_lone_file(p: ParserModel, lexem: Lexem, value: Seq<u8>)
    requires
        stack_wf(p.states),
        lone_file(p.states),
        lexem != Lexem::Open(Paired::File),
    ensures
        ({
            let (p2, out) = parse_step(p, lexem, value);
            stack_wf(p2.states) && lone_file(p2.states)
        }),
{
    if !(lexem is WhiteSpace) {
        let t = TokenModel { lexem, whitespace_before: p.whitespace, value };
        lemma_drain_lone_file(p.states, p.delay, t);
    }
}

/// Feeding the end-of-stream marker balances the stack: the repair loop
/// synthesizes whatever closers are missing, and the machine comes back to
/// top level with no container left open.
pub proof fn lemma_close_file_balances(states: Seq<State>, delay: Option<TokenModel>, t: TokenModel)
    requires
        stack_wf(states),
        top_state(states) is File ==> states.len() <= 1,
        t.lexem == Lexem::Close(Paired::File),
    ensures
        ({
            let d = drain(states, delay, t);
            container_count(d.states) == 0 && d.states.len() <= 1
        }),
    decreases states.len(), state_rank(top_state(states)),
{
    let d = drain(states, delay, t);
    match spec_validate(top_state(states), t.lexem) {
        Validate::Push(s) => {
            assert(false);
        },
        Validate::Take(s) => {
            assert(top_state(states) is File && s is File);
            assert(d.states.len() == 1 && !is_container(d.states.last()));
            assert(d.states.drop_last() =~= Seq::<State>::empty());
            assert(container_count(Seq::<State>::empty()) == 0);
            assert(container_count(d.states) == 0);
        },
        Validate::Pop => {
            assert(stack_wf(states.drop_last())) by {
                assert(forall|i: int|
                    0 <= i < states.drop_last().len() - 1 ==> states.drop_last()[i] == states[i]);
            }
            assert(top_state(states.drop_last()) is File ==> states.drop_last().len() <= 1) by {
                if states.len() >= 2 {
                    assert(is_container(states[states.len() - 2]));
                    assert(states.drop_last().last() == states[states.len() - 2]);
                }
            }
            lemma_close_file_balances(states.drop_last(), delay, t);
        },
        Validate::Insert(l) => {
            match spec_validate(top_state(states), l) {
                Validate::Take(s) => {
                    lemma_insert_take(top_state(states), t.lexem);
                    lemma_pop_push_count(states, s);
                    assert(top_state(pop_push(states, s)) is File ==> pop_push(
                        states,
                        s,
                    ).len() <= 1) by {
                        assert(!(s is File));
                    }
                    lemma_close_file_balances(pop_push(states, s), Some(spec_token_of_lexem(l)), t);
                },
                _ => {
                    assert(false);
                },
            }
        },
        Validate::Drop => {
            assert(top_state(states) is File);
            assert(states.len() <= 1);
            if states.len() == 1 {
                assert(!is_container(states.last()));
                assert(container_count(states.drop_last()) == 0);
            }
        },
        Validate::DropBefore => {
            assert(stack_wf(states.drop_last())) by {
                assert(forall|i: int|
                    0 <= i < states.drop_last().len() - 1 ==> states.drop_last()[i] == states[i]);
            }
            assert(top_state(states.drop_last()) is File ==> states.drop_last().len() <= 1) by {
                if states.len() >= 2 {
                    assert(is_container(states[states.len() - 2]));
                    assert(states.drop_last().last() == states[states.len() - 2]);
                }
            }
            let folded = TokenModel {
                lexem: t.lexem,
                whitespace_before: match delay {
                    None => t.whitespace_before,
                    Some(dd) => dd.whitespace_before + t.whitespace_before,
                },
                value: t.value,
            };
            lemma_close_file_balances(states.drop_last(), None, folded);
        },
    }
}

/// Bounded state: a parser call preserves the structural invariant; the
/// containers it opens or closes on the stack are exactly the open and
/// close delimiters among the tokens it produces or delays, and the stack
/// height stays within one of its container count — so the stack is never
/// deeper than one more than the nesting depth of the output built so far.
pub proof fn lemma_parse_bounded_state(p: ParserModel, lexem: Lexem, value: Seq<u8>)
    requires
        parser_wf(p),
    ensures
        ({
            let (p2, out) = parse_step(p, lexem, value);
            &&& parser_wf(p2)
            &&& container_count(p2.states) - container_count(p.states) == seq_balance(out)
                + opt_balance(p2.delay) - opt_balance(p.delay)
            &&& p2.states.len() <= container_count(p2.states) + 1
        }),
{
    let (p2, out) = parse_step(p, lexem, value);
    if lexem is WhiteSpace {
        lemma_stack_wf_count(p.states);
    } else {
        let t = TokenModel { lexem, whitespace_before: p.whitespace, value };
        lemma_drain_balance(p.states, p.delay, t);
        lemma_stack_wf_count(p2.states);
    }
}

/// The push-down repairing validator.
#[derive(Debug)]
pub struct Parser {
    /// Pending whitespace, drained into the next token.
    whitespace: Vec<u8>,
    /// The stack of structural states.
    states: Vec<State>,
    /// The one-token look-behind buffer.
    delay: Option<Token>,
}

impl View for Parser {
    type V = ParserModel;

    closed spec fn view(&self) -> ParserModel {
        ParserModel { whitespace: self.whitespace@, states: self.states@, delay: opt_view(self.delay) }
    }
}

impl Default for Parser {
    /// A parser at top level with nothing pending.
    fn default() -> (r: Self)
        ensures
            r@ == (ParserModel {
                whitespace: Seq::<u8>::empty(),
                states: Seq::<State>::empty(),
                delay: None::<TokenModel>,
            }),
    {
        Parser { whitespace: Vec::new(), states: Vec::new(), delay: None }
    }
}

impl Parser {
    /// Moves a consumed token into the delay slot, dislodging its previous
    /// occupant into the output.
    fn emit(&mut self, t: Token, result: &mut Vec<Token>)
        ensures
            final(self)@ == (ParserModel { delay: Some(t@), ..old(self)@ }),
            tokens_view(final(result)@) == tokens_view(old(result)@) + opt_token_seq(opt_view(
                old(self).delay,
            )),
    {
        if let Some(d) = self.delay.take() {
            result.push(d);
        }
        self.delay = Some(t);
        proof {
            assert(tokens_view(final(result)@) =~= tokens_view(old(result)@) + opt_token_seq(
                opt_view(old(self).delay),
            ));
        }
    }

    /// Feeds one lexeme; returns the canonical tokens the repair loop
    /// dislodged, in order.
    #[verifier::loop_isolation(false)]
    pub fn parse(&mut self, lexem: Lexem, value: Vec<u8>) -> (r: Vec<Token>)
        ensures
            (final(self)@, tokens_view(r@)) == parse_step(old(self)@, lexem, value@),
    {
        let mut result: Vec<Token> = Vec::new();
        if matches!(lexem, Lexem::WhiteSpace) {
            let mut value = value;
            self.whitespace.append(&mut value);
            return result;
        }
        let mut ws: Vec<u8> = Vec::new();
        core::mem::swap(&mut ws, &mut self.whitespace);
        let mut cur = Token { lexem, whitespace_before: ws, value };
        let ghost goal = drain(old(self)@.states, old(self)@.delay, cur@);
        loop
            invariant
                self.whitespace@ == Seq::<u8>::empty(),
                !(cur@.lexem is WhiteSpace),
                goal == (DrainOut {
                    out: tokens_view(result@) + drain(self@.states, self@.delay, cur@).out,
                    ..drain(self@.states, self@.delay, cur@)
                }),
            decreases self@.states.len(), state_rank(top_state(self@.states)),
        {
            let ghost pre = self@;
            let ghost dpre = drain(pre.states, pre.delay, cur@);
            let top = if self.states.len() == 0 {
                State::File
            } else {
                self.states[self.states.len() - 1]
            };
            assert(top == top_state(pre.states));
            match validate(top, cur.lexem) {
                Validate::Push(st) => {
                    self.states.push(st);
                    self.emit(cur, &mut result);
                    proof {
                        assert(self@ =~= (ParserModel {
                            whitespace: dpre.give_back,
                            states: dpre.states,
                            delay: dpre.delay,
                        }));
                        assert(tokens_view(result@) =~= goal.out);
                        assert(self@ =~= parse_step(old(self)@, lexem, value@).0);
                    }
                    return result;
                },
                Validate::Take(st) => {
                    if self.states.len() > 0 {
                        self.states.pop();
                    }
                    self.states.push(st);
                    self.emit(cur, &mut result);
                    proof {
                        assert(self@.states =~= pop_push(pre.states, st));
                        assert(self@ =~= (ParserModel {
                            whitespace: dpre.give_back,
                            states: dpre.states,
                            delay: dpre.delay,
                        }));
                        assert(tokens_view(result@) =~= goal.out);
                        assert(self@ =~= parse_step(old(self)@, lexem, value@).0);
                    }
                    return result;
                },
                Validate::Pop => {
                    proof {
                        lemma_file_row(cur@.lexem);
                        assert(pre.states.len() > 0);
                    }
                    self.states.pop();
                    proof {
                        assert(self@.states =~= pre.states.drop_last());
                        assert(drain(self@.states, self@.delay, cur@) == dpre);
                    }
                },
                Validate::Insert(l) => {
                    proof {
                        lemma_file_row(cur@.lexem);
                        assert(pre.states.len() > 0);
                        lemma_insert_take(top, cur@.lexem);
                    }
                    let it = Token::from_lexem(l);
                    match validate(top, l) {
                        Validate::Take(st) => {
                            if self.states.len() > 0 {
                                self.states.pop();
                            }
                            self.states.push(st);
                            self.emit(it, &mut result);
                            proof {
                                assert(self@.states =~= pop_push(pre.states, st));
                                let rest = drain(pop_push(pre.states, st), Some(it@), cur@);
                                assert(drain(self@.states, self@.delay, cur@) == rest);
                                assert(goal.out =~= tokens_view(result@) + rest.out);
                                assert(state_rank(top_state(self@.states)) < state_rank(
                                    top_state(pre.states),
                                ));
                            }
                        },
                        _ => {
                            proof {
                                assert(false);
                            }
                        },
                    }
                },
                Validate::Drop => {
                    self.whitespace = cur.whitespace_before;
                    proof {
                        assert(self@ =~= (ParserModel {
                            whitespace: dpre.give_back,
                            states: dpre.states,
                            delay: dpre.delay,
                        }));
                        assert(tokens_view(result@) =~= goal.out);
                        assert(self@ =~= parse_step(old(self)@, lexem, value@).0);
                    }
                    return result;
                },
                Validate::DropBefore => {
                    proof {
                        lemma_file_row(cur@.lexem);
                        assert(pre.states.len() > 0);
                    }
                    self.states.pop();
                    if let Some(t) = self.delay.take() {
                        let mut w = t.whitespace_before;
                        let mut cw: Vec<u8> = Vec::new();
                        core::mem::swap(&mut cw, &mut cur.whitespace_before);
                        w.append(&mut cw);
                        cur.whitespace_before = w;
                    }
                    proof {
                        assert(self@.states =~= pre.states.drop_last());
                        assert(drain(self@.states, self@.delay, cur@) == dpre);
                    }
                },
            }
        }
    }
}

} // verus!
