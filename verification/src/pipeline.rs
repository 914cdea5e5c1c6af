//! The in-memory pipeline: reader bytes through lexer and parser to
//! canonical JSON bytes.
//!
//! The whole run is a pure function of the input bytes, captured by
//! [`process_spec`]: no clock, no randomness, no environment enters it.

use vstd::prelude::*;

use crate::chunks::ChunkReader;
use crate::lexer::{lexer_step, spec_classify, Lexem, Lexer, LexerModel, Paired};
use crate::parser::{
    parse_step, spec_render, tokens_view, Parser, ParserModel, Token, TokenModel,
};

verus! {

/// The serialization of a token sequence, in order.
pub open spec fn render_all(toks: Seq<TokenModel>) -> Seq<u8>
    decreases toks.len(),
{
    if toks.len() == 0 {
        Seq::empty()
    } else {
        spec_render(toks[0]) + render_all(toks.skip(1))
    }
}

/// The joint state of a pipeline run: the lexer, the parser, and the bytes
/// written so far.
#[verifier::ext_equal]
pub ghost struct PipeModel {
    /// The lexer state.
    pub lexer: LexerModel,
    /// The parser state.
    pub parser: ParserModel,
    /// The output bytes emitted so far.
    pub out: Seq<u8>,
}

/// The pipeline before any byte has been fed.
pub open spec fn pipe_init() -> PipeModel {
    PipeModel {
        lexer: LexerModel { state: Seq::empty(), lexem: None },
        parser: ParserModel { whitespace: Seq::empty(), states: Seq::empty(), delay: None },
        out: Seq::empty(),
    }
}

/// One input byte through the pipeline: the lexer takes the byte, and any
/// completed lexeme runs through the parser, whose tokens are serialized.
pub open spec fn pipe_byte(m: PipeModel, c: u8) -> PipeModel {
    let (lx, emitted) = lexer_step(m.lexer, c);
    match emitted {
        None => PipeModel { lexer: lx, parser: m.parser, out: m.out },
        Some(p) => {
            let (pm, toks) = parse_step(m.parser, p.0, p.1);
            PipeModel { lexer: lx, parser: pm, out: m.out + render_all(toks) }
        },
    }
}

/// The pipeline after a byte sequence has been fed.
pub open spec fn pipe_run(input: Seq<u8>) -> PipeModel
    decreases input.len(),
{
    if input.len() == 0 {
        pipe_init()
    } else {
        pipe_byte(pipe_run(input.drop_last()), input.last())
    }
}

/// One terminator lexeme through the parser of a pipeline state.
pub open spec fn pipe_terminator(m: PipeModel) -> PipeModel {
    let (pm, toks) = parse_step(m.parser, Lexem::Close(Paired::File), Seq::empty());
    PipeModel { lexer: m.lexer, parser: pm, out: m.out + render_all(toks) }
}

/// The canonical JSON bytes for an input byte sequence.
///
/// The input is followed by the sentinel zero byte, which makes the lexer
/// flush its buffer and the parser balance its stack; two terminator
/// lexemes then drain the parser's delay slot.
pub open spec fn process_spec(input: Seq<u8>) -> Seq<u8> {
    pipe_terminator(pipe_terminator(pipe_run(input.push(0)))).out
}

/// Bounded state over a whole run: after any input prefix, the parser's
/// structural invariant holds and its stack is never deeper than one more
/// than the number of containers it has opened and not yet closed — the
/// nesting depth of the output under construction.
pub proof fn lemma_pipe_run_bounded(input: Seq<u8>)
    ensures
        crate::parser::parser_wf(pipe_run(input).parser),
        pipe_run(input).parser.states.len() <= crate::parser::container_count(
            pipe_run(input).parser.states,
        ) + 1,
    decreases input.len(),
{
    if input.len() == 0 {
        assert(crate::parser::container_count(pipe_run(input).parser.states) == 0);
    } else {
        lemma_pipe_run_bounded(input.drop_last());
        let prev = pipe_run(input.drop_last());
        let (lx, emitted) = lexer_step(prev.lexer, input.last());
        match emitted {
            None => {},
            Some(p) => {
                crate::parser::lemma_parse_bounded_state(prev.parser, p.0, p.1);
            },
        }
    }
}

/// What the lexer may hold mid-run: it never buffers an open file marker,
/// so it never emits one either.
pub open spec fn lexer_run_ok(m: LexerModel) -> bool {
    m.lexem matches Some(l) ==> l != Lexem::Open(Paired::File)
}

/// Over any run, the lexer never emits an open file marker, and the parser
/// keeps its stack well formed with the `File` state only ever alone.
pub proof fn lemma_pipe_run_shape(input: Seq<u8>)
    ensures
        lexer_run_ok(pipe_run(input).lexer),
        crate::parser::stack_wf(pipe_run(input).parser.states),
        crate::parser::lone_file(pipe_run(input).parser.states),
    decreases input.len(),
{
    if input.len() > 0 {
        lemma_pipe_run_shape(input.drop_last());
        let prev = pipe_run(input.drop_last());
        let c = input.last();
        let (lx, emitted) = lexer_step(prev.lexer, c);
        assert(spec_classify(c) != Lexem::Open(Paired::File));
        match emitted {
            None => {},
            Some(p) => {
                assert(p.0 != Lexem::Open(Paired::File));
                crate::parser::lemma_parse_lone_file(prev.parser, p.0, p.1);
            },
        }
    }
}

/// Every run ends balanced: once the sentinel byte and the terminator
/// lexemes have gone through, no container is left open — each open
/// delimiter among the produced tokens has been matched by a close, and the
/// machine is back at top level.
pub proof fn lemma_process_ends_balanced(input: Seq<u8>)
    ensures
        ({
            let m = pipe_terminator(pipe_terminator(pipe_run(input.push(0))));
            crate::parser::container_count(m.parser.states) == 0 && m.parser.states.len() <= 1
        }),
{
    lemma_pipe_run_shape(input.push(0));
    let m0 = pipe_run(input.push(0));
    let t1 = TokenModel {
        lexem: Lexem::Close(Paired::File),
        whitespace_before: m0.parser.whitespace,
        value: Seq::empty(),
    };
    crate::parser::lemma_close_file_balances(m0.parser.states, m0.parser.delay, t1);
    crate::parser::lemma_drain_lone_file(m0.parser.states, m0.parser.delay, t1);
    let m1 = pipe_terminator(m0);
    let t2 = TokenModel {
        lexem: Lexem::Close(Paired::File),
        whitespace_before: m1.parser.whitespace,
        value: Seq::empty(),
    };
    crate::parser::lemma_close_file_balances(m1.parser.states, m1.parser.delay, t2);
}

/// Serializes a token sequence onto `out`.
fn render_tokens(toks: Vec<Token>, out: &mut Vec<u8>)
    ensures
        final(out)@ == old(out)@ + render_all(tokens_view(toks@)),
{
    let mut toks = toks;
    let ghost all = tokens_view(toks@);
    let ghost mut done: int = 0;
    proof {
        assert(all.skip(0) =~= all);
    }
    while toks.len() > 0
        invariant
            0 <= done <= all.len(),
            tokens_view(toks@) =~= all.skip(done),
            toks@.len() == all.len() - done,
            out@ + render_all(all.skip(done)) == old(out)@ + render_all(all),
        decreases toks@.len(),
    {
        let ghost before = toks@;
        let t = toks.remove(0);
        proof {
            assert(tokens_view(before).skip(1) =~= tokens_view(toks@));
            assert(all.skip(done)[0] == t@);
            assert(all.skip(done).skip(1) =~= all.skip(done + 1));
        }
        let mut piece = t.render();
        out.append(&mut piece);
        proof {
            done = done + 1;
        }
    }
    proof {
        assert(all.skip(done) =~= Seq::<TokenModel>::empty());
        assert(out@ =~= old(out)@ + render_all(all));
    }
}

/// Feeds one byte through the lexer and the parser, serializing whatever
/// tokens come out.
fn feed(lexer: &mut Lexer, parser: &mut Parser, out: &mut Vec<u8>, c: u8)
    ensures
        (PipeModel { lexer: final(lexer)@, parser: final(parser)@, out: final(out)@ }) == pipe_byte(
            PipeModel { lexer: old(lexer)@, parser: old(parser)@, out: old(out)@ },
            c,
        ),
{
    match lexer.process(c) {
        Some(p) => {
            let toks = parser.parse(p.0, p.1);
            render_tokens(toks, out);
        },
        None => {},
    }
}

/// Ends the stream: the sentinel zero byte makes the lexer flush and the
/// parser balance its stack; two terminator lexemes drain the delay slot.
fn finish(lexer: &mut Lexer, parser: &mut Parser, out: &mut Vec<u8>)
    ensures
        final(out)@ == pipe_terminator(
            pipe_terminator(
                pipe_byte(
                    PipeModel { lexer: old(lexer)@, parser: old(parser)@, out: old(out)@ },
                    0,
                ),
            ),
        ).out,
{
    feed(lexer, parser, out, 0);
    let toks = parser.parse(Lexem::Close(Paired::File), Vec::new());
    render_tokens(toks, out);
    let toks = parser.parse(Lexem::Close(Paired::File), Vec::new());
    render_tokens(toks, out);
}

/// Runs the whole repair pipeline over an in-memory byte sequence.
///
/// Every input produces a result; the result is a pure function of the
/// input bytes alone.
pub fn process_bytes(input: &[u8]) -> (r: Vec<u8>)
    ensures
        r@ == process_spec(input@),
{
    let mut lexer = Lexer::default();
    let mut parser = Parser::default();
    let mut out: Vec<u8> = Vec::new();
    let mut i: usize = 0;
    proof {
        assert(input@.take(0) =~= Seq::<u8>::empty());
    }
    while i < input.len()
        invariant
            i <= input@.len(),
            pipe_run(input@.take(i as int)) == (PipeModel {
                lexer: lexer@,
                parser: parser@,
                out: out@,
            }),
        decreases input@.len() - i,
    {
        let c = input[i];
        proof {
            assert(input@.take(i + 1).drop_last() =~= input@.take(i as int));
            assert(input@.take(i + 1).last() == c);
        }
        feed(&mut lexer, &mut parser, &mut out, c);
        i = i + 1;
    }
    proof {
        assert(input@.take(input@.len() as int) =~= input@);
        assert(input@.push(0).drop_last() =~= input@);
        assert(input@.push(0).last() == 0u8);
    }
    finish(&mut lexer, &mut parser, &mut out);
    out
}

/// Runs the repair pipeline from a chunked byte source into a byte sink.
///
/// The result appended to `writer` is exactly what [`process_bytes`] gives
/// on the source's bytes: the chunking never shows.  A reader with chunk
/// size zero yields nothing, so the empty input is processed.
pub fn process_streams(reader: ChunkReader, writer: &mut Vec<u8>)
    ensures
        final(writer)@ == old(writer)@ + process_spec(
            if reader.chunk_size() == 0 {
                Seq::<u8>::empty()
            } else {
                reader.remaining()
            },
        ),
{
    let ghost input: Seq<u8> = if reader.chunk_size() == 0 {
        Seq::<u8>::empty()
    } else {
        reader.remaining()
    };
    let mut reader = reader;
    let mut lexer = Lexer::default();
    let mut parser = Parser::default();
    let mut out: Vec<u8> = Vec::new();
    let ghost mut consumed: Seq<u8> = Seq::empty();
    proof {
        assert(consumed + reader.remaining() =~= reader.remaining());
        assert(pipe_run(consumed) == (PipeModel { lexer: lexer@, parser: parser@, out: out@ }));
    }
    loop
        invariant_except_break
            reader.chunk_size() == 0 ==> consumed == input,
            reader.chunk_size() > 0 ==> consumed + reader.remaining() == input,
            pipe_run(consumed) == (PipeModel { lexer: lexer@, parser: parser@, out: out@ }),
        ensures
            consumed == input,
            pipe_run(consumed) == (PipeModel { lexer: lexer@, parser: parser@, out: out@ }),
        decreases reader.remaining().len(),
    {
        let ghost rem = reader.remaining();
        match reader.next_chunk() {
            None => {
                proof {
                    if reader.chunk_size() > 0 {
                        assert(consumed + reader.remaining() =~= consumed);
                    }
                }
                break ;
            },
            Some(chunk) => {
                let mut j: usize = 0;
                proof {
                    assert(consumed + chunk@.take(0) =~= consumed);
                }
                while j < chunk.len()
                    invariant
                        j <= chunk@.len(),
                        pipe_run(consumed + chunk@.take(j as int)) == (PipeModel {
                            lexer: lexer@,
                            parser: parser@,
                            out: out@,
                        }),
                    decreases chunk@.len() - j,
                {
                    let c = chunk[j];
                    proof {
                        assert((consumed + chunk@.take(j + 1)).drop_last() =~= consumed
                            + chunk@.take(j as int));
                        assert((consumed + chunk@.take(j + 1)).last() == c);
                    }
                    feed(&mut lexer, &mut parser, &mut out, c);
                    j = j + 1;
                }
                proof {
                    assert(chunk@.take(chunk@.len() as int) =~= chunk@);
                    let n = if reader.chunk_size() < rem.len() {
                        reader.chunk_size() as int
                    } else {
                        rem.len() as int
                    };
                    assert(chunk@ =~= rem.take(n));
                    assert(rem.take(n) + rem.skip(n) =~= rem);
                    consumed = consumed + chunk@;
                    assert(consumed + reader.remaining() =~= input);
                }
            },
        }
    }
    proof {
        assert(consumed.push(0).drop_last() =~= consumed);
        assert(consumed.push(0).last() == 0u8);
    }
    finish(&mut lexer, &mut parser, &mut out);
    let mut out = out;
    writer.append(&mut out);
}

} // verus!
