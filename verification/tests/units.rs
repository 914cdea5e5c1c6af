//! Unit tests for the lexer, the normalizer, the parser and the chunker.

use rekson::chunks::ChunkReader;
use rekson::lexer::{
    classify, fix_else, fix_lexem, fix_str, is_numeric, joinable, lexem_byte, lexem_bytes, Lexem,
    Lexer, Paired,
};
use rekson::parser::{Parser, Token};

#[test]
fn classify_coerces_bytes() {
    assert_eq!(classify(b'['), Lexem::Open(Paired::Bracket));
    assert_eq!(classify(b'('), Lexem::Open(Paired::Bracket));
    assert_eq!(classify(b')'), Lexem::Close(Paired::Bracket));
    assert_eq!(classify(b'{'), Lexem::Open(Paired::Brace));
    assert_eq!(classify(b'}'), Lexem::Close(Paired::Brace));
    assert_eq!(classify(0), Lexem::Close(Paired::File));
    assert_eq!(classify(b','), Lexem::Comma);
    assert_eq!(classify(b':'), Lexem::Colon);
    assert_eq!(classify(b'='), Lexem::Colon);
    assert_eq!(classify(b'\''), Lexem::String);
    assert_eq!(classify(b'"'), Lexem::String);
    assert_eq!(classify(b'`'), Lexem::String);
    assert_eq!(classify(b'\t'), Lexem::WhiteSpace);
    assert_eq!(classify(b'x'), Lexem::Else);
    assert_eq!(classify(b'7'), Lexem::Else);
}

#[test]
fn canonical_bytes_of_kinds() {
    assert_eq!(lexem_byte(Lexem::String), Some(b'"'));
    assert_eq!(lexem_byte(Lexem::Open(Paired::Brace)), Some(b'{'));
    assert_eq!(lexem_byte(Lexem::Open(Paired::File)), None);
    assert_eq!(lexem_byte(Lexem::WhiteSpace), None);
    assert_eq!(lexem_byte(Lexem::Else), None);
    assert_eq!(lexem_bytes(Lexem::Colon), vec![b':']);
    assert_eq!(lexem_bytes(Lexem::Close(Paired::File)), Vec::<u8>::new());
}

#[test]
fn default_lexeme_terminates_stream() {
    assert_eq!(Lexem::default(), Lexem::Close(Paired::File));
    let token = Token::default();
    assert_eq!(token.lexem, Lexem::Close(Paired::File));
    assert!(token.whitespace_before.is_empty());
    assert!(token.value.is_empty());
    assert_eq!(token.render(), Vec::<u8>::new());
}

#[test]
fn token_from_lexem_is_canonical() {
    let token = Token::from_lexem(Lexem::Comma);
    assert_eq!(token.lexem, Lexem::Comma);
    assert!(token.whitespace_before.is_empty());
    assert_eq!(token.value, b",".to_vec());
}

#[test]
fn joinable_kinds() {
    assert!(joinable(Lexem::Else));
    assert!(joinable(Lexem::String));
    assert!(joinable(Lexem::WhiteSpace));
    assert!(!joinable(Lexem::Comma));
    assert!(!joinable(Lexem::Colon));
    assert!(!joinable(Lexem::Open(Paired::Bracket)));
    assert!(!joinable(Lexem::Close(Paired::File)));
}

#[test]
fn fix_str_escapes() {
    assert_eq!(fix_str(b"abc"), b"\"abc\"".to_vec());
    assert_eq!(fix_str(b""), b"\"\"".to_vec());
    assert_eq!(fix_str(b"a\nb"), b"\"a\\nb\"".to_vec());
    assert_eq!(fix_str(b"a\rb"), b"\"a\\rb\"".to_vec());
    assert_eq!(fix_str(b"a\\nb"), b"\"a\\nb\"".to_vec());
    assert_eq!(fix_str(b"say \"hi\""), b"\"say \\\"hi\\\"\"".to_vec());
    // A backslash is only re-emitted together with the byte it escapes:
    // a lone pair of backslashes toggles the flag twice and vanishes.
    assert_eq!(fix_str(b"back\\\\slash"), b"\"backslash\"".to_vec());
    assert_eq!(fix_str(b"q\\\"end"), b"\"q\\\"end\"".to_vec());
}

#[test]
fn is_numeric_shapes() {
    assert!(is_numeric(b"1"));
    assert!(is_numeric(b"42x"));
    assert!(is_numeric(b"-1"));
    assert!(is_numeric(b"+2"));
    assert!(is_numeric(b".5"));
    assert!(!is_numeric(b""));
    assert!(!is_numeric(b"+"));
    assert!(!is_numeric(b"-a"));
    assert!(!is_numeric(b"x1"));
}

#[test]
fn fix_else_keywords() {
    assert_eq!(fix_else(b"null".to_vec()), b"null".to_vec());
    assert_eq!(fix_else(b"NIL".to_vec()), b"null".to_vec());
    assert_eq!(fix_else(b"nul".to_vec()), b"null".to_vec());
    assert_eq!(fix_else(b"None".to_vec()), b"null".to_vec());
    assert_eq!(fix_else(b"TruE".to_vec()), b"true".to_vec());
    assert_eq!(fix_else(b"FALSE".to_vec()), b"false".to_vec());
    assert_eq!(fix_else(b"12.5".to_vec()), b"12.5".to_vec());
    assert_eq!(fix_else(b"word".to_vec()), b"\"word\"".to_vec());
}

#[test]
fn fix_lexem_strips_and_serializes() {
    assert_eq!(fix_lexem(Lexem::String, b"'ab'".to_vec()), b"\"ab\"".to_vec());
    assert_eq!(fix_lexem(Lexem::String, b"''".to_vec()), b"\"\"".to_vec());
    assert_eq!(fix_lexem(Lexem::String, b"`x`".to_vec()), b"\"x\"".to_vec());
    assert_eq!(fix_lexem(Lexem::Else, b"nil".to_vec()), b"null".to_vec());
    assert_eq!(fix_lexem(Lexem::Open(Paired::Bracket), Vec::new()), b"[".to_vec());
    assert_eq!(fix_lexem(Lexem::Close(Paired::Brace), Vec::new()), b"}".to_vec());
    assert_eq!(fix_lexem(Lexem::Comma, Vec::new()), b",".to_vec());
    assert_eq!(fix_lexem(Lexem::Colon, Vec::new()), b":".to_vec());
    assert_eq!(fix_lexem(Lexem::Close(Paired::File), Vec::new()), Vec::<u8>::new());
}

#[test]
fn lexer_groups_runs() {
    let mut lexer = Lexer::default();
    assert_eq!(lexer.process(b'a'), None);
    assert_eq!(lexer.process(b'b'), None);
    let emitted = lexer.process(b'[');
    assert_eq!(emitted, Some((Lexem::Else, b"ab".to_vec())));
    let emitted = lexer.process(b' ');
    assert_eq!(emitted, Some((Lexem::Open(Paired::Bracket), b"[".to_vec())));
}

#[test]
fn lexer_string_machine() {
    let mut lexer = Lexer::default();
    assert_eq!(lexer.process(b'\''), None);
    assert_eq!(lexer.process(b'x'), None);
    // A quote of another kind stays literal inside the string.
    assert_eq!(lexer.process(b'"'), None);
    // An escaped closing quote does not close.
    assert_eq!(lexer.process(b'\\'), None);
    assert_eq!(lexer.process(b'\''), None);
    let emitted = lexer.process(b'\'');
    assert_eq!(emitted, Some((Lexem::String, b"'x\"\\''".to_vec())));
}

#[test]
fn lexer_sentinel_flushes() {
    let mut lexer = Lexer::default();
    assert_eq!(lexer.process(b'7'), None);
    assert_eq!(lexer.process(0), Some((Lexem::Else, b"7".to_vec())));
}

#[test]
fn token_new_and_render() {
    let token = Token::new(Lexem::Else, b"  ".to_vec(), b"nil".to_vec());
    assert_eq!(token.lexem, Lexem::Else);
    assert_eq!(token.whitespace_before, b"  ".to_vec());
    assert_eq!(token.value, b"nil".to_vec());
    assert_eq!(token.render(), b"  null".to_vec());
}

#[test]
fn parser_buffers_one_token() {
    let mut parser = Parser::default();
    // The first token goes to the delay slot, so nothing comes out yet.
    assert_eq!(parser.parse(Lexem::Open(Paired::Brace), b"{".to_vec()).len(), 0);
    // Whitespace only accumulates.
    assert_eq!(parser.parse(Lexem::WhiteSpace, b" ".to_vec()).len(), 0);
    // The key dislodges the brace.
    let out = parser.parse(Lexem::String, b"'k'".to_vec());
    assert_eq!(out.len(), 1);
    assert_eq!(out[0].lexem, Lexem::Open(Paired::Brace));
}

#[test]
fn parser_drops_leading_comma() {
    let mut parser = Parser::default();
    parser.parse(Lexem::Open(Paired::Bracket), b"[".to_vec());
    // A comma right after an open bracket is dropped...
    assert_eq!(parser.parse(Lexem::WhiteSpace, b" ".to_vec()).len(), 0);
    assert_eq!(parser.parse(Lexem::Comma, b",".to_vec()).len(), 0);
    // ...but its whitespace survives on the next token.
    let out = parser.parse(Lexem::Else, b"1".to_vec());
    assert_eq!(out.len(), 1);
    let close = parser.parse(Lexem::Close(Paired::Bracket), b"]".to_vec());
    assert_eq!(close.len(), 1);
    assert_eq!(close[0].whitespace_before, b" ".to_vec());
    assert_eq!(close[0].value, b"1".to_vec());
}

#[test]
fn chunker_hands_out_fixed_sizes() {
    let mut reader = ChunkReader::new(b"abcdefg".to_vec(), 3);
    assert_eq!(reader.next_chunk(), Some(b"abc".to_vec()));
    assert_eq!(reader.next_chunk(), Some(b"def".to_vec()));
    assert_eq!(reader.next_chunk(), Some(b"g".to_vec()));
    assert_eq!(reader.next_chunk(), None);
}

#[test]
fn chunker_with_zero_size_is_empty() {
    let mut reader = ChunkReader::new(b"abc".to_vec(), 0);
    assert_eq!(reader.next_chunk(), None);
}

#[test]
fn process_streams_matches_process_bytes() {
    let input = b"{,\"a\":3,\"b\"= 4,}".to_vec();
    for chunk_size in [1, 2, 3, 256] {
        let reader = ChunkReader::new(input.clone(), chunk_size);
        let mut written = Vec::new();
        rekson::pipeline::process_streams(reader, &mut written);
        assert_eq!(written, rekson::pipeline::process_bytes(&input));
    }
}

#[test]
fn process_streams_appends_to_writer() {
    let reader = ChunkReader::new(b"1 2".to_vec(), 2);
    let mut written = b"seen: ".to_vec();
    rekson::pipeline::process_streams(reader, &mut written);
    assert_eq!(written, b"seen: 1, 2".to_vec());
}

#[test]
fn process_bytes_handles_empty_input() {
    assert_eq!(rekson::pipeline::process_bytes(b""), Vec::<u8>::new());
}

#[test]
fn process_bytes_drops_unterminated_string() {
    // An unclosed quote swallows the rest of the input; the buffered string
    // never reaches the parser.
    assert_eq!(rekson::pipeline::process_bytes(b"[1,\"abc"), b"[1]".to_vec());
}

#[test]
fn process_bytes_closes_deep_nesting() {
    assert_eq!(rekson::pipeline::process_bytes(b"[[[["), b"[[[[]]]]".to_vec());
}
