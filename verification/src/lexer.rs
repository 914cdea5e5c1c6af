//! Byte-driven lexer and lexeme normalizer.
//!
//! The lexer consumes input one byte at a time, buffers runs of equivalent
//! bytes, and emits `(Lexem, original bytes)` pairs at lexeme boundaries.
//! The normalizer ([`fix_lexem`]) turns such a pair into its canonical JSON
//! byte form: quote fixing, bareword reclassification, escaping.

use vstd::prelude::*;

verus! {

/// A bracket family: braces, brackets, or the synthetic file boundary.
#[derive(Debug, Clone, Copy, Eq, PartialEq, Structural)]
pub enum Paired {
    /// `[` and `]`; `(` and `)` are coerced here as well.
    Bracket,
    /// `{` and `}`.
    Brace,
    /// The synthetic marker anchoring the start and end of the stream.
    File,
}

/// The closed alphabet of lexemes the lexer produces.
#[derive(Debug, Clone, Copy, Eq, PartialEq, Structural)]
pub enum Lexem {
    /// A quoted run, including its opening and closing quote bytes.
    String,
    /// An opening structural delimiter.
    Open(Paired),
    /// A closing structural delimiter; `\0` produces `Close(File)`.
    Close(Paired),
    /// A comma.
    Comma,
    /// A colon; produced by both `:` and `=`.
    Colon,
    /// Any maximal run of non-whitespace, non-structural, non-quote bytes.
    Else,
    /// Any maximal run of ASCII whitespace.
    WhiteSpace,
}

/// Which lexeme kind a single input byte belongs to.
pub open spec fn spec_classify(c: u8) -> Lexem {
    if c == 0x5b || c == 0x28 {
        Lexem::Open(Paired::Bracket)
    } else if c == 0x5d || c == 0x29 {
        Lexem::Close(Paired::Bracket)
    } else if c == 0x7b {
        Lexem::Open(Paired::Brace)
    } else if c == 0x7d {
        Lexem::Close(Paired::Brace)
    } else if c == 0x00 {
        Lexem::Close(Paired::File)
    } else if c == 0x2c {
        Lexem::Comma
    } else if c == 0x3a || c == 0x3d {
        Lexem::Colon
    } else if c == 0x27 || c == 0x22 || c == 0x60 {
        Lexem::String
    } else if is_ascii_whitespace(c) {
        Lexem::WhiteSpace
    } else {
        Lexem::Else
    }
}

/// ASCII whitespace: space, horizontal tab, newline, form feed, carriage return.
pub open spec fn is_ascii_whitespace(c: u8) -> bool {
    c == 0x20 || c == 0x09 || c == 0x0a || c == 0x0c || c == 0x0d
}

/// Maps one input byte to the kind of lexeme it belongs to.
///
/// `(` and `)` are coerced to brackets, `=` to a colon, and any of the three
/// quote kinds starts a string.
pub fn classify(c: u8) -> (l: Lexem)
    ensures
        l == spec_classify(c),
{
    match c {
        0x5b | 0x28 => Lexem::Open(Paired::Bracket),
        0x5d | 0x29 => Lexem::Close(Paired::Bracket),
        0x7b => Lexem::Open(Paired::Brace),
        0x7d => Lexem::Close(Paired::Brace),
        0x00 => Lexem::Close(Paired::File),
        0x2c => Lexem::Comma,
        0x3a | 0x3d => Lexem::Colon,
        0x27 | 0x22 | 0x60 => Lexem::String,
        0x20 | 0x09 | 0x0a | 0x0c | 0x0d => Lexem::WhiteSpace,
        _ => Lexem::Else,
    }
}

/// Whether consecutive bytes of this kind accumulate into one lexeme.
pub open spec fn spec_joinable(lexem: Lexem) -> bool {
    lexem is Else || lexem is String || lexem is WhiteSpace
}

/// Only `Else`, `String`, and `WhiteSpace` lexemes grow byte by byte;
/// structural kinds emit one lexeme per byte.
pub fn joinable(lexem: Lexem) -> (r: bool)
    ensures
        r == spec_joinable(lexem),
{
    matches!(lexem, Lexem::Else | Lexem::String | Lexem::WhiteSpace)
}

impl Default for Lexem {
    /// The default lexeme is the stream terminator.
    fn default() -> (r: Self)
        ensures
            r == Lexem::Close(Paired::File),
    {
        Self::Close(Paired::File)
    }
}

/// The canonical single byte of a structural lexeme, if it has one.
pub open spec fn spec_lexem_byte(l: Lexem) -> Option<u8> {
    match l {
        Lexem::String => Some(0x22),
        Lexem::Open(Paired::Bracket) => Some(0x5b),
        Lexem::Close(Paired::Bracket) => Some(0x5d),
        Lexem::Open(Paired::Brace) => Some(0x7b),
        Lexem::Close(Paired::Brace) => Some(0x7d),
        Lexem::Comma => Some(0x2c),
        Lexem::Colon => Some(0x3a),
        _ => None,
    }
}

/// The canonical serialization of a lexeme kind taken on its own:
/// one byte for the structural kinds, empty for everything else.
pub open spec fn spec_lexem_bytes(l: Lexem) -> Seq<u8> {
    match spec_lexem_byte(l) {
        Some(c) => seq![c],
        None => Seq::empty(),
    }
}

/// The canonical single byte of a structural lexeme (`[`, `]`, `{`, `}`,
/// `,`, `:`, or `"` for strings); `None` for the file markers, whitespace
/// and barewords.
pub fn lexem_byte(l: Lexem) -> (r: Option<u8>)
    ensures
        r == spec_lexem_byte(l),
{
    match l {
        Lexem::String => Some(0x22),
        Lexem::Open(Paired::Bracket) => Some(0x5b),
        Lexem::Close(Paired::Bracket) => Some(0x5d),
        Lexem::Open(Paired::Brace) => Some(0x7b),
        Lexem::Close(Paired::Brace) => Some(0x7d),
        Lexem::Comma => Some(0x2c),
        Lexem::Colon => Some(0x3a),
        _ => None,
    }
}

/// The canonical serialization of a lexeme kind as a byte vector.
pub fn lexem_bytes(l: Lexem) -> (r: Vec<u8>)
    ensures
        r@ == spec_lexem_bytes(l),
{
    let mut result: Vec<u8> = Vec::new();
    match lexem_byte(l) {
        Some(c) => {
            result.push(c);
        },
        None => {},
    }
    result
}

/// The escaping automaton applied to the bytes between the quotes of a
/// string.  `escaped` records a pending, not yet written, backslash.
///
/// A backslash only toggles the flag.  A double quote is always written as
/// `\"`.  A literal newline or carriage return is written as `\n` or `\r`
/// when no backslash is pending, as the bare letter otherwise, and leaves the
/// flag untouched.  Any other byte is written behind the pending backslash,
/// if any, and clears the flag.
pub open spec fn fix_str_inner(s: Seq<u8>, escaped: bool) -> Seq<u8>
    decreases s.len(),
{
    if s.len() == 0 {
        Seq::empty()
    } else {
        let c = s[0];
        let rest = s.skip(1);
        if c == 0x5c {
            fix_str_inner(rest, !escaped)
        } else if c == 0x22 {
            seq![0x5c, 0x22] + fix_str_inner(rest, false)
        } else if c == 0x0a {
            (if !escaped {
                seq![0x5c, 0x6e]
            } else {
                seq![0x6e]
            }) + fix_str_inner(rest, escaped)
        } else if c == 0x0d {
            (if !escaped {
                seq![0x5c, 0x72]
            } else {
                seq![0x72]
            }) + fix_str_inner(rest, escaped)
        } else {
            (if escaped {
                seq![0x5c, c]
            } else {
                seq![c]
            }) + fix_str_inner(rest, false)
        }
    }
}

/// The canonical JSON string for raw content `s`: the escaped content
/// wrapped in double quotes.
pub open spec fn spec_fix_str(s: Seq<u8>) -> Seq<u8> {
    seq![0x22] + fix_str_inner(s, false) + seq![0x22]
}

/// Re-emits raw string content as a double-quoted JSON string, escaping
/// double quotes and literal line breaks while keeping escape sequences that
/// are already present.
pub fn fix_str(s: &[u8]) -> (r: Vec<u8>)
    ensures
        r@ == spec_fix_str(s@),
{
    let mut result: Vec<u8> = Vec::new();
    result.push(0x22);
    let mut escaped = false;
    let mut i: usize = 0;
    proof {
        assert(s@.skip(0) =~= s@);
    }
    while i < s.len()
        invariant
            i <= s@.len(),
            seq![0x22u8] + fix_str_inner(s@, false) == result@ + fix_str_inner(
                s@.skip(i as int),
                escaped,
            ),
        decreases s@.len() - i,
    {
        let c = s[i];
        proof {
            assert(s@.skip(i as int)[0] == c);
            assert(s@.skip(i as int).skip(1) =~= s@.skip(i + 1));
        }
        if c == 0x5c {
            escaped = !escaped;
        } else if c == 0x22 {
            result.push(0x5c);
            result.push(0x22);
            escaped = false;
        } else if c == 0x0a {
            if !escaped {
                result.push(0x5c);
            }
            result.push(0x6e);
        } else if c == 0x0d {
            if !escaped {
                result.push(0x5c);
            }
            result.push(0x72);
        } else {
            if escaped {
                result.push(0x5c);
            }
            result.push(c);
            escaped = false;
        }
        i = i + 1;
    }
    proof {
        assert(s@.skip(i as int) =~= Seq::<u8>::empty());
    }
    result.push(0x22);
    assert(result@ =~= spec_fix_str(s@));
    result
}

/// A two-byte escape `\b` at the head of canonical output is reproduced
/// unchanged by the escaping automaton.
proof fn lemma_inner_esc_pair(b: u8, u: Seq<u8>)
    requires
        b != 0x5c,
        b != 0x0a,
        b != 0x0d,
    ensures
        fix_str_inner(seq![0x5c, b] + u, false) == seq![0x5c, b] + fix_str_inner(u, false),
{
    let s = seq![0x5cu8, b] + u;
    assert(s[0] == 0x5c);
    assert(s.skip(1) =~= seq![b] + u);
    let s1 = seq![b] + u;
    assert(s1[0] == b);
    assert(s1.skip(1) =~= u);
    assert(fix_str_inner(s, false) == fix_str_inner(s1, true));
    if b == 0x22 {
        assert(fix_str_inner(s1, true) == seq![0x5cu8, 0x22] + fix_str_inner(u, false));
    } else {
        assert(fix_str_inner(s1, true) == seq![0x5cu8, b] + fix_str_inner(u, false));
    }
}

/// A plain byte at the head of canonical output is reproduced unchanged by
/// the escaping automaton.
proof fn lemma_inner_plain(c: u8, u: Seq<u8>)
    requires
        c != 0x5c,
        c != 0x22,
        c != 0x0a,
        c != 0x0d,
    ensures
        fix_str_inner(seq![c] + u, false) == seq![c] + fix_str_inner(u, false),
{
    let s = seq![c] + u;
    assert(s[0] == c);
    assert(s.skip(1) =~= u);
}

/// The escaping automaton is idempotent: run on its own output it changes
/// nothing.
proof fn lemma_inner_canonical(s: Seq<u8>, escaped: bool)
    ensures
        fix_str_inner(fix_str_inner(s, escaped), false) == fix_str_inner(s, escaped),
    decreases s.len(),
{
    if s.len() == 0 {
    } else {
        let c = s[0];
        let rest = s.skip(1);
        if c == 0x5c {
            lemma_inner_canonical(rest, !escaped);
        } else if c == 0x22 {
            lemma_inner_canonical(rest, false);
            lemma_inner_esc_pair(0x22, fix_str_inner(rest, false));
        } else if c == 0x0a {
            lemma_inner_canonical(rest, escaped);
            if !escaped {
                lemma_inner_esc_pair(0x6e, fix_str_inner(rest, escaped));
                assert(fix_str_inner(s, escaped) =~= seq![0x5cu8, 0x6e] + fix_str_inner(
                    rest,
                    escaped,
                ));
            } else {
                lemma_inner_plain(0x6e, fix_str_inner(rest, escaped));
                assert(fix_str_inner(s, escaped) =~= seq![0x6eu8] + fix_str_inner(rest, escaped));
            }
        } else if c == 0x0d {
            lemma_inner_canonical(rest, escaped);
            if !escaped {
                lemma_inner_esc_pair(0x72, fix_str_inner(rest, escaped));
                assert(fix_str_inner(s, escaped) =~= seq![0x5cu8, 0x72] + fix_str_inner(
                    rest,
                    escaped,
                ));
            } else {
                lemma_inner_plain(0x72, fix_str_inner(rest, escaped));
                assert(fix_str_inner(s, escaped) =~= seq![0x72u8] + fix_str_inner(rest, escaped));
            }
        } else {
            lemma_inner_canonical(rest, false);
            if escaped {
                lemma_inner_esc_pair(c, fix_str_inner(rest, false));
                assert(fix_str_inner(s, escaped) =~= seq![0x5cu8, c] + fix_str_inner(rest, false));
            } else {
                lemma_inner_plain(c, fix_str_inner(rest, false));
                assert(fix_str_inner(s, escaped) =~= seq![c] + fix_str_inner(rest, false));
            }
        }
    }
}

/// Idempotence of string normalization: serializing a `String` lexeme whose
/// bytes are the fixer's own output returns those bytes unchanged.  Combined
/// with the passthrough of canonical barewords this is why a repaired
/// document survives a second run intact.
pub proof fn lemma_fix_str_stable(s: Seq<u8>)
    ensures
        spec_fix_lexem(Lexem::String, spec_fix_str(s)) == spec_fix_str(s),
{
    let fixed = spec_fix_str(s);
    let content = fix_str_inner(s, false);
    lemma_inner_canonical(s, false);
    if content.len() == 0 {
        assert(fixed.len() == 2);
        assert(spec_fix_lexem(Lexem::String, fixed) == spec_fix_str(Seq::<u8>::empty()));
        assert(fix_str_inner(Seq::<u8>::empty(), false) =~= content);
        assert(spec_fix_str(Seq::<u8>::empty()) =~= fixed);
    } else {
        assert(fixed.len() > 2);
        assert(fixed.subrange(1, fixed.len() - 1) =~= content);
        assert(spec_fix_str(content) =~= fixed);
    }
}

/// Idempotence of bareword normalization: a canonical literal (`null`,
/// `true`, `false`, or a numeric run) comes out of the bareword fixer
/// unchanged.
pub proof fn lemma_fix_else_stable(s: Seq<u8>)
    requires
        s == seq![0x6eu8, 0x75, 0x6c, 0x6c] || s == seq![0x74u8, 0x72, 0x75, 0x65] || s == seq![
            0x66u8,
            0x61,
            0x6c,
            0x73,
            0x65,
        ] || spec_is_numeric(s),
    ensures
        spec_fix_else(s) == s,
{
    assert(spec_lower(s).len() == s.len());
    assert(forall|i: int| 0 <= i < s.len() ==> spec_lower(s)[i] == spec_to_lower(s[i]));
    if s == seq![0x6eu8, 0x75, 0x6c, 0x6c] || s == seq![0x74u8, 0x72, 0x75, 0x65] || s == seq![
        0x66u8,
        0x61,
        0x6c,
        0x73,
        0x65,
    ] {
        assert(spec_lower(s) =~= s);
    } else {
        let low = spec_lower(s);
        assert(low[0] == spec_to_lower(s[0]));
        assert(low != seq![0x6eu8, 0x75, 0x6c, 0x6c] && low != seq![0x6eu8, 0x69, 0x6c] && low
            != seq![0x6eu8, 0x75, 0x6c] && low != seq![0x6eu8, 0x6f, 0x6e, 0x65] && low != seq![
            0x74u8,
            0x72,
            0x75,
            0x65,
        ] && low != seq![0x66u8, 0x61, 0x6c, 0x73, 0x65]);
    }
}

/// Whether the bytes look like a numeric literal: the first byte after an
/// optional single sign or dot is an ASCII digit.
pub open spec fn spec_is_numeric(s: Seq<u8>) -> bool {
    if s.len() == 0 {
        false
    } else if s[0] == 0x2b || s[0] == 0x2d || s[0] == 0x2e {
        s.len() >= 2 && is_ascii_digit(s[1])
    } else {
        is_ascii_digit(s[0])
    }
}

/// An ASCII decimal digit.
pub open spec fn is_ascii_digit(c: u8) -> bool {
    0x30 <= c <= 0x39
}

/// Whether the bytes are a plausible numeric literal; the empty run is not.
pub fn is_numeric(s: &[u8]) -> (r: bool)
    ensures
        r == spec_is_numeric(s@),
{
    if s.len() == 0 {
        false
    } else {
        let first = s[0];
        if first == 0x2b || first == 0x2d || first == 0x2e {
            if s.len() >= 2 {
                let second = s[1];
                0x30 <= second && second <= 0x39
            } else {
                false
            }
        } else {
            0x30 <= first && first <= 0x39
        }
    }
}

/// ASCII lowercasing of one byte.
pub open spec fn spec_to_lower(c: u8) -> u8 {
    if 0x41 <= c <= 0x5a {
        (c + 0x20) as u8
    } else {
        c
    }
}

/// ASCII lowercasing of a byte run.
pub open spec fn spec_lower(s: Seq<u8>) -> Seq<u8> {
    s.map_values(|c: u8| spec_to_lower(c))
}

/// The canonical form of a bareword run: the relaxed spellings of `null`,
/// `true` and `false` are canonicalized case-insensitively, numeric literals
/// pass through unchanged, and anything else is quoted as a JSON string.
pub open spec fn spec_fix_else(s: Seq<u8>) -> Seq<u8> {
    let low = spec_lower(s);
    if low == seq![0x6eu8, 0x75, 0x6c, 0x6c] || low == seq![0x6eu8, 0x69, 0x6c] || low == seq![
        0x6eu8,
        0x75,
        0x6c,
    ] || low == seq![0x6eu8, 0x6f, 0x6e, 0x65] {
        seq![0x6eu8, 0x75, 0x6c, 0x6c]
    } else if low == seq![0x74u8, 0x72, 0x75, 0x65] {
        seq![0x74u8, 0x72, 0x75, 0x65]
    } else if low == seq![0x66u8, 0x61, 0x6c, 0x73, 0x65] {
        seq![0x66u8, 0x61, 0x6c, 0x73, 0x65]
    } else if spec_is_numeric(s) {
        s
    } else {
        spec_fix_str(s)
    }
}

/// ASCII-lowercases a byte run.
fn to_lower(s: &[u8]) -> (r: Vec<u8>)
    ensures
        r@ == spec_lower(s@),
{
    let mut result: Vec<u8> = Vec::new();
    let mut i: usize = 0;
    while i < s.len()
        invariant
            i <= s@.len(),
            result@ == spec_lower(s@).take(i as int),
        decreases s@.len() - i,
    {
        let c = s[i];
        if 0x41 <= c && c <= 0x5a {
            result.push(c + 0x20);
        } else {
            result.push(c);
        }
        proof {
            assert(result@ =~= spec_lower(s@).take(i + 1));
        }
        i = i + 1;
    }
    proof {
        assert(spec_lower(s@).take(s@.len() as int) =~= spec_lower(s@));
    }
    result
}

/// Whether two byte runs hold the same bytes.
fn bytes_eq(a: &[u8], b: &[u8]) -> (r: bool)
    ensures
        r == (a@ == b@),
{
    if a.len() != b.len() {
        return false;
    }
    let mut i: usize = 0;
    while i < a.len()
        invariant
            i <= a@.len(),
            a@.len() == b@.len(),
            forall|j: int| 0 <= j < i ==> a@[j] == b@[j],
        decreases a@.len() - i,
    {
        if a[i] != b[i] {
            return false;
        }
        i = i + 1;
    }
    proof {
        assert(a@ =~= b@);
    }
    true
}

/// Canonicalizes a bareword run: `null`/`nil`/`nul`/`none` (in any case)
/// become `null`, `true` and `false` likewise; numeric literals pass through;
/// anything else is quoted as a JSON string.
pub fn fix_else(s: Vec<u8>) -> (r: Vec<u8>)
    ensures
        r@ == spec_fix_else(s@),
{
    let low = to_lower(s.as_slice());
    let null_word: Vec<u8> = vec![0x6e, 0x75, 0x6c, 0x6c];
    let nil_word: Vec<u8> = vec![0x6e, 0x69, 0x6c];
    let nul_word: Vec<u8> = vec![0x6e, 0x75, 0x6c];
    let none_word: Vec<u8> = vec![0x6e, 0x6f, 0x6e, 0x65];
    let true_word: Vec<u8> = vec![0x74, 0x72, 0x75, 0x65];
    let false_word: Vec<u8> = vec![0x66, 0x61, 0x6c, 0x73, 0x65];
    if bytes_eq(low.as_slice(), null_word.as_slice()) || bytes_eq(
        low.as_slice(),
        nil_word.as_slice(),
    ) || bytes_eq(low.as_slice(), nul_word.as_slice()) || bytes_eq(
        low.as_slice(),
        none_word.as_slice(),
    ) {
        null_word
    } else if bytes_eq(low.as_slice(), true_word.as_slice()) {
        true_word
    } else if bytes_eq(low.as_slice(), false_word.as_slice()) {
        false_word
    } else if is_numeric(s.as_slice()) {
        s
    } else {
        fix_str(s.as_slice())
    }
}

/// The canonical JSON bytes for a `(kind, original bytes)` pair.
///
/// Strings lose their original surrounding quote bytes and are re-emitted in
/// double quotes with proper escaping; barewords go through
/// [`spec_fix_else`]; structural kinds serialize to their canonical byte.
pub open spec fn spec_fix_lexem(lexem: Lexem, value: Seq<u8>) -> Seq<u8> {
    match lexem {
        Lexem::String => if value.len() > 2 {
            spec_fix_str(value.subrange(1, value.len() - 1))
        } else {
            spec_fix_str(Seq::empty())
        },
        Lexem::Else => spec_fix_else(value),
        _ => spec_lexem_bytes(lexem),
    }
}

/// The mathematical state of the lexer: the buffered bytes and the kind they
/// currently represent.
pub ghost struct LexerModel {
    /// The bytes accumulated since the last emission.
    pub state: Seq<u8>,
    /// The kind those bytes belong to; `None` right after an emission of a
    /// string or at the very start.
    pub lexem: Option<Lexem>,
}

/// One step of the lexer on one input byte: the successor state and the
/// lexeme emitted at a boundary, if any.
///
/// Inside a string, bytes accumulate until an unescaped byte equal to the
/// opening quote arrives; the emitted string includes both quotes.  Outside,
/// a byte of the same joinable kind accumulates, and any other byte emits
/// the buffer and starts a fresh one.
pub open spec fn lexer_step(m: LexerModel, c: u8) -> (LexerModel, Option<(Lexem, Seq<u8>)>) {
    if m.lexem == Some(Lexem::String) {
        let first = if m.state.len() > 0 {
            m.state[0]
        } else {
            0
        };
        let last = if m.state.len() > 0 {
            m.state.last()
        } else {
            0
        };
        let grown = m.state.push(c);
        if last != 0x5c && c == first {
            (LexerModel { state: Seq::empty(), lexem: None }, Some((Lexem::String, grown)))
        } else {
            (LexerModel { state: grown, lexem: Some(Lexem::String) }, None)
        }
    } else {
        let next = spec_classify(c);
        match m.lexem {
            None => (LexerModel { state: m.state.push(c), lexem: Some(next) }, None),
            Some(lexem) => {
                if spec_joinable(lexem) && lexem == next {
                    (LexerModel { state: m.state.push(c), lexem: Some(lexem) }, None)
                } else {
                    (LexerModel { state: seq![c], lexem: Some(next) }, Some((lexem, m.state)))
                }
            },
        }
    }
}

/// The lexer neither loses nor invents bytes: what one step emits, followed
/// by what stays buffered, is exactly what was buffered before plus the byte
/// that was fed.
pub proof fn lemma_lexer_conserves_bytes(m: LexerModel, c: u8)
    ensures
        ({
            let (m2, em) = lexer_step(m, c);
            (match em {
                None => Seq::<u8>::empty(),
                Some(p) => p.1,
            }) + m2.state == m.state.push(c)
        }),
{
    let (m2, em) = lexer_step(m, c);
    let emitted = match em {
        None => Seq::<u8>::empty(),
        Some(p) => p.1,
    };
    assert(emitted + m2.state =~= m.state.push(c));
}

/// The view of an emitted `(kind, bytes)` pair.
pub open spec fn emission_view(r: Option<(Lexem, Vec<u8>)>) -> Option<(Lexem, Seq<u8>)> {
    match r {
        None => None,
        Some(p) => Some((p.0, p.1@)),
    }
}

/// The single-byte state machine grouping raw input into lexemes.
#[derive(Debug)]
pub struct Lexer {
    /// The bytes accumulated since the last emission.
    state: Vec<u8>,
    /// The kind those bytes belong to.
    lexem: Option<Lexem>,
}

impl View for Lexer {
    type V = LexerModel;

    closed spec fn view(&self) -> LexerModel {
        LexerModel { state: self.state@, lexem: self.lexem }
    }
}

impl Default for Lexer {
    /// A lexer with an empty buffer.
    fn default() -> (r: Self)
        ensures
            r@ == (LexerModel { state: Seq::<u8>::empty(), lexem: None::<Lexem> }),
    {
        Lexer { state: Vec::new(), lexem: None }
    }
}

impl Lexer {
    /// Feeds one byte; returns the completed lexeme when a boundary has been
    /// crossed, covering all bytes since the previous emission (through the
    /// closing quote for strings, up to but not including `character`
    /// otherwise).
    pub fn process(&mut self, character: u8) -> (r: Option<(Lexem, Vec<u8>)>)
        ensures
            (final(self)@, emission_view(r)) == lexer_step(old(self)@, character),
    {
        if let Some(Lexem::String) = self.lexem {
            let first_char = if self.state.len() > 0 {
                self.state[0]
            } else {
                0
            };
            let last_char = if self.state.len() > 0 {
                self.state[self.state.len() - 1]
            } else {
                0
            };
            self.state.push(character);
            if last_char != 0x5c && character == first_char {
                self.lexem = None;
                let mut taken: Vec<u8> = Vec::new();
                core::mem::swap(&mut taken, &mut self.state);
                return Some((Lexem::String, taken));
            }
            return None;
        }
        let next = classify(character);
        let lexem = match self.lexem {
            None => {
                self.state.push(character);
                self.lexem = Some(next);
                return None;
            },
            Some(lexem) => lexem,
        };
        if joinable(lexem) && lexem == next {
            self.state.push(character);
            return None;
        }
        self.lexem = Some(next);
        let mut fresh: Vec<u8> = Vec::new();
        fresh.push(character);
        core::mem::swap(&mut fresh, &mut self.state);
        Some((lexem, fresh))
    }
}

/// Serializes a lexeme and its original bytes to canonical JSON bytes.
pub fn fix_lexem(lexem: Lexem, value: Vec<u8>) -> (r: Vec<u8>)
    ensures
        r@ == spec_fix_lexem(lexem, value@),
{
    match lexem {
        Lexem::String => {
            let mut content: Vec<u8> = Vec::new();
            if value.len() > 2 {
                let mut i: usize = 1;
                while i < value.len() - 1
                    invariant
                        value@.len() > 2,
                        1 <= i <= value@.len() - 1,
                        content@ == value@.subrange(1, i as int),
                    decreases value@.len() - i,
                {
                    content.push(value[i]);
                    proof {
                        assert(content@ =~= value@.subrange(1, i + 1));
                    }
                    i = i + 1;
                }
            }
            fix_str(content.as_slice())
        },
        Lexem::Else => fix_else(value),
        _ => lexem_bytes(lexem),
    }
}

} // verus!
