use vstd::prelude::*;

use crate::error::ScanError;
use crate::native_function::{arith_of, Arith, Host};
use crate::text::{chars_of, concat2, push_char, string_of};
use crate::token::{Literal, Token, TokenType};

verus! {

broadcast use vstd::std_specs::vec::group_vec_axioms, vstd::seq::group_seq_axioms;

/// `c.is_digit(10)`.
pub open spec fn is_digit(c: char) -> bool {
    '0' <= c <= '9'
}

/// `c.is_ascii_alphabetic()`.
pub open spec fn is_alpha(c: char) -> bool {
    ('a' <= c <= 'z') || ('A' <= c <= 'Z')
}

/// `c.is_ascii_alphanumeric()`.
pub open spec fn is_alphanumeric(c: char) -> bool {
    is_alpha(c) || is_digit(c)
}

/// The first index at or after `i` whose character is not a digit.
pub open spec fn digits_end(src: Seq<char>, i: int) -> int
    decreases src.len() - i,
{
    if i < src.len() && is_digit(src[i]) {
        digits_end(src, i + 1)
    } else {
        i
    }
}

/// The first index at or after `i` whose character is not alphanumeric.
pub open spec fn alphanumeric_end(src: Seq<char>, i: int) -> int
    decreases src.len() - i,
{
    if i < src.len() && is_alphanumeric(src[i]) {
        alphanumeric_end(src, i + 1)
    } else {
        i
    }
}

/// The first index at or after `i` that holds `c`, or the length.
pub open spec fn find_char(src: Seq<char>, i: int, c: char) -> int
    decreases src.len() - i,
{
    if i < src.len() && src[i] != c {
        find_char(src, i + 1, c)
    } else {
        i
    }
}

/// How many line breaks `s` holds.
pub open spec fn newlines(s: Seq<char>) -> int
    decreases s.len(),
{
    if s.len() == 0 {
        0
    } else {
        newlines(s.drop_last()) + if s.last() == '\n' { 1int } else { 0int }
    }
}

/// The words that are keywords, with their token types.
pub open spec fn keyword_table() -> Seq<(Seq<char>, TokenType)> {
    seq![
        ("and"@, TokenType::And),
        ("class"@, TokenType::Class),
        ("else"@, TokenType::Else),
        ("false"@, TokenType::False),
        ("for"@, TokenType::For),
        ("fun"@, TokenType::Fun),
        ("if"@, TokenType::If),
        ("nil"@, TokenType::Nil),
        ("or"@, TokenType::Or),
        ("print"@, TokenType::Print),
        ("return"@, TokenType::Return),
        ("super"@, TokenType::Super),
        ("this"@, TokenType::This),
        ("true"@, TokenType::True),
        ("var"@, TokenType::Var),
        ("while"@, TokenType::While),
    ]
}

/// The token type of the first entry of `table` from `i` on whose word is
/// `text`.
pub open spec fn keyword_from(table: Seq<(Seq<char>, TokenType)>, i: int, text: Seq<char>) -> Option<TokenType>
    decreases table.len() - i,
{
    if i >= table.len() || i < 0 {
        None
    } else if table[i].0 == text {
        Some(table[i].1)
    } else {
        keyword_from(table, i + 1, text)
    }
}

/// The keyword that `text` is, if it is one.
pub open spec fn keyword(text: Seq<char>) -> Option<TokenType> {
    keyword_from(keyword_table(), 0, text)
}

/// The first byte of the UTF-8 encoding of `c`.
pub open spec fn first_utf8_byte(c: char) -> u8 {
    let v = c as u32;
    if v < 0x80 {
        v as u8
    } else if v < 0x800 {
        (0xC0u32 | (v >> 6u32)) as u8
    } else if v < 0x10000 {
        (0xE0u32 | (v >> 12u32)) as u8
    } else {
        (0xF0u32 | (v >> 18u32)) as u8
    }
}

/// The message for a character that starts no token; the character shown is
/// the first byte of its encoding, read as a character.
pub open spec fn unexpected_message(c: char) -> Seq<char> {
    "Unexpected character '"@ + seq![first_utf8_byte(c) as char] + "'"@
}

/// What the scanner does at one position.
pub enum ScanStep {
    /// A token of this type ends before `end`; the line after it.
    Token(TokenType, int, int),
    /// Nothing is emitted; scanning goes on at `end` on this line.
    Skip(int, int),
    /// A lexical error with its message, on this line.
    Error(Seq<char>, int),
    /// The scanner reads past the end of the source.
    Crash,
}

/// A token as positions in the source: its type, where its text starts and
/// ends, and its line.
pub struct Lexeme {
    pub token_type: TokenType,
    pub start: int,
    pub end: int,
    pub line: int,
}

/// What scanning from a position gives.
pub enum ScanOutcome {
    /// The tokens up to the end, and the last line.
    Done(Seq<Lexeme>, int),
    /// The tokens before an error, the line of the error and its message.
    Failed(Seq<Lexeme>, int, Seq<char>),
    /// The scanner reads past the end of the source.
    Crash,
}

/// The step for a one or two character operator: `two` when `c2` follows.
pub open spec fn one_or_two(src: Seq<char>, cur: int, line: int, c2: char, one: TokenType, two: TokenType) -> ScanStep {
    if cur + 1 < src.len() && src[cur + 1] == c2 {
        ScanStep::Token(two, cur + 2, line)
    } else {
        ScanStep::Token(one, cur + 1, line)
    }
}

/// The step for a number literal that starts at `cur`.
pub open spec fn number_step(src: Seq<char>, cur: int, line: int) -> ScanStep {
    let d = digits_end(src, cur + 1);
    if d < src.len() && src[d] == '.' {
        if d + 1 == src.len() {
            ScanStep::Crash
        } else if is_digit(src[d + 1]) {
            ScanStep::Token(TokenType::Number, digits_end(src, d + 1), line)
        } else {
            ScanStep::Token(TokenType::Number, d, line)
        }
    } else {
        ScanStep::Token(TokenType::Number, d, line)
    }
}

/// The step for a string literal whose opening quote is at `cur`.
pub open spec fn string_step(src: Seq<char>, cur: int, line: int) -> ScanStep {
    let q = find_char(src, cur + 1, '"');
    let line2 = line + newlines(src.subrange(cur + 1, q));
    if q >= src.len() {
        ScanStep::Error("Unterminated string."@, line2)
    } else {
        ScanStep::Token(TokenType::String, q + 1, line2)
    }
}

/// The step for an identifier or keyword that starts at `cur`.
pub open spec fn word_step(src: Seq<char>, cur: int, line: int) -> ScanStep {
    let e = alphanumeric_end(src, cur + 1);
    match keyword(src.subrange(cur, e)) {
        Some(t) => ScanStep::Token(t, e, line),
        None => ScanStep::Token(TokenType::Identifier, e, line),
    }
}

/// What the scanner does with the character at `cur` (which is in range).
pub open spec fn scan_step(src: Seq<char>, cur: int, line: int) -> ScanStep {
    let c = src[cur];
    if c == '(' {
        ScanStep::Token(TokenType::LeftParen, cur + 1, line)
    } else if c == ')' {
        ScanStep::Token(TokenType::RightParen, cur + 1, line)
    } else if c == '{' {
        ScanStep::Token(TokenType::LeftBrace, cur + 1, line)
    } else if c == '}' {
        ScanStep::Token(TokenType::RightBrace, cur + 1, line)
    } else if c == ',' {
        ScanStep::Token(TokenType::Comma, cur + 1, line)
    } else if c == '.' {
        ScanStep::Token(TokenType::Dot, cur + 1, line)
    } else if c == '-' {
        ScanStep::Token(TokenType::Minus, cur + 1, line)
    } else if c == '+' {
        ScanStep::Token(TokenType::Plus, cur + 1, line)
    } else if c == ';' {
        ScanStep::Token(TokenType::Semicolon, cur + 1, line)
    } else if c == '*' {
        ScanStep::Token(TokenType::Star, cur + 1, line)
    } else if c == '!' {
        one_or_two(src, cur, line, '=', TokenType::Bang, TokenType::BangEqual)
    } else if c == '=' {
        one_or_two(src, cur, line, '=', TokenType::Equal, TokenType::EqualEqual)
    } else if c == '<' {
        one_or_two(src, cur, line, '=', TokenType::Less, TokenType::LessEqual)
    } else if c == '>' {
        one_or_two(src, cur, line, '=', TokenType::Greater, TokenType::GreaterEqual)
    } else if c == '/' {
        if cur + 1 < src.len() && src[cur + 1] == '/' {
            ScanStep::Skip(find_char(src, cur + 2, '\n'), line)
        } else {
            ScanStep::Token(TokenType::Slash, cur + 1, line)
        }
    } else if c == ' ' || c == '\r' || c == '\t' {
        ScanStep::Skip(cur + 1, line)
    } else if c == '\n' {
        ScanStep::Skip(cur + 1, line + 1)
    } else if c == '"' {
        string_step(src, cur, line)
    } else if c == 'o' {
        if cur + 1 < src.len() && src[cur + 1] == 'r' {
            ScanStep::Token(TokenType::Or, cur + 2, line)
        } else {
            ScanStep::Skip(cur + 1, line)
        }
    } else if is_digit(c) {
        number_step(src, cur, line)
    } else if is_alpha(c) || c == '_' {
        word_step(src, cur, line)
    } else {
        ScanStep::Error(unexpected_message(c), line)
    }
}

/// Scanning `src` from `cur` on line `line` to its end.
pub open spec fn scan_from(src: Seq<char>, cur: int, line: int) -> ScanOutcome
    decreases src.len() - cur,
{
    if cur < 0 || cur >= src.len() {
        ScanOutcome::Done(Seq::empty(), line)
    } else {
        match scan_step(src, cur, line) {
            ScanStep::Token(t, end, line2) => {
                if end <= cur || end > src.len() {
                    ScanOutcome::Crash
                } else {
                    let lexeme = Lexeme { token_type: t, start: cur, end, line: line2 };
                    match scan_from(src, end, line2) {
                        ScanOutcome::Done(rest, last) => ScanOutcome::Done(seq![lexeme] + rest, last),
                        ScanOutcome::Failed(rest, l, m) => ScanOutcome::Failed(seq![lexeme] + rest, l, m),
                        ScanOutcome::Crash => ScanOutcome::Crash,
                    }
                }
            },
            ScanStep::Skip(end, line2) => {
                if end <= cur || end > src.len() {
                    ScanOutcome::Crash
                } else {
                    scan_from(src, end, line2)
                }
            },
            ScanStep::Error(m, l) => ScanOutcome::Failed(Seq::empty(), l, m),
            ScanStep::Crash => ScanOutcome::Crash,
        }
    }
}

/// The lexemes `ls` lie between `from` and `to`, each non-empty, in source
/// order and without overlap.
pub open spec fn in_source_order(ls: Seq<Lexeme>, from: int, to: int) -> bool {
    &&& forall|i: int| 0 <= i < ls.len() ==> from <= (#[trigger] ls[i]).start < ls[i].end <= to
    &&& forall|i: int, j: int| 0 <= i < j < ls.len() ==> (#[trigger] ls[i]).end <= (#[trigger] ls[j]).start
}

/// The tokens that scanning finds, up to its end or up to an error, come
/// in source order, each over a non-empty stretch of the source that
/// follows the starting position, and no two overlap.
pub proof fn law_scan_in_source_order(src: Seq<char>, cur: int, line: int)
    requires
        0 <= cur,
    ensures
        match scan_from(src, cur, line) {
            ScanOutcome::Done(ls, _) => in_source_order(ls, cur, src.len() as int),
            ScanOutcome::Failed(ls, _, _) => in_source_order(ls, cur, src.len() as int),
            ScanOutcome::Crash => true,
        },
    decreases src.len() - cur,
{
    if cur < src.len() {
        match scan_step(src, cur, line) {
            ScanStep::Token(t, end, line2) => {
                if cur < end <= src.len() {
                    law_scan_in_source_order(src, end, line2);
                    let lexeme = Lexeme { token_type: t, start: cur, end, line: line2 };
                    match scan_from(src, end, line2) {
                        ScanOutcome::Done(rest, _) => lemma_in_order_cons(lexeme, rest, cur, end, src.len() as int),
                        ScanOutcome::Failed(rest, _, _) => lemma_in_order_cons(lexeme, rest, cur, end, src.len() as int),
                        ScanOutcome::Crash => {},
                    }
                }
            },
            ScanStep::Skip(end, line2) => {
                if cur < end <= src.len() {
                    law_scan_in_source_order(src, end, line2);
                }
            },
            _ => {},
        }
    }
}

proof fn lemma_in_order_cons(l: Lexeme, rest: Seq<Lexeme>, from: int, mid: int, to: int)
    requires
        l.start == from,
        l.end == mid,
        from < mid <= to,
        in_source_order(rest, mid, to),
    ensures
        in_source_order(seq![l] + rest, from, to),
{
    let all = seq![l] + rest;
    assert forall|i: int| 0 <= i < all.len() implies from <= (#[trigger] all[i]).start < all[i].end <= to by {
        if i > 0 {
            assert(all[i] == rest[i - 1]);
        }
    }
    assert forall|i: int, j: int| 0 <= i < j < all.len() implies (#[trigger] all[i]).end <= (#[trigger] all[j]).start by {
        assert(all[j] == rest[j - 1]);
        if i > 0 {
            assert(all[i] == rest[i - 1]);
        }
    }
}

/// `t` is the token that `l` describes in `src`: its type, its text, its
/// line (truncated to 32 bits) and, for a string, its contents; a number
/// carries the value that the host reads from its text, and any other token
/// no value.
pub open spec fn token_matches(ar: Arith, t: Token, src: Seq<char>, l: Lexeme) -> bool {
    &&& t.token_type == l.token_type
    &&& t.lexeme@ == src.subrange(l.start, l.end)
    &&& t.line == l.line as u32
    &&& if l.token_type == TokenType::String {
        t.literal matches Some(Literal::String(s)) && s@ == src.subrange(l.start + 1, l.end - 1)
    } else if l.token_type == TokenType::Number {
        t.literal == Some(Literal::Number((ar.parse)(src.subrange(l.start, l.end))))
    } else {
        t.literal is None
    }
}

/// `toks` are the tokens that `ls` describe, one for one.
pub open spec fn tokens_match(ar: Arith, toks: Seq<Token>, src: Seq<char>, ls: Seq<Lexeme>) -> bool {
    &&& toks.len() == ls.len()
    &&& forall|i: int| 0 <= i < toks.len() ==> token_matches(ar, #[trigger] toks[i], src, ls[i])
}

/// The end-of-file token on `line`.
pub open spec fn is_eof_token(t: Token, line: int) -> bool {
    &&& t.token_type == TokenType::Eof
    &&& t.lexeme@ == Seq::<char>::empty()
    &&& t.literal is None
    &&& t.line == line as u32
}

/// Turns source text into tokens.
pub struct Scanner {
    source: Vec<char>,
    pub tokens: Vec<Token>,
    start: usize,
    current: usize,
    pub line: usize,
    keywords: Vec<(String, TokenType)>,
}


/// `out` with the tokens `ls` put before the tokens it holds.
pub open spec fn prefixed(ls: Seq<Lexeme>, out: ScanOutcome) -> ScanOutcome {
    match out {
        ScanOutcome::Done(rest, last) => ScanOutcome::Done(ls + rest, last),
        ScanOutcome::Failed(rest, l, m) => ScanOutcome::Failed(ls + rest, l, m),
        ScanOutcome::Crash => ScanOutcome::Crash,
    }
}

proof fn lemma_prefixed_assoc(a: Seq<Lexeme>, b: Seq<Lexeme>, out: ScanOutcome)
    ensures
        prefixed(a, prefixed(b, out)) == prefixed(a + b, out),
{
    match out {
        ScanOutcome::Done(rest, last) => {
            assert(a + (b + rest) =~= (a + b) + rest);
        },
        ScanOutcome::Failed(rest, l, m) => {
            assert(a + (b + rest) =~= (a + b) + rest);
        },
        ScanOutcome::Crash => {},
    }
}

proof fn lemma_prefixed_empty(out: ScanOutcome)
    ensures
        prefixed(Seq::empty(), out) == out,
{
    match out {
        ScanOutcome::Done(rest, last) => {
            assert(Seq::<Lexeme>::empty() + rest =~= rest);
        },
        ScanOutcome::Failed(rest, l, m) => {
            assert(Seq::<Lexeme>::empty() + rest =~= rest);
        },
        ScanOutcome::Crash => {},
    }
}

proof fn lemma_find_char(src: Seq<char>, i: int, c: char)
    requires
        0 <= i <= src.len(),
    ensures
        i <= find_char(src, i, c) <= src.len(),
        find_char(src, i, c) < src.len() ==> src[find_char(src, i, c)] == c,
        forall|k: int| i <= k < find_char(src, i, c) ==> src[k] != c,
    decreases src.len() - i,
{
    if i < src.len() && src[i] != c {
        lemma_find_char(src, i + 1, c);
    }
}

proof fn lemma_digits_end(src: Seq<char>, i: int)
    requires
        0 <= i <= src.len(),
    ensures
        i <= digits_end(src, i) <= src.len(),
        digits_end(src, i) < src.len() ==> !is_digit(src[digits_end(src, i)]),
        forall|k: int| i <= k < digits_end(src, i) ==> is_digit(#[trigger] src[k]),
    decreases src.len() - i,
{
    if i < src.len() && is_digit(src[i]) {
        lemma_digits_end(src, i + 1);
    }
}

proof fn lemma_alphanumeric_end(src: Seq<char>, i: int)
    requires
        0 <= i <= src.len(),
    ensures
        i <= alphanumeric_end(src, i) <= src.len(),
        forall|k: int| i <= k < alphanumeric_end(src, i) ==> is_alphanumeric(#[trigger] src[k]),
        alphanumeric_end(src, i) < src.len() ==> !is_alphanumeric(src[alphanumeric_end(src, i)]),
    decreases src.len() - i,
{
    if i < src.len() && is_alphanumeric(src[i]) {
        lemma_alphanumeric_end(src, i + 1);
    }
}

/// A stretch without line breaks counts none.
proof fn lemma_no_newlines(src: Seq<char>, a: int, b: int)
    requires
        0 <= a <= b <= src.len(),
        forall|k: int| a <= k < b ==> #[trigger] src[k] != '\n',
    ensures
        newlines(src.subrange(a, b)) == 0,
    decreases b - a,
{
    if b > a {
        lemma_no_newlines(src, a, b - 1);
        lemma_newlines_step(src, a, b - 1);
    } else {
        assert(src.subrange(a, b) =~= Seq::<char>::empty());
    }
}

/// Line breaks add up over adjacent stretches.
proof fn lemma_newlines_split(src: Seq<char>, a: int, b: int, c: int)
    requires
        0 <= a <= b <= c <= src.len(),
    ensures
        newlines(src.subrange(a, c)) == newlines(src.subrange(a, b)) + newlines(src.subrange(b, c)),
    decreases c - b,
{
    if c > b {
        lemma_newlines_split(src, a, b, c - 1);
        lemma_newlines_step(src, a, c - 1);
        lemma_newlines_step(src, b, c - 1);
    } else {
        assert(src.subrange(b, c) =~= Seq::<char>::empty());
    }
}

/// One step moves the line on by the line breaks it passes over.
proof fn lemma_step_lines(src: Seq<char>, cur: int, line: int)
    requires
        0 <= cur < src.len(),
    ensures
        match scan_step(src, cur, line) {
            ScanStep::Token(_, end, l2) => cur < end <= src.len() ==> l2 == line + newlines(src.subrange(cur, end)),
            ScanStep::Skip(end, l2) => cur < end <= src.len() ==> l2 == line + newlines(src.subrange(cur, end)),
            _ => true,
        },
{
    let c = src[cur];
    match scan_step(src, cur, line) {
        ScanStep::Token(_, end, l2) => {
            if cur < end <= src.len() {
                if c == '"' {
                    let q = find_char(src, cur + 1, '"');
                    lemma_find_char(src, cur + 1, '"');
                    lemma_newlines_split(src, cur, cur + 1, q);
                    lemma_newlines_split(src, cur, q, q + 1);
                    lemma_no_newlines(src, cur, cur + 1);
                    lemma_no_newlines(src, q, q + 1);
                } else if is_digit(c) && !(c == 'o') {
                    let d = digits_end(src, cur + 1);
                    lemma_digits_end(src, cur + 1);
                    if d < src.len() && src[d] == '.' && d + 1 < src.len() && is_digit(src[d + 1]) {
                        lemma_digits_end(src, d + 1);
                    }
                    assert forall|k: int| cur <= k < end implies #[trigger] src[k] != '\n' by {
                        if k > cur && k < d {
                            assert(is_digit(src[k]));
                        }
                    }
                    lemma_no_newlines(src, cur, end);
                } else if (is_alpha(c) || c == '_') && !is_digit(c) && c != 'o' {
                    lemma_alphanumeric_end(src, cur + 1);
                    assert forall|k: int| cur <= k < end implies #[trigger] src[k] != '\n' by {
                        if k > cur {
                            assert(is_alphanumeric(src[k]));
                        }
                    }
                    lemma_no_newlines(src, cur, end);
                } else {
                    assert forall|k: int| cur <= k < end implies #[trigger] src[k] != '\n' by {}
                    lemma_no_newlines(src, cur, end);
                }
            }
        },
        ScanStep::Skip(end, l2) => {
            if cur < end <= src.len() {
                if c == '/' {
                    lemma_find_char(src, cur + 2, '\n');
                    assert forall|k: int| cur <= k < end implies #[trigger] src[k] != '\n' by {}
                    lemma_no_newlines(src, cur, end);
                } else if c == '\n' {
                    lemma_newlines_step(src, cur, cur);
                    assert(src.subrange(cur, cur) =~= Seq::<char>::empty());
                } else {
                    assert forall|k: int| cur <= k < end implies #[trigger] src[k] != '\n' by {}
                    lemma_no_newlines(src, cur, end);
                }
            }
        },
        _ => {},
    }
}

proof fn lemma_keyword_not_eof(i: int, text: Seq<char>)
    ensures
        keyword_from(keyword_table(), i, text) matches Some(t) ==> t != TokenType::Eof && t != TokenType::Number,
    decreases keyword_table().len() - i,
{
    let table = keyword_table();
    assert(forall|j: int| 0 <= j < table.len() ==> (#[trigger] table[j]).1 != TokenType::Eof && table[j].1 != TokenType::Number) by {
        assert(table.len() == 16);
    }
    if 0 <= i < table.len() && table[i].0 != text {
        lemma_keyword_not_eof(i + 1, text);
    }
}

/// Scanning finds no end-of-file token: only `scan_tokens` adds one, at
/// the end.
pub proof fn law_scan_no_eof(src: Seq<char>, cur: int, line: int)
    ensures
        match scan_from(src, cur, line) {
            ScanOutcome::Done(ls, _) => forall|i: int| 0 <= i < ls.len() ==> (#[trigger] ls[i]).token_type != TokenType::Eof,
            ScanOutcome::Failed(ls, _, _) => forall|i: int| 0 <= i < ls.len() ==> (#[trigger] ls[i]).token_type != TokenType::Eof,
            ScanOutcome::Crash => true,
        },
    decreases src.len() - cur,
{
    if 0 <= cur < src.len() {
        match scan_step(src, cur, line) {
            ScanStep::Token(t, end, l2) => {
                if cur < end <= src.len() {
                    law_scan_no_eof(src, end, l2);
                    let e = alphanumeric_end(src, cur + 1);
                    lemma_keyword_not_eof(0, src.subrange(cur, e));
                    assert(t != TokenType::Eof);
                    let lx = Lexeme { token_type: t, start: cur, end, line: l2 };
                    match scan_from(src, end, l2) {
                        ScanOutcome::Done(rest, _) => {
                            assert forall|i: int| 0 <= i < (seq![lx] + rest).len()
                                implies (#[trigger] (seq![lx] + rest)[i]).token_type != TokenType::Eof by {
                                if i > 0 {
                                    assert((seq![lx] + rest)[i] == rest[i - 1]);
                                }
                            }
                        },
                        ScanOutcome::Failed(rest, _, _) => {
                            assert forall|i: int| 0 <= i < (seq![lx] + rest).len()
                                implies (#[trigger] (seq![lx] + rest)[i]).token_type != TokenType::Eof by {
                                if i > 0 {
                                    assert((seq![lx] + rest)[i] == rest[i - 1]);
                                }
                            }
                        },
                        ScanOutcome::Crash => {},
                    }
                }
            },
            ScanStep::Skip(end, l2) => {
                if cur < end <= src.len() {
                    law_scan_no_eof(src, end, l2);
                }
            },
            _ => {},
        }
    }
}

/// `l` is an identifier's lexeme in `src` that spans the longest run of
/// ASCII letters and digits after its first character, a letter or `_`.
pub open spec fn whole_identifier(src: Seq<char>, l: Lexeme) -> bool {
    &&& 0 <= l.start < l.end <= src.len()
    &&& (is_alpha(src[l.start]) || src[l.start] == '_')
    &&& forall|k: int| l.start < k < l.end ==> is_alphanumeric(#[trigger] src[k])
    &&& (l.end == src.len() || !is_alphanumeric(src[l.end]))
}

proof fn lemma_identifier_step(src: Seq<char>, cur: int, line: int)
    requires
        0 <= cur < src.len(),
    ensures
        match scan_step(src, cur, line) {
            ScanStep::Token(t, end, l2) => t == TokenType::Identifier
                ==> whole_identifier(src, Lexeme { token_type: t, start: cur, end, line: l2 }),
            _ => true,
        },
{
    let c = src[cur];
    if let ScanStep::Token(t, end, l2) = scan_step(src, cur, line) {
        if t == TokenType::Identifier {
            lemma_keyword_not_eof(0, src.subrange(cur, alphanumeric_end(src, cur + 1)));
            lemma_alphanumeric_end(src, cur + 1);
            if is_digit(c) {
                let d = digits_end(src, cur + 1);
                assert(number_step(src, cur, line) matches ScanStep::Token(tn, _, _) ==> tn == TokenType::Number);
            }
        }
    }
}

/// Every identifier that scanning finds spans the longest run of ASCII
/// letters and digits after its first character: each character after the
/// first is a letter or a digit, and the one right after it is neither.
pub proof fn law_identifiers_are_whole(src: Seq<char>, cur: int, line: int)
    requires
        0 <= cur,
    ensures
        match scan_from(src, cur, line) {
            ScanOutcome::Done(ls, _) => forall|i: int| 0 <= i < ls.len() && (#[trigger] ls[i]).token_type == TokenType::Identifier
                ==> whole_identifier(src, ls[i]),
            ScanOutcome::Failed(ls, _, _) => forall|i: int| 0 <= i < ls.len() && (#[trigger] ls[i]).token_type == TokenType::Identifier
                ==> whole_identifier(src, ls[i]),
            ScanOutcome::Crash => true,
        },
    decreases src.len() - cur,
{
    if cur < src.len() {
        lemma_identifier_step(src, cur, line);
        match scan_step(src, cur, line) {
            ScanStep::Token(t, end, l2) => {
                if cur < end <= src.len() {
                    law_identifiers_are_whole(src, end, l2);
                    let lx = Lexeme { token_type: t, start: cur, end, line: l2 };
                    match scan_from(src, end, l2) {
                        ScanOutcome::Done(rest, _) => {
                            assert forall|i: int| 0 <= i < (seq![lx] + rest).len()
                                && (#[trigger] (seq![lx] + rest)[i]).token_type == TokenType::Identifier
                                implies whole_identifier(src, (seq![lx] + rest)[i]) by {
                                if i > 0 {
                                    assert((seq![lx] + rest)[i] == rest[i - 1]);
                                }
                            }
                        },
                        ScanOutcome::Failed(rest, _, _) => {
                            assert forall|i: int| 0 <= i < (seq![lx] + rest).len()
                                && (#[trigger] (seq![lx] + rest)[i]).token_type == TokenType::Identifier
                                implies whole_identifier(src, (seq![lx] + rest)[i]) by {
                                if i > 0 {
                                    assert((seq![lx] + rest)[i] == rest[i - 1]);
                                }
                            }
                        },
                        ScanOutcome::Crash => {},
                    }
                }
            },
            ScanStep::Skip(end, l2) => {
                if cur < end <= src.len() {
                    law_identifiers_are_whole(src, end, l2);
                }
            },
            _ => {},
        }
    }
}

/// `l` is a number's lexeme in `src`: digits, with at most one `.` that has
/// digits on both sides; it takes every digit that follows, and a `.` after
/// it only when a digit follows that `.`.
pub open spec fn whole_number(src: Seq<char>, l: Lexeme) -> bool {
    &&& 0 <= l.start < l.end <= src.len()
    &&& is_digit(src[l.start])
    &&& forall|k: int| l.start <= k < l.end ==> is_digit(#[trigger] src[k]) || src[k] == '.'
    &&& forall|k: int| l.start <= k < l.end && #[trigger] src[k] == '.' ==> k + 1 < l.end && is_digit(src[k + 1])
        && forall|j: int| l.start <= j < k ==> is_digit(#[trigger] src[j])
    &&& l.end < src.len() ==> !is_digit(src[l.end])
    &&& (l.end < src.len() && src[l.end] == '.' && forall|k: int| l.start <= k < l.end ==> #[trigger] src[k] != '.')
        ==> l.end + 1 < src.len() && !is_digit(src[l.end + 1])
}

proof fn lemma_number_step(src: Seq<char>, cur: int, line: int)
    requires
        0 <= cur < src.len(),
    ensures
        match scan_step(src, cur, line) {
            ScanStep::Token(t, end, l2) => t == TokenType::Number
                ==> whole_number(src, Lexeme { token_type: t, start: cur, end, line: l2 }),
            _ => true,
        },
{
    let c = src[cur];
    if let ScanStep::Token(t, end, l2) = scan_step(src, cur, line) {
        if t == TokenType::Number {
            lemma_keyword_not_eof(0, src.subrange(cur, alphanumeric_end(src, cur + 1)));
            assert(is_digit(c));
            let d = digits_end(src, cur + 1);
            lemma_digits_end(src, cur + 1);
            if d < src.len() && src[d] == '.' && d + 1 < src.len() && is_digit(src[d + 1]) {
                lemma_digits_end(src, d + 1);
                assert(end == digits_end(src, d + 1));
                assert forall|k: int| cur <= k < end && #[trigger] src[k] == '.' implies k + 1 < end && is_digit(src[k + 1])
                    && forall|j: int| cur <= j < k ==> is_digit(#[trigger] src[j]) by {
                    if k != d {
                        if k < d {
                            if k > cur {
                                assert(is_digit(src[k]));
                            }
                        } else {
                            assert(is_digit(src[k]));
                        }
                    }
                    assert forall|j: int| cur <= j < k implies is_digit(#[trigger] src[j]) by {
                        if j > cur && j < d {
                            assert(is_digit(src[j]));
                        }
                    }
                }
                assert(src[d] == '.');
            } else {
                assert(end == d);
                assert forall|k: int| cur <= k < end implies is_digit(#[trigger] src[k]) by {
                    if k > cur {
                        assert(is_digit(src[k]));
                    }
                }
            }
        }
    }
}

/// Every number that scanning finds is a whole numeral: its digits, and a
/// fraction only when a digit follows the `.`.
pub proof fn law_numbers_are_whole(src: Seq<char>, cur: int, line: int)
    requires
        0 <= cur,
    ensures
        match scan_from(src, cur, line) {
            ScanOutcome::Done(ls, _) => forall|i: int| 0 <= i < ls.len() && (#[trigger] ls[i]).token_type == TokenType::Number
                ==> whole_number(src, ls[i]),
            ScanOutcome::Failed(ls, _, _) => forall|i: int| 0 <= i < ls.len() && (#[trigger] ls[i]).token_type == TokenType::Number
                ==> whole_number(src, ls[i]),
            ScanOutcome::Crash => true,
        },
    decreases src.len() - cur,
{
    if cur < src.len() {
        lemma_number_step(src, cur, line);
        match scan_step(src, cur, line) {
            ScanStep::Token(t, end, l2) => {
                if cur < end <= src.len() {
                    law_numbers_are_whole(src, end, l2);
                    let lx = Lexeme { token_type: t, start: cur, end, line: l2 };
                    match scan_from(src, end, l2) {
                        ScanOutcome::Done(rest, _) => {
                            assert forall|i: int| 0 <= i < (seq![lx] + rest).len()
                                && (#[trigger] (seq![lx] + rest)[i]).token_type == TokenType::Number
                                implies whole_number(src, (seq![lx] + rest)[i]) by {
                                if i > 0 {
                                    assert((seq![lx] + rest)[i] == rest[i - 1]);
                                }
                            }
                        },
                        ScanOutcome::Failed(rest, _, _) => {
                            assert forall|i: int| 0 <= i < (seq![lx] + rest).len()
                                && (#[trigger] (seq![lx] + rest)[i]).token_type == TokenType::Number
                                implies whole_number(src, (seq![lx] + rest)[i]) by {
                                if i > 0 {
                                    assert((seq![lx] + rest)[i] == rest[i - 1]);
                                }
                            }
                        },
                        ScanOutcome::Crash => {},
                    }
                }
            },
            ScanStep::Skip(end, l2) => {
                if cur < end <= src.len() {
                    law_numbers_are_whole(src, end, l2);
                }
            },
            _ => {},
        }
    }
}

/// When scanning from `cur` on line `line` reaches the end, its last line
/// is `line` plus the line breaks from `cur` to the end, and no token it
/// finds is an end-of-file token.
pub proof fn law_scan_last_line(src: Seq<char>, cur: int, line: int)
    requires
        0 <= cur <= src.len(),
    ensures
        scan_from(src, cur, line) matches ScanOutcome::Done(ls, last) ==> last == line + newlines(src.subrange(cur, src.len() as int)),
    decreases src.len() - cur,
{
    if cur >= src.len() {
        assert(src.subrange(cur, src.len() as int) =~= Seq::<char>::empty());
    } else {
        lemma_step_advances(src, cur, line);
        lemma_step_lines(src, cur, line);
        match scan_step(src, cur, line) {
            ScanStep::Token(_, end, l2) => {
                law_scan_last_line(src, end, l2);
                lemma_newlines_split(src, cur, end, src.len() as int);
            },
            ScanStep::Skip(end, l2) => {
                law_scan_last_line(src, end, l2);
                lemma_newlines_split(src, cur, end, src.len() as int);
            },
            _ => {},
        }
    }
}

proof fn lemma_newlines_step(src: Seq<char>, a: int, k: int)
    requires
        0 <= a <= k < src.len(),
    ensures
        newlines(src.subrange(a, k + 1)) == newlines(src.subrange(a, k)) + if src[k] == '\n' { 1int } else { 0int },
        newlines(src.subrange(a, k)) <= k - a,
    decreases k - a,
{
    assert(src.subrange(a, k + 1).drop_last() =~= src.subrange(a, k));
    if k > a {
        lemma_newlines_step(src, a, k - 1);
    } else {
        assert(src.subrange(a, k) =~= Seq::<char>::empty());
    }
}

/// `c.is_digit(10)`.
fn digit(c: char) -> (r: bool)
    ensures
        r == is_digit(c),
{
    '0' <= c && c <= '9'
}

/// `c.is_ascii_alphabetic()`.
fn alpha(c: char) -> (r: bool)
    ensures
        r == is_alpha(c),
{
    ('a' <= c && c <= 'z') || ('A' <= c && c <= 'Z')
}

/// The first byte of the encoding of `c`, as a character.
fn first_byte_char(c: char) -> (r: char)
    ensures
        r == first_utf8_byte(c) as char,
{
    let v = c as u32;
    let b: u8 = if v < 0x80 {
        v as u8
    } else if v < 0x800 {
        (0xC0u32 | (v >> 6u32)) as u8
    } else if v < 0x10000 {
        (0xE0u32 | (v >> 12u32)) as u8
    } else {
        (0xF0u32 | (v >> 18u32)) as u8
    };
    b as char
}

/// The keyword table, as the scanner keeps it.
fn keyword_list() -> (r: Vec<(String, TokenType)>)
    ensures
        r@.len() == keyword_table().len(),
        forall|i: int| 0 <= i < r@.len() ==> (#[trigger] r@[i]).0@ == keyword_table()[i].0 && r@[i].1 == keyword_table()[i].1,
{
    let mut r: Vec<(String, TokenType)> = Vec::new();
    r.push((String::from_str("and"), TokenType::And));
    r.push((String::from_str("class"), TokenType::Class));
    r.push((String::from_str("else"), TokenType::Else));
    r.push((String::from_str("false"), TokenType::False));
    r.push((String::from_str("for"), TokenType::For));
    r.push((String::from_str("fun"), TokenType::Fun));
    r.push((String::from_str("if"), TokenType::If));
    r.push((String::from_str("nil"), TokenType::Nil));
    r.push((String::from_str("or"), TokenType::Or));
    r.push((String::from_str("print"), TokenType::Print));
    r.push((String::from_str("return"), TokenType::Return));
    r.push((String::from_str("super"), TokenType::Super));
    r.push((String::from_str("this"), TokenType::This));
    r.push((String::from_str("true"), TokenType::True));
    r.push((String::from_str("var"), TokenType::Var));
    r.push((String::from_str("while"), TokenType::While));
    r
}

impl Scanner {
    /// The source text.
    pub closed spec fn source_view(&self) -> Seq<char> {
        self.source@
    }

    /// The tokens found so far.
    pub closed spec fn token_list(&self) -> Seq<Token> {
        self.tokens@
    }

    /// The line the scanner is on.
    pub closed spec fn line_number(&self) -> int {
        self.line as int
    }

    /// Where scanning goes on.
    pub closed spec fn cursor(&self) -> int {
        self.current as int
    }

    /// The scanner's invariant.
    pub closed spec fn wf(&self) -> bool {
        &&& self.start <= self.current <= self.source@.len()
        &&& self.source@.len() < usize::MAX
        &&& self.line <= self.current + 1
        &&& self.keywords@.len() == keyword_table().len()
        &&& forall|i: int| 0 <= i < self.keywords@.len() ==> (#[trigger] self.keywords@[i]).0@ == keyword_table()[i].0 && self.keywords@[i].1 == keyword_table()[i].1
    }

    /// A scanner at the start of `source`.
    pub fn new(source: String) -> (r: Self)
        requires
            source@.len() < usize::MAX,
        ensures
            r.wf(),
            r.source_view() == source@,
            r.cursor() == 0,
            r.line_number() == 1,
            r.token_list() == Seq::<Token>::empty(),
    {
        let keywords = keyword_list();
        Self { source: chars_of(&source), tokens: Vec::new(), start: 0, current: 0, line: 1, keywords }
    }

    /// The tokens found, handed over.
    pub fn into_tokens(self) -> (r: Vec<Token>)
        ensures
            r@ == self.token_list(),
    {
        self.tokens
    }

    /// Whether the whole source has been read.
    pub fn is_at_end(&self) -> (r: bool)
        ensures
            r == (self.cursor() >= self.source_view().len()),
    {
        self.current >= self.source.len()
    }

    fn advance(&mut self) -> (c: char)
        requires
            old(self).current < old(self).source@.len(),
            old(self).source@.len() < usize::MAX,
        ensures
            c == old(self).source@[old(self).current as int],
            *final(self) == (Scanner { current: (old(self).current + 1) as usize, ..*old(self) }),
    {
        let c = self.source[self.current];
        self.current = self.current + 1;
        c
    }

    fn matches(&mut self, expected: char) -> (r: bool)
        requires
            old(self).wf(),
        ensures
            r == (old(self).current < old(self).source@.len() && old(self).source@[old(self).current as int] == expected),
            r ==> *final(self) == (Scanner { current: (old(self).current + 1) as usize, ..*old(self) }),
            !r ==> *final(self) == *old(self),
    {
        if self.is_at_end() {
            return false;
        }
        let c = self.source[self.current];
        if c != expected {
            return false;
        }
        self.current = self.current + 1;
        true
    }

    fn peek(&self) -> (c: char)
        requires
            self.wf(),
        ensures
            c == if self.current < self.source@.len() { self.source@[self.current as int] } else { '\0' },
    {
        if self.is_at_end() {
            return '\0';
        }
        self.source[self.current]
    }

    fn peek_next(&self) -> (c: char)
        requires
            self.wf(),
            self.current + 1 != self.source@.len(),
        ensures
            c == if self.current + 1 > self.source@.len() { '\0' } else { self.source@[self.current + 1] },
    {
        if self.current + 1 > self.source.len() {
            return '\0';
        }
        self.source[self.current + 1]
    }

    fn add_token(&mut self, token_type: TokenType, literal: Option<Literal>)
        requires
            old(self).wf(),
        ensures
            final(self).tokens@ == old(self).tokens@.push(Token {
                token_type,
                lexeme: final(self).tokens@.last().lexeme,
                literal,
                line: old(self).line as u32,
            }),
            final(self).tokens@.last().lexeme@ == old(self).source@.subrange(old(self).start as int, old(self).current as int),
            *final(self) == (Scanner { tokens: final(self).tokens, ..*old(self) }),
    {
        let lexeme = string_of(&self.source, self.start, self.current);
        let token = Token::new(token_type, lexeme, literal, self.line as u32);
        self.tokens.push(token);
    }

    proof fn lemma_keyword_kind(text: Seq<char>)
        ensures
            keyword(text) matches Some(t) ==> t != TokenType::String && t != TokenType::Number,
    {
        reveal_with_fuel(keyword_from, 17);
    }

    /// The keyword that `text` is, if it is one.
    fn lookup_keyword(&self, text: &String) -> (r: Option<TokenType>)
        requires
            self.wf(),
        ensures
            r == keyword(text@),
    {
        let n = self.keywords.len();
        for i in 0..n
            invariant
                self.wf(),
                n == self.keywords@.len(),
                keyword_from(keyword_table(), i as int, text@) == keyword(text@),
        {
            if self.keywords[i].0 == *text {
                return Some(self.keywords[i].1);
            }
        }
        None
    }

    fn string<H: Host>(&mut self, host: &H) -> (r: Result<(), ScanError>)
        requires
            old(self).wf(),
            old(self).current == old(self).start + 1,
            old(self).source@[old(self).start as int] == '"',
        ensures
            final(self).wf(),
            final(self).source == old(self).source,
            final(self).keywords == old(self).keywords,
            match string_step(old(self).source@, old(self).start as int, old(self).line as int) {
                ScanStep::Token(t, end, l2) => r is Ok && final(self).current == end && final(self).line == l2
                    && final(self).tokens@.len() == old(self).tokens@.len() + 1
                    && final(self).tokens@.drop_last() == old(self).tokens@
                    && token_matches(arith_of(host), final(self).tokens@.last(), old(self).source@,
                        Lexeme { token_type: t, start: old(self).start as int, end, line: l2 }),
                ScanStep::Error(m, l) => (r matches Err(e) && e.message@ == m && e.line == l)
                    && final(self).line == l && final(self).tokens@ == old(self).tokens@
                    && final(self).current == old(self).source@.len(),
                _ => false,
            },
    {
        let ghost src = self.source@;
        let ghost a = self.start as int + 1;
        let ghost q = find_char(src, a, '"');
        proof {
            lemma_find_char(src, a, '"');
            assert(src.subrange(a, a) =~= Seq::<char>::empty());
        }
        while self.peek() != '"' && !self.is_at_end()
            invariant
                self.wf(),
                self.source@ == src,
                self.source == old(self).source,
                self.keywords == old(self).keywords,
                self.tokens == old(self).tokens,
                self.start == old(self).start,
                a == old(self).start + 1,
                q == find_char(src, a, '"'),
                a <= self.current <= q <= src.len(),
                q < src.len() ==> src[q] == '"',
                self.line == old(self).line + newlines(src.subrange(a, self.current as int)),
            decreases src.len() - self.current,
        {
            proof {
                lemma_newlines_step(src, a, self.current as int);
            }
            if self.peek() == '\n' {
                self.line = self.line + 1;
            }
            self.advance();
        }
        if self.is_at_end() {
            return Err(ScanError { line: self.line, message: String::from_str("Unterminated string.") });
        }
        self.advance();
        let value = string_of(&self.source, self.start + 1, self.current - 1);
        self.add_token(TokenType::String, Some(Literal::String(value)));
        Ok(())
    }

    fn number<H: Host>(&mut self, host: &H) -> (r: Result<(), ScanError>)
        requires
            old(self).wf(),
            old(self).current == old(self).start + 1,
            is_digit(old(self).source@[old(self).start as int]),
            !(number_step(old(self).source@, old(self).start as int, old(self).line as int) is Crash),
        ensures
            final(self).wf(),
            final(self).source == old(self).source,
            final(self).keywords == old(self).keywords,
            match number_step(old(self).source@, old(self).start as int, old(self).line as int) {
                ScanStep::Token(t, end, l2) => r is Ok && final(self).current == end && final(self).line == l2
                    && final(self).tokens@.len() == old(self).tokens@.len() + 1
                    && final(self).tokens@.drop_last() == old(self).tokens@
                    && token_matches(arith_of(host), final(self).tokens@.last(), old(self).source@,
                        Lexeme { token_type: t, start: old(self).start as int, end, line: l2 }),
                _ => false,
            },
    {
        let ghost src = self.source@;
        let ghost d = digits_end(src, self.start + 1);
        proof {
            lemma_digits_end(src, self.start + 1);
        }
        while digit(self.peek())
            invariant
                self.wf(),
                self.source@ == src,
                self.source == old(self).source,
                self.keywords == old(self).keywords,
                self.tokens == old(self).tokens,
                self.start == old(self).start,
                self.line == old(self).line,
                old(self).start + 1 <= self.current <= d,
                digits_end(src, self.current as int) == d,
            decreases src.len() - self.current,
        {
            self.advance();
            proof {
                lemma_digits_end(src, self.current as int);
            }
        }
        if self.peek() == '.' && digit(self.peek_next()) {
            self.advance();
            let ghost e = digits_end(src, self.current as int);
            proof {
                lemma_digits_end(src, self.current as int);
            }
            while digit(self.peek())
                invariant
                    self.wf(),
                    self.source@ == src,
                    self.source == old(self).source,
                    self.keywords == old(self).keywords,
                    self.tokens == old(self).tokens,
                    self.start == old(self).start,
                    self.line == old(self).line,
                    d + 1 <= self.current <= e,
                    digits_end(src, self.current as int) == e,
                    e == digits_end(src, d + 1),
                decreases src.len() - self.current,
            {
                self.advance();
                proof {
                    lemma_digits_end(src, self.current as int);
                }
            }
        }
        let text = string_of(&self.source, self.start, self.current);
        let n = host.parse_number(text.as_str());
        self.add_token(TokenType::Number, Some(Literal::Number(n)));
        Ok(())
    }

    fn identifier<H: Host>(&mut self, host: &H) -> (r: Result<(), ScanError>)
        requires
            old(self).wf(),
            old(self).current == old(self).start + 1,
        ensures
            final(self).wf(),
            final(self).source == old(self).source,
            final(self).keywords == old(self).keywords,
            match word_step(old(self).source@, old(self).start as int, old(self).line as int) {
                ScanStep::Token(t, end, l2) => r is Ok && final(self).current == end && final(self).line == l2
                    && final(self).tokens@.len() == old(self).tokens@.len() + 1
                    && final(self).tokens@.drop_last() == old(self).tokens@
                    && token_matches(arith_of(host), final(self).tokens@.last(), old(self).source@,
                        Lexeme { token_type: t, start: old(self).start as int, end, line: l2 }),
                _ => false,
            },
    {
        let ghost src = self.source@;
        let ghost e = alphanumeric_end(src, self.start + 1);
        proof {
            lemma_alphanumeric_end(src, self.start + 1);
        }
        while alpha(self.peek()) || digit(self.peek())
            invariant
                self.wf(),
                self.source@ == src,
                self.source == old(self).source,
                self.keywords == old(self).keywords,
                self.tokens == old(self).tokens,
                self.start == old(self).start,
                self.line == old(self).line,
                old(self).start + 1 <= self.current <= e,
                alphanumeric_end(src, self.current as int) == e,
            decreases src.len() - self.current,
        {
            self.advance();
            proof {
                lemma_alphanumeric_end(src, self.current as int);
            }
        }
        let text = string_of(&self.source, self.start, self.current);
        proof {
            Self::lemma_keyword_kind(text@);
        }
        match self.lookup_keyword(&text) {
            Some(token_type) => self.add_token(token_type, None),
            None => self.add_token(TokenType::Identifier, None),
        }
        Ok(())
    }

    fn scan_token<H: Host>(&mut self, host: &H) -> (r: Result<(), ScanError>)
        requires
            old(self).wf(),
            old(self).start == old(self).current,
            old(self).current < old(self).source@.len(),
            !(scan_step(old(self).source@, old(self).current as int, old(self).line as int) is Crash),
        ensures
            final(self).wf(),
            final(self).source == old(self).source,
            final(self).keywords == old(self).keywords,
            match scan_step(old(self).source@, old(self).current as int, old(self).line as int) {
                ScanStep::Token(t, end, l2) => r is Ok && final(self).current == end && final(self).line == l2
                    && final(self).tokens@.len() == old(self).tokens@.len() + 1
                    && final(self).tokens@.drop_last() == old(self).tokens@
                    && token_matches(arith_of(host), final(self).tokens@.last(), old(self).source@,
                        Lexeme { token_type: t, start: old(self).current as int, end, line: l2 }),
                ScanStep::Skip(end, l2) => r is Ok && final(self).current == end && final(self).line == l2
                    && final(self).tokens@ == old(self).tokens@,
                ScanStep::Error(m, l) => (r matches Err(e) && e.message@ == m && e.line == l)
                    && final(self).line == l && final(self).tokens@ == old(self).tokens@
                    && final(self).current == (if old(self).source@[old(self).current as int] == '"' {
                        old(self).source@.len() as int
                    } else {
                        old(self).current + 1
                    }),
                ScanStep::Crash => false,
            },
    {
        let ghost src = self.source@;
        let c = self.advance();
        match c {
            '(' => {
                self.add_token(TokenType::LeftParen, None);
                Ok(())
            },
            ')' => {
                self.add_token(TokenType::RightParen, None);
                Ok(())
            },
            '{' => {
                self.add_token(TokenType::LeftBrace, None);
                Ok(())
            },
            '}' => {
                self.add_token(TokenType::RightBrace, None);
                Ok(())
            },
            ',' => {
                self.add_token(TokenType::Comma, None);
                Ok(())
            },
            '.' => {
                self.add_token(TokenType::Dot, None);
                Ok(())
            },
            '-' => {
                self.add_token(TokenType::Minus, None);
                Ok(())
            },
            '+' => {
                self.add_token(TokenType::Plus, None);
                Ok(())
            },
            ';' => {
                self.add_token(TokenType::Semicolon, None);
                Ok(())
            },
            '*' => {
                self.add_token(TokenType::Star, None);
                Ok(())
            },
            '!' => {
                let token_type = if self.matches('=') {
                    TokenType::BangEqual
                } else {
                    TokenType::Bang
                };
                self.add_token(token_type, None);
                Ok(())
            },
            '=' => {
                let token_type = if self.matches('=') {
                    TokenType::EqualEqual
                } else {
                    TokenType::Equal
                };
                self.add_token(token_type, None);
                Ok(())
            },
            '<' => {
                let token_type = if self.matches('=') {
                    TokenType::LessEqual
                } else {
                    TokenType::Less
                };
                self.add_token(token_type, None);
                Ok(())
            },
            '>' => {
                let token_type = if self.matches('=') {
                    TokenType::GreaterEqual
                } else {
                    TokenType::Greater
                };
                self.add_token(token_type, None);
                Ok(())
            },
            '/' => {
                if self.matches('/') {
                    let ghost q = find_char(src, self.current as int, '\n');
                    proof {
                        lemma_find_char(src, self.current as int, '\n');
                    }
                    while self.peek() != '\n' && !self.is_at_end()
                        invariant
                            self.wf(),
                            self.source@ == src,
                            self.source == old(self).source,
                            self.keywords == old(self).keywords,
                            self.tokens == old(self).tokens,
                            self.line == old(self).line,
                            q == find_char(src, old(self).current + 2, '\n'),
                            q <= src.len(),
                            q < src.len() ==> src[q] == '\n',
                            old(self).current + 2 <= self.current <= q,
                        decreases src.len() - self.current,
                    {
                        self.advance();
                    }
                } else {
                    self.add_token(TokenType::Slash, None);
                }
                Ok(())
            },
            ' ' | '\r' | '\t' => Ok(()),
            '\n' => {
                self.line = self.line + 1;
                Ok(())
            },
            '"' => self.string(host),
            'o' => {
                if self.matches('r') {
                    self.add_token(TokenType::Or, None);
                }
                Ok(())
            },
            _ => {
                if digit(c) {
                    self.number(host)
                } else if alpha(c) || c == '_' {
                    self.identifier(host)
                } else {
                    let mut message = String::from_str("Unexpected character '");
                    push_char(&mut message, first_byte_char(c));
                    message.append("'");
                    Err(ScanError { line: self.line, message })
                }
            },
        }
    }

    /// Scans the rest of the source, appending its tokens and, at the end, an
    /// end-of-file token. The scanner stops at the first lexical error.
    pub fn scan_tokens<H: Host>(&mut self, host: &H) -> (r: Result<(), ScanError>)
        requires
            old(self).wf(),
            !(scan_from(old(self).source_view(), old(self).cursor(), old(self).line_number()) is Crash),
        ensures
            final(self).wf(),
            final(self).source_view() == old(self).source_view(),
            final(self).token_list().len() >= old(self).token_list().len(),
            final(self).token_list().subrange(0, old(self).token_list().len() as int) == old(self).token_list(),
            match scan_from(old(self).source_view(), old(self).cursor(), old(self).line_number()) {
                ScanOutcome::Done(ls, last) => r is Ok && final(self).line_number() == last
                    && final(self).token_list().len() == old(self).token_list().len() + ls.len() + 1
                    && tokens_match(arith_of(host), 
                        final(self).token_list().subrange(old(self).token_list().len() as int,
                            (old(self).token_list().len() + ls.len()) as int),
                        old(self).source_view(), ls)
                    && is_eof_token(final(self).token_list().last(), last)
                    && final(self).cursor() == old(self).source_view().len()
                    && last == old(self).line_number()
                        + newlines(old(self).source_view().subrange(old(self).cursor(), old(self).source_view().len() as int))
                    && (forall|i: int| old(self).token_list().len() <= i < final(self).token_list().len() - 1
                        ==> (#[trigger] final(self).token_list()[i]).token_type != TokenType::Eof),
                ScanOutcome::Failed(ls, l, m) => (r matches Err(e) && e.message@ == m && e.line == l)
                    && final(self).line_number() == l
                    && final(self).token_list().len() == old(self).token_list().len() + ls.len()
                    && tokens_match(arith_of(host), 
                        final(self).token_list().subrange(old(self).token_list().len() as int,
                            (old(self).token_list().len() + ls.len()) as int),
                        old(self).source_view(), ls),
                ScanOutcome::Crash => false,
            },
    {
        let ghost src = self.source@;
        let ghost n0 = self.tokens@.len();
        let ghost whole = scan_from(src, self.current as int, self.line as int);
        let ghost mut emitted: Seq<Lexeme> = Seq::empty();
        proof {
            lemma_prefixed_empty(whole);
        }
        while !self.is_at_end()
            invariant
                self.wf(),
                self.source@ == src,
                self.source == old(self).source,
                whole == scan_from(src, old(self).current as int, old(self).line as int),
                !(whole is Crash),
                n0 == old(self).tokens@.len(),
                self.tokens@.len() == n0 + emitted.len(),
                self.tokens@.subrange(0, n0 as int) == old(self).tokens@,
                tokens_match(arith_of(host), self.tokens@.subrange(n0 as int, self.tokens@.len() as int), src, emitted),
                whole == prefixed(emitted, scan_from(src, self.current as int, self.line as int)),
            decreases src.len() - self.current,
        {
            self.start = self.current;
            let ghost cur = self.current as int;
            let ghost line = self.line as int;
            let ghost before = self.tokens@;
            let step = self.scan_token(host);
            match step {
                Ok(()) => {
                    proof {
                        match scan_step(src, cur, line) {
                            ScanStep::Token(t, end, l2) => {
                                let lx = Lexeme { token_type: t, start: cur, end, line: l2 };
                                lemma_prefixed_assoc(emitted, seq![lx], scan_from(src, end, l2));
                                emitted = emitted + seq![lx];
                                assert(self.tokens@.subrange(0, n0 as int) =~= before.subrange(0, n0 as int));
                                assert(self.tokens@.subrange(n0 as int, self.tokens@.len() as int)
                                    =~= before.subrange(n0 as int, before.len() as int).push(self.tokens@.last()));
                            },
                            ScanStep::Skip(end, l2) => {},
                            _ => {},
                        }
                    }
                },
                Err(e) => {
                    proof {
                        assert(emitted + Seq::<Lexeme>::empty() =~= emitted);
                    }
                    return Err(e);
                },
            }
        }
        proof {
            assert(emitted + Seq::<Lexeme>::empty() =~= emitted);
            assert(whole == ScanOutcome::Done(emitted, self.line as int));
        }
        let ghost before = self.tokens@;
        let eof = Token { token_type: TokenType::Eof, lexeme: String::new(), literal: None, line: self.line as u32 };
        self.tokens.push(eof);
        proof {
            assert(self.tokens@.subrange(0, n0 as int) =~= old(self).tokens@);
            assert(self.tokens@.subrange(n0 as int, (n0 + emitted.len()) as int)
                =~= before.subrange(n0 as int, before.len() as int));
            law_scan_last_line(src, old(self).current as int, old(self).line as int);
            law_scan_no_eof(src, old(self).current as int, old(self).line as int);
            let sub = self.tokens@.subrange(n0 as int, (n0 + emitted.len()) as int);
            assert forall|i: int| n0 <= i < self.tokens@.len() - 1
                implies (#[trigger] self.tokens@[i]).token_type != TokenType::Eof by {
                assert(sub[i - n0] == self.tokens@[i]);
                assert(token_matches(arith_of(host), sub[i - n0], src, emitted[i - n0]));
            }
        }
        Ok(())
    }
}
/// Every token or skip step moves forward and stays within the source.
proof fn lemma_step_advances(src: Seq<char>, cur: int, line: int)
    requires
        0 <= cur < src.len(),
    ensures
        match scan_step(src, cur, line) {
            ScanStep::Token(_, end, _) => cur < end <= src.len(),
            ScanStep::Skip(end, _) => cur < end <= src.len(),
            _ => true,
        },
{
    lemma_find_char(src, cur + 1, '"');
    if cur + 2 <= src.len() {
        lemma_find_char(src, cur + 2, '\n');
    }
    lemma_digits_end(src, cur + 1);
    let d = digits_end(src, cur + 1);
    if d + 1 < src.len() {
        lemma_digits_end(src, d + 1);
    }
    lemma_alphanumeric_end(src, cur + 1);
}

impl Scanner {
    /// Whether the step at the cursor reads past the end of the source.
    fn step_overruns(&self) -> (r: bool)
        requires
            self.wf(),
            self.current < self.source@.len(),
        ensures
            r == (scan_step(self.source@, self.current as int, self.line as int) is Crash),
    {
        let ghost src = self.source@;
        let ghost cur = self.current as int;
        let c = self.source[self.current];
        if !digit(c) {
            return false;
        }
        let n = self.source.len();
        let mut d = self.current + 1;
        proof {
            lemma_digits_end(src, cur + 1);
        }
        while d < n && digit(self.source[d])
            invariant
                n == src.len(),
                src == self.source@,
                cur + 1 <= d <= n,
                digits_end(src, d as int) == digits_end(src, cur + 1),
            decreases n - d,
        {
            d = d + 1;
        }
        d < n && self.source[d] == '.' && d + 1 == n
    }

    /// Scans like [`Scanner::scan_tokens`], but first finds out whether
    /// scanning would read past the end of the source; gives `None`, and
    /// stops, where it would.
    pub fn scan_tokens_checked<H: Host>(&mut self, host: &H) -> (r: Option<Result<(), ScanError>>)
        requires
            old(self).wf(),
        ensures
            final(self).wf(),
            final(self).source_view() == old(self).source_view(),
            r is None <==> scan_from(old(self).source_view(), old(self).cursor(), old(self).line_number()) is Crash,
            r matches Some(x) ==> match scan_from(old(self).source_view(), old(self).cursor(), old(self).line_number()) {
                ScanOutcome::Done(ls, last) => x is Ok && final(self).line_number() == last
                    && final(self).token_list().len() == old(self).token_list().len() + ls.len() + 1
                    && final(self).token_list().subrange(0, old(self).token_list().len() as int) == old(self).token_list()
                    && tokens_match(arith_of(host), 
                        final(self).token_list().subrange(old(self).token_list().len() as int,
                            (old(self).token_list().len() + ls.len()) as int),
                        old(self).source_view(), ls)
                    && is_eof_token(final(self).token_list().last(), last)
                    && final(self).cursor() == old(self).source_view().len()
                    && last == old(self).line_number()
                        + newlines(old(self).source_view().subrange(old(self).cursor(), old(self).source_view().len() as int))
                    && (forall|i: int| old(self).token_list().len() <= i < final(self).token_list().len() - 1
                        ==> (#[trigger] final(self).token_list()[i]).token_type != TokenType::Eof),
                ScanOutcome::Failed(ls, l, m) => (x matches Err(e) && e.message@ == m && e.line == l)
                    && final(self).line_number() == l
                    && final(self).token_list().len() == old(self).token_list().len() + ls.len()
                    && final(self).token_list().subrange(0, old(self).token_list().len() as int) == old(self).token_list()
                    && tokens_match(arith_of(host), 
                        final(self).token_list().subrange(old(self).token_list().len() as int,
                            (old(self).token_list().len() + ls.len()) as int),
                        old(self).source_view(), ls),
                ScanOutcome::Crash => false,
            },
    {
        let ghost src = self.source@;
        let ghost n0 = self.tokens@.len();
        let ghost whole = scan_from(src, self.current as int, self.line as int);
        let ghost mut emitted: Seq<Lexeme> = Seq::empty();
        proof {
            lemma_prefixed_empty(whole);
        }
        while !self.is_at_end()
            invariant
                self.wf(),
                self.source@ == src,
                self.source == old(self).source,
                whole == scan_from(src, old(self).current as int, old(self).line as int),
                n0 == old(self).tokens@.len(),
                self.tokens@.len() == n0 + emitted.len(),
                self.tokens@.subrange(0, n0 as int) == old(self).tokens@,
                tokens_match(arith_of(host), self.tokens@.subrange(n0 as int, self.tokens@.len() as int), src, emitted),
                whole == prefixed(emitted, scan_from(src, self.current as int, self.line as int)),
            decreases src.len() - self.current,
        {
            self.start = self.current;
            let ghost cur = self.current as int;
            let ghost line = self.line as int;
            let ghost before = self.tokens@;
            proof {
                lemma_step_advances(src, cur, line);
            }
            if self.step_overruns() {
                return None;
            }
            let step = self.scan_token(host);
            match step {
                Ok(()) => {
                    proof {
                        match scan_step(src, cur, line) {
                            ScanStep::Token(t, end, l2) => {
                                let lx = Lexeme { token_type: t, start: cur, end, line: l2 };
                                lemma_prefixed_assoc(emitted, seq![lx], scan_from(src, end, l2));
                                emitted = emitted + seq![lx];
                                assert(self.tokens@.subrange(0, n0 as int) =~= before.subrange(0, n0 as int));
                                assert(self.tokens@.subrange(n0 as int, self.tokens@.len() as int)
                                    =~= before.subrange(n0 as int, before.len() as int).push(self.tokens@.last()));
                            },
                            ScanStep::Skip(end, l2) => {},
                            _ => {},
                        }
                    }
                },
                Err(e) => {
                    proof {
                        assert(emitted + Seq::<Lexeme>::empty() =~= emitted);
                    }
                    return Some(Err(e));
                },
            }
        }
        proof {
            assert(emitted + Seq::<Lexeme>::empty() =~= emitted);
            assert(whole == ScanOutcome::Done(emitted, self.line as int));
        }
        let ghost before = self.tokens@;
        let eof = Token { token_type: TokenType::Eof, lexeme: String::new(), literal: None, line: self.line as u32 };
        self.tokens.push(eof);
        proof {
            assert(self.tokens@.subrange(0, n0 as int) =~= old(self).tokens@);
            assert(self.tokens@.subrange(n0 as int, (n0 + emitted.len()) as int)
                =~= before.subrange(n0 as int, before.len() as int));
            law_scan_last_line(src, old(self).current as int, old(self).line as int);
            law_scan_no_eof(src, old(self).current as int, old(self).line as int);
            let sub = self.tokens@.subrange(n0 as int, (n0 + emitted.len()) as int);
            assert forall|i: int| n0 <= i < self.tokens@.len() - 1
                implies (#[trigger] self.tokens@[i]).token_type != TokenType::Eof by {
                assert(sub[i - n0] == self.tokens@[i]);
                assert(token_matches(arith_of(host), sub[i - n0], src, emitted[i - n0]));
            }
        }
        Some(Ok(()))
    }
}

} // verus!
