use vstd::prelude::*;
use crate::token::{Token, SToken};
use crate::text::push_char;

verus! {

/// Whether a character is alphabetic, as Unicode defines it.
pub uninterp spec fn is_alphabetic_char(c: char) -> bool;

/// Whether a character is alphabetic or numeric, as Unicode defines it.
pub uninterp spec fn is_alphanumeric_char(c: char) -> bool;

/// Trusted: `char::is_alphabetic` tells whether `c` has the Unicode
/// Alphabetic property; the result is named, not stated.
#[verifier::external_body]
fn char_is_alphabetic(c: char) -> (r: bool)
    ensures
        r == is_alphabetic_char(c),
{
    c.is_alphabetic()
}

/// Trusted: `char::is_alphanumeric` tells whether `c` is alphabetic or
/// numeric (Unicode); its documentation says it holds of every alphabetic
/// character, which is the one fact stated besides the name.
#[verifier::external_body]
fn char_is_alphanumeric(c: char) -> (r: bool)
    ensures
        r == is_alphanumeric_char(c),
        is_alphabetic_char(c) ==> r,
{
    c.is_alphanumeric()
}

/// An ASCII decimal digit.
pub open spec fn is_digit(c: char) -> bool {
    48 <= (c as u32) <= 57
}

/// The state of the lexer: the input, the position, the stack of
/// indentation widths, the dedents still to emit, and whether the position
/// is at the start of a line.
pub struct LState {
    pub input: Seq<char>,
    pub pos: int,
    pub stack: Seq<int>,
    pub pending: int,
    pub line_start: bool,
}

/// The number of spaces from `pos` on.
pub open spec fn count_spaces(input: Seq<char>, pos: int) -> int
    decreases input.len() - pos,
{
    if 0 <= pos < input.len() && input[pos] == ' ' {
        1 + count_spaces(input, pos + 1)
    } else {
        0
    }
}

/// The first position from `pos` on that is not a space or a tab.
pub open spec fn skip_blank(input: Seq<char>, pos: int) -> int
    decreases input.len() - pos,
{
    if 0 <= pos < input.len() && (input[pos] == ' ' || input[pos] == '\t') {
        skip_blank(input, pos + 1)
    } else {
        pos
    }
}

/// The end of the run of digits from `pos` on.
pub open spec fn digits_end(input: Seq<char>, pos: int) -> int
    decreases input.len() - pos,
{
    if 0 <= pos < input.len() && is_digit(input[pos]) {
        digits_end(input, pos + 1)
    } else {
        pos
    }
}

/// The end of the run of identifier characters from `pos` on.
pub open spec fn ident_end(input: Seq<char>, pos: int) -> int
    decreases input.len() - pos,
{
    if 0 <= pos < input.len() && (is_alphanumeric_char(input[pos]) || input[pos] == '_') {
        ident_end(input, pos + 1)
    } else {
        pos
    }
}

/// The value of the decimal digits `input[p..q]`.
pub open spec fn digits_value(input: Seq<char>, p: int, q: int) -> int
    decreases q - p,
{
    if q <= p {
        0
    } else {
        digits_value(input, p, q - 1) * 10 + ((input[q - 1] as u32) - 48)
    }
}

/// The number of indentation widths on top of the stack that exceed `sp`.
pub open spec fn pop_count(stack: Seq<int>, sp: int) -> int
    decreases stack.len(),
{
    if stack.len() > 0 && sp < stack.last() {
        1 + pop_count(stack.drop_last(), sp)
    } else {
        0
    }
}

/// The token of a word: a keyword, or else an identifier.
pub open spec fn keyword(w: Seq<char>) -> SToken {
    if w == seq!['w', 'h', 'i', 'l', 'e'] {
        SToken::While
    } else if w == seq!['p', 'r', 'i', 'n', 't'] {
        SToken::Print
    } else if w == seq!['i', 'f'] {
        SToken::If
    } else if w == seq!['e', 'l', 's', 'e'] {
        SToken::Else
    } else if w == seq!['e', 'l', 's', 'e', 'i', 'f'] {
        SToken::ElseIf
    } else if w == seq!['b', 'r', 'e', 'a', 'k'] {
        SToken::Break
    } else if w == seq!['c', 'o', 'n', 't', 'i', 'n', 'u', 'e'] {
        SToken::Continue
    } else {
        SToken::Ident(w)
    }
}

/// The character that `\c` stands for in a string literal, for the escapes
/// the lexer knows: `\n`, `\t`, `\\`, `\"`, `\0` and `\r`.
pub open spec fn escape_char(c: char) -> Option<char> {
    if c == 'n' {
        Some('\n')
    } else if c == 't' {
        Some('\t')
    } else if c == '\\' {
        Some('\\')
    } else if c == '"' {
        Some('"')
    } else if c == '0' {
        Some('\0')
    } else if c == 'r' {
        Some('\r')
    } else {
        None
    }
}

/// The rest of a string literal from `pos`, after the text `acc` read so
/// far: the whole text and the position after the closing quote, or `None`
/// where the literal is not closed or holds an unknown escape.
pub open spec fn str_lit(input: Seq<char>, pos: int, acc: Seq<char>) -> Option<(Seq<char>, int)>
    decreases input.len() - pos,
{
    if !(0 <= pos < input.len()) {
        None
    } else if input[pos] == '"' {
        Some((acc, pos + 1))
    } else if input[pos] == '\\' {
        if pos + 1 < input.len() && escape_char(input[pos + 1]) is Some {
            str_lit(input, pos + 2, acc.push(escape_char(input[pos + 1]).unwrap()))
        } else {
            None
        }
    } else {
        str_lit(input, pos + 1, acc.push(input[pos]))
    }
}

/// The state at another position.
pub open spec fn at(st: LState, pos: int) -> LState {
    LState { pos, ..st }
}

/// The next token after any indentation has been handled: `None` where the
/// lexer rejects the input (an unknown character, a number too large for
/// `i32`, or a string literal that is not closed or holds an unknown
/// escape).
pub open spec fn lex_token(st: LState) -> Option<(LState, SToken)> {
    let input = st.input;
    let p = skip_blank(input, st.pos);
    if p >= input.len() {
        // end of input: close the open indentation levels, then `Eof`
        if st.stack.len() > 1 {
            Some((LState { pos: p, stack: st.stack.drop_last(), ..st }, SToken::Dedent))
        } else {
            Some((at(st, p), SToken::Eof))
        }
    } else {
        let c = input[p];
        let next_is = |d: char| p + 1 < input.len() && input[p + 1] == d;
        if c == '\n' {
            Some((LState { pos: p + 1, line_start: true, ..st }, SToken::Newline))
        } else if c == '\r' {
            Some((LState { pos: if next_is('\n') { p + 2 } else { p + 1 }, line_start: true, ..st }, SToken::Newline))
        } else if c == '+' {
            Some((at(st, p + 1), SToken::Plus))
        } else if c == '-' {
            Some((at(st, p + 1), SToken::Minus))
        } else if c == '*' {
            Some((at(st, p + 1), SToken::Star))
        } else if c == '/' {
            Some((at(st, p + 1), SToken::Slash))
        } else if c == '(' {
            Some((at(st, p + 1), SToken::LParen))
        } else if c == ')' {
            Some((at(st, p + 1), SToken::RParen))
        } else if c == ':' {
            Some((at(st, p + 1), SToken::Colon))
        } else if c == '=' {
            if next_is('=') { Some((at(st, p + 2), SToken::EqEq)) } else { Some((at(st, p + 1), SToken::Assign)) }
        } else if c == '<' {
            if next_is('=') { Some((at(st, p + 2), SToken::Le)) } else { Some((at(st, p + 1), SToken::Lt)) }
        } else if c == '>' {
            if next_is('=') { Some((at(st, p + 2), SToken::Ge)) } else { Some((at(st, p + 1), SToken::Gt)) }
        } else if c == '"' {
            match str_lit(input, p + 1, Seq::empty()) {
                Some(r) => Some((at(st, r.1), SToken::Str(r.0))),
                None => None,
            }
        } else if is_digit(c) {
            let q = digits_end(input, p);
            let v = digits_value(input, p, q);
            if v <= i32::MAX {
                Some((at(st, q), SToken::Int(v as i32)))
            } else {
                None
            }
        } else if is_alphabetic_char(c) || c == '_' {
            let q = ident_end(input, p);
            Some((at(st, q), keyword(input.subrange(p, q))))
        } else {
            None
        }
    }
}

/// One step of the lexer: the next state and the token, or `None` where the
/// lexer rejects the input. Pending dedents come first; at the start of a
/// line the indentation is compared with the current level.
pub open spec fn lex_step(st: LState) -> Option<(LState, SToken)> {
    if st.pending > 0 {
        Some((LState { pending: st.pending - 1, ..st }, SToken::Dedent))
    } else if st.line_start {
        let sp = count_spaces(st.input, st.pos);
        let st1 = LState { pos: st.pos + sp, line_start: false, ..st };
        let cur = st.stack.last();
        if sp > cur {
            Some((LState { stack: st.stack.push(sp), ..st1 }, SToken::Indent))
        } else if sp < cur {
            let k = pop_count(st.stack, sp);
            let st2 = LState { stack: st.stack.subrange(0, st.stack.len() - k), pending: k, ..st1 };
            if k > 0 {
                Some((LState { pending: k - 1, ..st2 }, SToken::Dedent))
            } else {
                lex_token(st2)
            }
        } else {
            lex_token(st1)
        }
    } else {
        lex_token(st)
    }
}

/// The state of a fresh lexer on `source`.
pub open spec fn lex_init(source: Seq<char>) -> LState {
    LState { input: source, pos: 0, stack: seq![0], pending: 0, line_start: true }
}

/// A measure that every step but the one that yields `Eof` decreases.
pub open spec fn lex_measure(st: LState) -> int {
    3 * (st.input.len() - st.pos) + 2 * st.stack.len() + st.pending + if st.line_start { 1int } else { 0int }
}

/// Digit values are not negative and grow as digits are added.
proof fn lemma_digits_value_mono(input: Seq<char>, p: int, k: int, q: int)
    requires
        0 <= p <= k <= q,
        q <= input.len(),
        forall|i: int| p <= i < q ==> is_digit(#[trigger] input[i]),
    ensures
        0 <= digits_value(input, p, k) <= digits_value(input, p, q),
    decreases q - k,
{
    if k < q {
        lemma_digits_value_mono(input, p, k, q - 1);
        lemma_digits_value_mono(input, p, q - 1, q - 1);
        assert(is_digit(input[q - 1]));
    } else {
        lemma_digits_value_nonneg(input, p, q);
    }
}

proof fn lemma_digits_value_nonneg(input: Seq<char>, p: int, q: int)
    requires
        0 <= p <= q <= input.len(),
        forall|i: int| p <= i < q ==> is_digit(#[trigger] input[i]),
    ensures
        0 <= digits_value(input, p, q),
    decreases q - p,
{
    if p < q {
        lemma_digits_value_nonneg(input, p, q - 1);
        assert(is_digit(input[q - 1]));
    }
}

/// The run of digits ends after `pos` and holds only digits.
proof fn lemma_digits_end(input: Seq<char>, pos: int)
    requires
        0 <= pos <= input.len(),
    ensures
        pos <= digits_end(input, pos) <= input.len(),
        forall|i: int| pos <= i < digits_end(input, pos) ==> is_digit(#[trigger] input[i]),
    decreases input.len() - pos,
{
    if pos < input.len() && is_digit(input[pos]) {
        lemma_digits_end(input, pos + 1);
    }
}

proof fn lemma_ident_end(input: Seq<char>, pos: int)
    requires
        0 <= pos <= input.len(),
    ensures
        pos <= ident_end(input, pos) <= input.len(),
    decreases input.len() - pos,
{
    if pos < input.len() && (is_alphanumeric_char(input[pos]) || input[pos] == '_') {
        lemma_ident_end(input, pos + 1);
    }
}

proof fn lemma_skip_blank(input: Seq<char>, pos: int)
    requires
        0 <= pos <= input.len(),
    ensures
        pos <= skip_blank(input, pos) <= input.len(),
    decreases input.len() - pos,
{
    if pos < input.len() && (input[pos] == ' ' || input[pos] == '\t') {
        lemma_skip_blank(input, pos + 1);
    }
}

proof fn lemma_count_spaces(input: Seq<char>, pos: int)
    requires
        0 <= pos <= input.len(),
    ensures
        0 <= count_spaces(input, pos) <= input.len() - pos,
    decreases input.len() - pos,
{
    if pos < input.len() && input[pos] == ' ' {
        lemma_count_spaces(input, pos + 1);
    }
}

proof fn lemma_pop_count(stack: Seq<int>, sp: int)
    ensures
        0 <= pop_count(stack, sp) <= stack.len(),
        stack.len() > 0 && stack[0] <= sp ==> pop_count(stack, sp) < stack.len(),
    decreases stack.len(),
{
    if stack.len() > 0 && sp < stack.last() {
        lemma_pop_count(stack.drop_last(), sp);
        if stack.len() > 1 {
            assert(stack.drop_last()[0] == stack[0]);
        }
    }
}

/// The characters of a text.
fn chars_of(s: &str) -> (r: Vec<char>)
    ensures
        r@ == s@,
{
    let mut v: Vec<char> = Vec::new();
    let n = s.unicode_len();
    let mut i: usize = 0;
    while i < n
        invariant
            i <= n,
            n == s@.len(),
            v@ == s@.subrange(0, i as int),
        decreases n - i,
    {
        v.push(s.get_char(i));
        i += 1;
    }
    v
}

/// The character that `\c` stands for in a string literal.
fn escape_of(c: char) -> (r: Option<char>)
    ensures
        r == escape_char(c),
{
    if c == 'n' {
        Some('\n')
    } else if c == 't' {
        Some('\t')
    } else if c == '\\' {
        Some('\\')
    } else if c == '"' {
        Some('"')
    } else if c == '0' {
        Some('\0')
    } else if c == 'r' {
        Some('\r')
    } else {
        None
    }
}

/// Whether the string literal whose text starts at `p` is well formed.
fn str_lit_ok(input: &Vec<char>, p: usize) -> (r: bool)
    ensures
        r == str_lit(input@, p as int, Seq::empty()) is Some,
{
    let ghost goal = str_lit(input@, p as int, Seq::empty());
    let ghost mut acc: Seq<char> = Seq::empty();
    let mut k: usize = p;
    loop
        invariant
            p <= k,
            goal == str_lit(input@, p as int, Seq::empty()),
            str_lit(input@, k as int, acc) == goal,
        decreases input.len() - k,
    {
        if k >= input.len() {
            return false;
        }
        let c = input[k];
        assert(c == input@[k as int]);
        if c == '"' {
            return true;
        } else if c == '\\' {
            if k + 1 >= input.len() {
                return false;
            }
            assert(input[k + 1] == input@[k + 1]);
            match escape_of(input[k + 1]) {
                Some(e) => {
                    proof {
                        acc = acc.push(e);
                    }
                    k = k + 2;
                },
                None => {
                    return false;
                },
            }
        } else {
            proof {
                acc = acc.push(c);
            }
            k = k + 1;
        }
    }
}

/// Whether `input[p..q]` is the word `w`.
fn word_eq(input: &Vec<char>, p: usize, q: usize, w: &Vec<char>) -> (r: bool)
    requires
        p <= q <= input.len(),
    ensures
        r == (input@.subrange(p as int, q as int) == w@),
{
    if q - p != w.len() {
        return false;
    }
    let mut i: usize = 0;
    while i < w.len()
        invariant
            p <= q <= input.len(),
            q - p == w.len(),
            i <= w.len(),
            forall|k: int| 0 <= k < i ==> input@[p + k] == w@[k],
        decreases w.len() - i,
    {
        if input[p + i] != w[i] {
            assert(input@.subrange(p as int, q as int)[i as int] != w@[i as int]);
            return false;
        }
        i += 1;
    }
    assert(input@.subrange(p as int, q as int) =~= w@);
    true
}

/// The token of the word `input[p..q]`, whose text is `ident`.
fn keyword_token(input: &Vec<char>, p: usize, q: usize, ident: String) -> (r: Token)
    requires
        p <= q <= input.len(),
        ident@ == input@.subrange(p as int, q as int),
    ensures
        r@ == keyword(input@.subrange(p as int, q as int)),
{
    if word_eq(input, p, q, &vec!['w', 'h', 'i', 'l', 'e']) {
        Token::While
    } else if word_eq(input, p, q, &vec!['p', 'r', 'i', 'n', 't']) {
        Token::Print
    } else if word_eq(input, p, q, &vec!['i', 'f']) {
        Token::If
    } else if word_eq(input, p, q, &vec!['e', 'l', 's', 'e']) {
        Token::Else
    } else if word_eq(input, p, q, &vec!['e', 'l', 's', 'e', 'i', 'f']) {
        Token::ElseIf
    } else if word_eq(input, p, q, &vec!['b', 'r', 'e', 'a', 'k']) {
        Token::Break
    } else if word_eq(input, p, q, &vec!['c', 'o', 'n', 't', 'i', 'n', 'u', 'e']) {
        Token::Continue
    } else {
        Token::Ident(ident)
    }
}

/// Once the lexer has produced `Eof`, it produces `Eof` again and again and
/// stays where it is.
pub proof fn law_eof_is_final(st: LState)
    requires
        0 <= st.pos <= st.input.len(),
        st.stack.len() >= 1,
        st.pending >= 0,
        lex_step(st) is Some,
        lex_step(st).unwrap().1 == SToken::Eof,
    ensures
        lex_step(lex_step(st).unwrap().0) == Some((lex_step(st).unwrap().0, SToken::Eof)),
{
    let s1 = lex_step(st).unwrap().0;
    assert(st.pending == 0);
    let base = if st.line_start { st.pos + count_spaces(st.input, st.pos) } else { st.pos };
    lemma_count_spaces(st.input, st.pos);
    lemma_skip_blank(st.input, base);
    if st.line_start {
        let sp = count_spaces(st.input, st.pos);
        let cur = st.stack.last();
        assert(sp == cur) by {
            if sp < cur {
                lemma_pop_count(st.stack.drop_last(), sp);
                assert(pop_count(st.stack, sp) > 0);
            }
        }
    }
    assert(s1.pos == skip_blank(st.input, base));
    assert(s1.pos >= s1.input.len());
    lemma_skip_blank(s1.input, s1.pos);
    assert(at(s1, s1.pos) == s1);
}

/// The `Indent` tokens minus the `Dedent` tokens of a token sequence: the
/// indentation levels the tokens leave open.
pub open spec fn indent_depth(toks: Seq<SToken>) -> int
    decreases toks.len(),
{
    if toks.len() == 0 {
        0
    } else {
        indent_depth(toks.drop_last()) + if toks.last() == SToken::Indent {
            1int
        } else if toks.last() == SToken::Dedent {
            -1int
        } else {
            0int
        }
    }
}

/// The levels a state still has to close: those on its stack above the
/// outermost one, and the dedents it has still to emit.
pub open spec fn open_levels(st: LState) -> int {
    st.stack.len() - 1 + st.pending
}

/// The shape of the indentation stack that every step keeps.
pub open spec fn stack_ok(st: LState) -> bool {
    st.stack.len() >= 1 && st.stack[0] == 0 && st.pending >= 0
}

/// A step opens a level exactly when it gives `Indent`, closes one exactly
/// when it gives `Dedent`, and gives `Eof` only with no level open.
proof fn lemma_step_levels(st: LState)
    requires
        stack_ok(st),
        lex_step(st) is Some,
    ensures
        stack_ok(lex_step(st).unwrap().0),
        open_levels(lex_step(st).unwrap().0) == open_levels(st) + if lex_step(st).unwrap().1 == SToken::Indent {
            1int
        } else if lex_step(st).unwrap().1 == SToken::Dedent {
            -1int
        } else {
            0int
        },
        lex_step(st).unwrap().1 == SToken::Eof ==> open_levels(lex_step(st).unwrap().0) == 0,
{
    if st.pending > 0 {
    } else if st.line_start {
        let sp = count_spaces(st.input, st.pos);
        let cur = st.stack.last();
        lemma_count_spaces_nonneg(st.input, st.pos);
        if sp > cur {
            assert(st.stack.push(sp)[0] == 0);
        } else if sp < cur {
            let k = pop_count(st.stack, sp);
            lemma_pop_count(st.stack, sp);
            let st1 = LState { pos: st.pos + sp, line_start: false, ..st };
            let st2 = LState { stack: st.stack.subrange(0, st.stack.len() - k), pending: k, ..st1 };
            assert(st2.stack[0] == 0);
            if k == 0 {
                lemma_token_levels(st2);
            }
        } else {
            lemma_token_levels(LState { pos: st.pos + sp, line_start: false, ..st });
        }
    } else {
        lemma_token_levels(st);
    }
}

proof fn lemma_count_spaces_nonneg(input: Seq<char>, pos: int)
    ensures
        count_spaces(input, pos) >= 0,
    decreases input.len() - pos,
{
    if 0 <= pos < input.len() && input[pos] == ' ' {
        lemma_count_spaces_nonneg(input, pos + 1);
    }
}

/// What `lemma_step_levels` states, for a step that needs no indentation
/// handling.
proof fn lemma_token_levels(st: LState)
    requires
        stack_ok(st),
        st.pending == 0,
        lex_token(st) is Some,
    ensures
        stack_ok(lex_token(st).unwrap().0),
        open_levels(lex_token(st).unwrap().0) == open_levels(st) + if lex_token(st).unwrap().1 == SToken::Dedent {
            -1int
        } else {
            0int
        },
        lex_token(st).unwrap().1 != SToken::Indent,
        lex_token(st).unwrap().1 == SToken::Eof ==> open_levels(lex_token(st).unwrap().0) == 0,
{
    let p = skip_blank(st.input, st.pos);
    if p >= st.input.len() && st.stack.len() > 1 {
        assert(st.stack.drop_last()[0] == 0);
    }
}

/// After any run of the lexer from the start of a text, the levels its
/// tokens leave open are those the lexer has still to close.
proof fn lemma_run_levels(source: Seq<char>, toks: Seq<SToken>)
    requires
        lex_after(lex_init(source), toks) is Some,
    ensures
        stack_ok(lex_after(lex_init(source), toks).unwrap()),
        indent_depth(toks) == open_levels(lex_after(lex_init(source), toks).unwrap()),
    decreases toks.len(),
{
    if toks.len() == 0 {
        assert(lex_init(source).stack[0] == 0);
    } else {
        let prev = toks.drop_last();
        lemma_run_levels(source, prev);
        let s = lex_after(lex_init(source), prev).unwrap();
        lemma_step_levels(s);
    }
}

/// The indentation tokens of a text balance: no `Dedent` closes a level
/// that no `Indent` opened, and once the lexer gives `Eof` every level
/// opened has been closed.
pub proof fn law_indentation_balances(source: Seq<char>, toks: Seq<SToken>)
    requires
        lex_after(lex_init(source), toks) is Some,
    ensures
        indent_depth(toks) >= 0,
        toks.len() > 0 && toks.last() == SToken::Eof ==> indent_depth(toks) == 0,
{
    lemma_run_levels(source, toks);
    if toks.len() > 0 && toks.last() == SToken::Eof {
        let prev = toks.drop_last();
        lemma_run_levels(source, prev);
        lemma_step_levels(lex_after(lex_init(source), prev).unwrap());
    }
}

/// The models of tokens.
pub open spec fn tokens_model(v: Seq<Token>) -> Seq<SToken> {
    Seq::new(v.len(), |i: int| v[i]@)
}

/// The state after the lexer produced exactly `toks` from `st`, if it does.
pub open spec fn lex_after(st: LState, toks: Seq<SToken>) -> Option<LState>
    decreases toks.len(),
{
    if toks.len() == 0 {
        Some(st)
    } else {
        match lex_after(st, toks.drop_last()) {
            Some(s) => match lex_step(s) {
                Some(step) => if step.1 == toks.last() {
                    Some(step.0)
                } else {
                    None
                },
                None => None,
            },
            None => None,
        }
    }
}

/// No token of the sequence is `Eof`.
pub open spec fn no_eof(toks: Seq<SToken>) -> bool {
    forall|i: int| 0 <= i < toks.len() ==> toks[i] != SToken::Eof
}

/// The position after the spaces from `pos` on.
fn scan_spaces(input: &Vec<char>, pos: usize) -> (r: usize)
    requires
        pos <= input.len(),
    ensures
        r == pos + count_spaces(input@, pos as int),
        pos <= r <= input.len(),
{
    proof {
        lemma_count_spaces(input@, pos as int);
    }
    let mut q = pos;
    while q < input.len() && input[q] == ' '
        invariant
            pos <= q <= input.len(),
            q - pos + count_spaces(input@, q as int) == count_spaces(input@, pos as int),
        decreases input.len() - q,
    {
        q += 1;
    }
    q
}

/// The position after the spaces and tabs from `pos` on.
fn scan_blank(input: &Vec<char>, pos: usize) -> (r: usize)
    requires
        pos <= input.len(),
    ensures
        r == skip_blank(input@, pos as int),
{
    let mut q = pos;
    while q < input.len() && (input[q] == ' ' || input[q] == '\t')
        invariant
            pos <= q <= input.len(),
            skip_blank(input@, q as int) == skip_blank(input@, pos as int),
        decreases input.len() - q,
    {
        q += 1;
    }
    q
}

/// Whether the number whose digits start at `p` fits in an `i32`.
fn digits_fit(input: &Vec<char>, p: usize) -> (r: bool)
    requires
        p <= input.len(),
    ensures
        r == (digits_value(input@, p as int, digits_end(input@, p as int)) <= i32::MAX),
{
    let ghost q = digits_end(input@, p as int);
    proof {
        lemma_digits_end(input@, p as int);
    }
    let mut acc: u64 = 0;
    let mut k = p;
    while k < input.len() && 48 <= (input[k] as u32) && (input[k] as u32) <= 57
        invariant
            p <= k <= q,
            q == digits_end(input@, p as int),
            q == digits_end(input@, k as int),
            q <= input.len(),
            forall|i: int| p <= i < q ==> is_digit(#[trigger] input@[i]),
            acc == digits_value(input@, p as int, k as int),
            acc <= i32::MAX,
        decreases input.len() - k,
    {
        proof {
            lemma_digits_end(input@, k + 1);
        }
        let d = (input[k] as u32 - 48) as u64;
        acc = acc * 10 + d;
        k += 1;
        if acc > 2147483647 {
            proof {
                lemma_digits_value_mono(input@, p as int, k as int, q);
            }
            return false;
        }
    }
    true
}

/// An indentation-aware lexer: it emits `Indent` and `Dedent` tokens where
/// the indentation of a line grows or shrinks.
pub struct Lexer {
    input: Vec<char>,
    pos: usize,
    indent_stack: Vec<usize>,
    pending_dedents: usize,
    line_start: bool,
}

/// Indentation widths as integers.
pub open spec fn widths(v: Seq<usize>) -> Seq<int> {
    Seq::new(v.len(), |i: int| v[i] as int)
}

impl Lexer {
    /// The lexer's state.
    pub closed spec fn model(&self) -> LState {
        LState {
            input: self.input@,
            pos: self.pos as int,
            stack: widths(self.indent_stack@),
            pending: self.pending_dedents as int,
            line_start: self.line_start,
        }
    }

    /// The lexer's state is consistent: the position lies in the input, the
    /// outermost indentation level is 0, and the dedents still to emit and
    /// the open levels are bounded by the input read.
    pub closed spec fn wf(&self) -> bool {
        &&& self.pos <= self.input.len()
        &&& self.indent_stack.len() >= 1
        &&& self.indent_stack@[0] == 0
        &&& self.pending_dedents + self.indent_stack.len() <= self.pos + 1
    }

    /// A lexer at the start of `source`.
    pub fn new(source: &str) -> (r: Self)
        ensures
            r.wf(),
            r.model() == lex_init(source@),
    {
        let r = Self { input: chars_of(source), pos: 0, indent_stack: vec![0], pending_dedents: 0, line_start: true };
        assert(r.model().stack =~= seq![0int]);
        r
    }

    fn peek(&self) -> (r: Option<char>)
        ensures
            r == (if self.pos < self.input.len() { Some(self.input@[self.pos as int]) } else { None::<char> }),
    {
        if self.pos < self.input.len() {
            Some(self.input[self.pos])
        } else {
            None
        }
    }

    fn advance(&mut self) -> (r: Option<char>)
        requires
            old(self).pos <= old(self).input.len(),
        ensures
            r == (if old(self).pos < old(self).input.len() { Some(old(self).input@[old(self).pos as int]) } else { None::<char> }),
            final(self).pos == (if old(self).pos < old(self).input.len() { old(self).pos + 1 } else { old(self).pos as int }),
            final(self).input == old(self).input,
            final(self).indent_stack == old(self).indent_stack,
            final(self).pending_dedents == old(self).pending_dedents,
            final(self).line_start == old(self).line_start,
    {
        let ch = self.peek();
        if ch.is_some() {
            self.pos += 1;
        }
        ch
    }

    // Only skip spaces/tabs INSIDE a line (not indentation)
    fn skip_inline_whitespace(&mut self)
        requires
            old(self).pos <= old(self).input.len(),
        ensures
            final(self).pos == skip_blank(old(self).input@, old(self).pos as int),
            final(self).input == old(self).input,
            final(self).indent_stack == old(self).indent_stack,
            final(self).pending_dedents == old(self).pending_dedents,
            final(self).line_start == old(self).line_start,
    {
        loop
            invariant
                self.pos <= self.input.len(),
                skip_blank(self.input@, self.pos as int) == skip_blank(old(self).input@, old(self).pos as int),
                self.input == old(self).input,
                self.indent_stack == old(self).indent_stack,
                self.pending_dedents == old(self).pending_dedents,
                self.line_start == old(self).line_start,
            ensures
                self.pos == skip_blank(old(self).input@, old(self).pos as int),
                self.input == old(self).input,
                self.indent_stack == old(self).indent_stack,
                self.pending_dedents == old(self).pending_dedents,
                self.line_start == old(self).line_start,
            decreases self.input.len() - self.pos,
        {
            match self.peek() {
                Some(ch) if ch == ' ' || ch == '\t' => {
                    self.advance();
                },
                _ => break,
            }
        }
    }

    fn read_number(&mut self) -> (r: i32)
        requires
            old(self).pos <= old(self).input.len(),
            digits_value(old(self).input@, old(self).pos as int, digits_end(old(self).input@, old(self).pos as int)) <= i32::MAX,
        ensures
            final(self).pos == digits_end(old(self).input@, old(self).pos as int),
            r == digits_value(old(self).input@, old(self).pos as int, final(self).pos as int),
            final(self).input == old(self).input,
            final(self).indent_stack == old(self).indent_stack,
            final(self).pending_dedents == old(self).pending_dedents,
            final(self).line_start == old(self).line_start,
    {
        let ghost input = self.input@;
        let ghost p = old(self).pos as int;
        let ghost q = digits_end(input, p);
        proof {
            lemma_digits_end(input, p);
        }
        let mut num: i32 = 0;
        loop
            invariant
                p <= self.pos <= q,
                input == self.input@,
                q == digits_end(input, p),
                q == digits_end(input, self.pos as int),
                q <= input.len(),
                forall|i: int| p <= i < q ==> is_digit(#[trigger] input[i]),
                digits_value(input, p, q) <= i32::MAX,
                num == digits_value(input, p, self.pos as int),
                self.input == old(self).input,
                self.indent_stack == old(self).indent_stack,
                self.pending_dedents == old(self).pending_dedents,
                self.line_start == old(self).line_start,
            ensures
                self.pos == q,
                num == digits_value(input, p, q),
                self.input == old(self).input,
                self.indent_stack == old(self).indent_stack,
                self.pending_dedents == old(self).pending_dedents,
                self.line_start == old(self).line_start,
            decreases self.input.len() - self.pos,
        {
            proof {
                if self.pos < input.len() {
                    let c = input[self.pos as int];
                    lemma_digits_end(input, self.pos + 1);
                }
            }
            match self.peek() {
                Some(ch) if 48 <= (ch as u32) && (ch as u32) <= 57 => {
                    proof {
                        lemma_digits_value_mono(input, p, self.pos + 1, q);
                    }
                    let d = (ch as u32 - 48) as i32;
                    num = num * 10 + d;
                    self.advance();
                },
                _ => break,
            }
        }
        num
    }

    fn read_ident(&mut self) -> (r: String)
        requires
            old(self).pos <= old(self).input.len(),
        ensures
            final(self).pos == ident_end(old(self).input@, old(self).pos as int),
            old(self).pos < old(self).input.len() && (is_alphabetic_char(old(self).input@[old(self).pos as int])
                || old(self).input@[old(self).pos as int] == '_') ==> final(self).pos > old(self).pos,
            r@ == old(self).input@.subrange(old(self).pos as int, final(self).pos as int),
            final(self).input == old(self).input,
            final(self).indent_stack == old(self).indent_stack,
            final(self).pending_dedents == old(self).pending_dedents,
            final(self).line_start == old(self).line_start,
    {
        let ghost input = self.input@;
        let ghost p = old(self).pos as int;
        let mut ident = String::new();
        loop
            invariant
                p == old(self).pos as int,
                p <= self.pos <= self.input.len(),
                input == self.input@,
                ident_end(input, self.pos as int) == ident_end(input, p),
                ident@ == input.subrange(p, self.pos as int),
                self.input == old(self).input,
                self.indent_stack == old(self).indent_stack,
                self.pending_dedents == old(self).pending_dedents,
                self.line_start == old(self).line_start,
            ensures
                self.pos == ident_end(input, p),
                ident@ == input.subrange(p, self.pos as int),
                p < input.len() && (is_alphabetic_char(input[p]) || input[p] == '_') ==> self.pos > p,
                self.input == old(self).input,
                self.indent_stack == old(self).indent_stack,
                self.pending_dedents == old(self).pending_dedents,
                self.line_start == old(self).line_start,
            decreases self.input.len() - self.pos,
        {
            let more = match self.peek() {
                Some(ch) => char_is_alphanumeric(ch) || ch == '_',
                None => false,
            };
            if !more {
                break;
            }
            assert(self.pos < self.input.len());
            let ch = self.input[self.pos];
            let ghost q0 = self.pos as int;
            let ghost before = ident@;
            push_char(&mut ident, ch);
            self.advance();
            proof {
                assert(ch == input[q0]);
                assert(input.subrange(p, q0 + 1) =~= input.subrange(p, q0).push(input[q0]));
                assert(ident@ =~= input.subrange(p, self.pos as int));
            }
        }
        ident
    }

    /// A string literal from its opening quote: its text, or `None` where
    /// it is not closed or holds an unknown escape.
    fn read_string(&mut self) -> (r: Option<String>)
        requires
            old(self).pos < old(self).input.len(),
            old(self).input@[old(self).pos as int] == '"',
        ensures
            match r {
                Some(text) => str_lit(old(self).input@, old(self).pos + 1, Seq::empty())
                    == Some((text@, final(self).pos as int)) && final(self).pos > old(self).pos
                    && final(self).pos <= final(self).input.len(),
                None => str_lit(old(self).input@, old(self).pos + 1, Seq::empty()) is None,
            },
            final(self).input == old(self).input,
            final(self).indent_stack == old(self).indent_stack,
            final(self).pending_dedents == old(self).pending_dedents,
            final(self).line_start == old(self).line_start,
    {
        let ghost input = self.input@;
        let ghost goal = str_lit(input, old(self).pos + 1, Seq::empty());
        self.advance();
        let mut text = String::new();
        loop
            invariant
                input == self.input@,
                old(self).pos < self.pos,
                goal == str_lit(old(self).input@, old(self).pos + 1, Seq::empty()),
                str_lit(input, self.pos as int, text@) == goal,
                self.input == old(self).input,
                self.indent_stack == old(self).indent_stack,
                self.pending_dedents == old(self).pending_dedents,
                self.line_start == old(self).line_start,
            decreases self.input.len() - self.pos,
        {
            if self.pos >= self.input.len() {
                return None;
            }
            let c = self.input[self.pos];
            assert(c == input[self.pos as int]);
            if c == '"' {
                self.advance();
                return Some(text);
            } else if c == '\\' {
                if self.pos + 1 >= self.input.len() {
                    return None;
                }
                assert(self.input[self.pos + 1] == input[self.pos + 1]);
                match escape_of(self.input[self.pos + 1]) {
                    Some(e) => {
                        push_char(&mut text, e);
                        self.advance();
                        self.advance();
                    },
                    None => {
                        return None;
                    },
                }
            } else {
                push_char(&mut text, c);
                self.advance();
            }
        }
    }

    /// Whether the next character is `c`.
    fn next_is(&self, c: char) -> (r: bool)
        ensures
            r == (self.pos < self.input.len() && self.input@[self.pos as int] == c),
    {
        self.pos < self.input.len() && self.input[self.pos] == c
    }

    /// A token of one character.
    fn single(&mut self, tok: Token) -> (r: Token)
        requires
            old(self).pos < old(self).input.len(),
        ensures
            r == tok,
            final(self).pos == old(self).pos + 1,
            final(self).input == old(self).input,
            final(self).indent_stack == old(self).indent_stack,
            final(self).pending_dedents == old(self).pending_dedents,
            final(self).line_start == old(self).line_start,
    {
        self.advance();
        tok
    }

    /// A token of one or two characters: `two` when `second` follows.
    fn one_or_two(&mut self, second: char, one: Token, two: Token) -> (r: Token)
        requires
            old(self).pos < old(self).input.len(),
        ensures
            old(self).pos + 1 < old(self).input.len() && old(self).input@[old(self).pos + 1] == second ==> r == two && final(self).pos == old(self).pos + 2,
            !(old(self).pos + 1 < old(self).input.len() && old(self).input@[old(self).pos + 1] == second) ==> r == one && final(self).pos == old(self).pos + 1,
            final(self).input == old(self).input,
            final(self).indent_stack == old(self).indent_stack,
            final(self).pending_dedents == old(self).pending_dedents,
            final(self).line_start == old(self).line_start,
    {
        self.advance();
        if self.next_is(second) {
            self.advance();
            two
        } else {
            one
        }
    }

    /// The next token once indentation is handled.
    #[verifier::rlimit(30)]
    fn lex_token_exec(&mut self) -> (tok: Token)
        requires
            old(self).wf(),
            !old(self).line_start,
            lex_token(old(self).model()) is Some,
        ensures
            final(self).wf(),
            (final(self).model(), tok@) == lex_token(old(self).model()).unwrap(),
            tok@ != SToken::Eof ==> lex_measure(final(self).model()) < lex_measure(old(self).model()),
            tok@ == SToken::Eof ==> lex_measure(final(self).model()) <= lex_measure(old(self).model()),
    {
        let ghost st = self.model();
        proof {
            lemma_skip_blank(self.input@, self.pos as int);
        }
        // --- Skip spaces inside line ---
        self.skip_inline_whitespace();
        let ghost p = self.pos as int;
        if self.pos >= self.input.len() {
            // end of input: close the remaining indentation levels
            if self.indent_stack.len() > 1 {
                self.indent_stack.pop();
                assert(self.model().stack =~= st.stack.drop_last());
                return Token::Dedent;
            }
            return Token::Eof;
        }
        let ch = self.input[self.pos];
        assert(ch == st.input[p]);
        if ch == '\n' {
            self.advance();
            self.line_start = true;
            Token::Newline
        } else if ch == '\r' {
            // Windows CRLF support
            self.advance();
            if self.next_is('\n') {
                self.advance();
            }
            self.line_start = true;
            Token::Newline
        } else if ch == '+' {
            self.single(Token::Plus)
        } else if ch == '-' {
            self.single(Token::Minus)
        } else if ch == '*' {
            self.single(Token::Star)
        } else if ch == '/' {
            self.single(Token::Slash)
        } else if ch == '(' {
            self.single(Token::LParen)
        } else if ch == ')' {
            self.single(Token::RParen)
        } else if ch == ':' {
            self.single(Token::Colon)
        } else if ch == '=' {
            self.one_or_two('=', Token::Assign, Token::EqEq)
        } else if ch == '<' {
            self.one_or_two('=', Token::Lt, Token::Le)
        } else if ch == '>' {
            self.one_or_two('=', Token::Gt, Token::Ge)
        } else if ch == '"' {
            match self.read_string() {
                Some(text) => Token::Str(text),
                None => Token::Eof,
            }
        } else if 48 <= (ch as u32) && (ch as u32) <= 57 {
            proof {
                lemma_digits_end(st.input, p);
                lemma_digits_end(st.input, p + 1);
            }
            let value = self.read_number();
            Token::Int(value)
        } else if char_is_alphabetic(ch) || ch == '_' {
            let start = self.pos;
            let ident = self.read_ident();
            proof {
                lemma_ident_end(st.input, p);
            }
            keyword_token(&self.input, start, self.pos, ident)
        } else {
            Token::Eof
        }
    }


    /// The next token. Indentation growth gives `Indent`; indentation that
    /// shrinks gives one `Dedent` per level closed; the end of the input
    /// closes the open levels, then gives `Eof` again and again.
    #[verifier::rlimit(30)]
    pub fn next_token(&mut self) -> (tok: Token)
        requires
            old(self).wf(),
            lex_step(old(self).model()) is Some,
        ensures
            final(self).wf(),
            (final(self).model(), tok@) == lex_step(old(self).model()).unwrap(),
            tok@ != SToken::Eof ==> lex_measure(final(self).model()) < lex_measure(old(self).model()),
    {
        let ghost st = self.model();
        // --- Emit pending dedents first ---
        if self.pending_dedents > 0 {
            self.pending_dedents -= 1;
            return Token::Dedent;
        }
        // --- Handle indentation at start of line ---
        if self.line_start {
            let ghost start = self.pos as int;
            proof {
                lemma_count_spaces(st.input, start);
            }
            let mut spaces: usize = 0;
            loop
                invariant
                    start == st.pos,
                    0 <= start,
                    self.input@ == st.input,
                    self.pos <= self.input.len(),
                    spaces == self.pos - start,
                    spaces + count_spaces(st.input, self.pos as int) == count_spaces(st.input, start),
                    self.indent_stack == old(self).indent_stack,
                    self.pending_dedents == 0,
                    self.line_start,
                ensures
                    self.input@ == st.input,
                    self.pos <= self.input.len(),
                    spaces == self.pos - start,
                    spaces == count_spaces(st.input, start),
                    self.indent_stack == old(self).indent_stack,
                    self.pending_dedents == 0,
                    self.line_start,
                decreases self.input.len() - self.pos,
            {
                if self.next_is(' ') {
                    spaces += 1;
                    self.advance();
                } else {
                    break;
                }
            }
            self.line_start = false;
            let current = self.indent_stack[self.indent_stack.len() - 1];
            assert(current as int == st.stack.last());
            if spaces > current {
                self.indent_stack.push(spaces);
                assert(self.model().stack =~= st.stack.push(spaces as int));
                return Token::Indent;
            }
            if spaces < current {
                let ghost stack0 = self.indent_stack@;
                loop
                    invariant
                        self.input@ == st.input,
                        self.pos <= self.input.len(),
                        self.pos == st.pos + spaces,
                        !self.line_start,
                        self.indent_stack.len() >= 1,
                        self.indent_stack@[0] == 0,
                        stack0 == old(self).indent_stack@,
                        self.pending_dedents + self.indent_stack.len() == stack0.len(),
                        self.indent_stack@ == stack0.subrange(0, self.indent_stack.len() as int),
                        pop_count(widths(stack0), spaces as int) == self.pending_dedents + pop_count(widths(self.indent_stack@), spaces as int),
                        stack0.len() <= st.pos + 1,
                    ensures
                        self.input@ == st.input,
                        self.pos == st.pos + spaces,
                        !self.line_start,
                        self.indent_stack.len() >= 1,
                        self.indent_stack@[0] == 0,
                        self.pending_dedents + self.indent_stack.len() == stack0.len(),
                        self.indent_stack@ == stack0.subrange(0, self.indent_stack.len() as int),
                        pop_count(widths(stack0), spaces as int) == self.pending_dedents,
                    decreases self.indent_stack.len(),
                {
                    let top = self.indent_stack[self.indent_stack.len() - 1];
                    let ghost w = widths(self.indent_stack@);
                    assert(w.last() == top as int);
                    if spaces < top {
                        assert(self.indent_stack.len() >= 2);
                        self.indent_stack.pop();
                        self.pending_dedents += 1;
                        assert(widths(self.indent_stack@) =~= w.drop_last());
                        assert(self.indent_stack@ =~= stack0.subrange(0, self.indent_stack.len() as int));
                    } else {
                        break;
                    }
                }
                proof {
                    assert(widths(self.indent_stack@) =~= st.stack.subrange(0, st.stack.len() - self.pending_dedents));
                }
                if self.pending_dedents > 0 {
                    self.pending_dedents -= 1;
                    return Token::Dedent;
                }
            }
        }
        self.lex_token_exec()
    }


    /// Whether the lexer accepts what comes next (else `next_token` would
    /// meet an unknown character, a number too large for `i32` or a
    /// malformed string literal).
    pub fn next_lexes(&self) -> (r: bool)
        requires
            self.wf(),
        ensures
            r == lex_step(self.model()) is Some,
    {
        let ghost st = self.model();
        if self.pending_dedents > 0 {
            return true;
        }
        let mut p = self.pos;
        if self.line_start {
            p = scan_spaces(&self.input, self.pos);
            let sp = p - self.pos;
            let current = self.indent_stack[self.indent_stack.len() - 1];
            assert(current as int == st.stack.last());
            if sp != current {
                proof {
                    lemma_pop_count(st.stack.drop_last(), sp as int);
                }
                return true;
            }
        }
        proof {
            lemma_skip_blank(st.input, p as int);
        }
        let q = scan_blank(&self.input, p);
        if q >= self.input.len() {
            return true;
        }
        let c = self.input[q];
        if c == '\n' || c == '\r' || c == '+' || c == '-' || c == '*' || c == '/' || c == '(' || c == ')'
            || c == ':' || c == '=' || c == '<' || c == '>' {
            true
        } else if c == '"' {
            str_lit_ok(&self.input, q + 1)
        } else if 48 <= (c as u32) && (c as u32) <= 57 {
            digits_fit(&self.input, q)
        } else {
            char_is_alphabetic(c) || c == '_'
        }
    }

    /// The next token, or `None` (and no change) where the lexer rejects
    /// the input.
    pub fn try_next_token(&mut self) -> (r: Option<Token>)
        requires
            old(self).wf(),
        ensures
            final(self).wf(),
            match r {
                Some(tok) => lex_step(old(self).model()) is Some
                    && (final(self).model(), tok@) == lex_step(old(self).model()).unwrap()
                    && (tok@ != SToken::Eof ==> lex_measure(final(self).model()) < lex_measure(old(self).model())),
                None => lex_step(old(self).model()) is None && final(self).model() == old(self).model(),
            },
    {
        if self.next_lexes() {
            Some(self.next_token())
        } else {
            None
        }
    }

}

/// The tokens of a source text, up to and including the first `Eof`; `None`
/// where the lexer rejects the text (an unknown character, a number too
/// large for `i32`, or a malformed string literal). Its `Indent` and
/// `Dedent` tokens balance.
pub fn tokenize(source: &str) -> (r: Option<Vec<Token>>)
    ensures
        match r {
            Some(ts) => {
                let m = tokens_model(ts@);
                &&& lex_after(lex_init(source@), m) is Some
                &&& m.len() > 0
                &&& m.last() == SToken::Eof
                &&& no_eof(m.drop_last())
                &&& indent_depth(m) == 0
            },
            None => exists|toks: Seq<SToken>| {
                &&& #[trigger] lex_after(lex_init(source@), toks) is Some
                &&& lex_step(lex_after(lex_init(source@), toks).unwrap()) is None
                &&& no_eof(toks)
            },
        },
{
    let mut lexer = Lexer::new(source);
    let ghost init = lexer.model();
    let mut tokens: Vec<Token> = Vec::new();
    loop
        invariant
            lexer.wf(),
            init == lex_init(source@),
            lex_after(init, tokens_model(tokens@)) == Some(lexer.model()),
            no_eof(tokens_model(tokens@)),
        decreases lex_measure(lexer.model()),
    {
        let ghost before = tokens_model(tokens@);
        let ghost st = lexer.model();
        assert(lex_measure(st) >= 0);
        match lexer.try_next_token() {
            None => {
                return None;
            },
            Some(token) => {
                let eof = match token {
                    Token::Eof => true,
                    _ => false,
                };
                let ghost tm = token@;
                tokens.push(token);
                proof {
                    assert(tokens_model(tokens@) =~= before.push(tm));
                    assert(tokens_model(tokens@).drop_last() =~= before);
                }
                if eof {
                    proof {
                        law_indentation_balances(source@, tokens_model(tokens@));
                    }
                    return Some(tokens);
                }
                proof {
                    assert(no_eof(tokens_model(tokens@)));
                }
            },
        }
    }
}

} // verus!
