//! A standalone tokenizer for a query-like input language. It has no
//! data dependency on the storage layers: it only turns input text
//! into a token stream that a future front end may use to build
//! records.
//!
//! The token grammar: whitespace separates tokens and is dropped;
//! a digit starts a number (a maximal run of decimal digits, which
//! must fit an `i32`); a handful of single characters are operators;
//! anything else starts a word (a maximal alphanumeric run), which is
//! a keyword when its lowercase form matches one of the reserved
//! words and an identifier otherwise, kept in its original spelling.

use vstd::prelude::*;

use vstd::string::{StrSliceExecFns, StringExecFns};

verus! {

#[derive(Debug, PartialEq, Clone, Copy)]
pub enum Keyword {
    Select,
    From,
    Where,
    Join,
    Left,
    Right,
    Group,
    Having,
    Order,
    Not,
}

#[derive(Debug, PartialEq, Clone, Copy)]
pub enum Operator {
    Plus,
    Minus,
    Star,
    Divide,
    Dot,
    Opening,
    Closing,
    Comma,
    Semicolon,
}

#[derive(Debug, PartialEq, Clone)]
pub enum Token {
    Keyword(Keyword),
    Identifier(String),
    Number(i32),
    Operator(Operator),
}

/// The model of a token: as `Token`, with identifier text as its
/// character sequence.
pub enum TokenView {
    Keyword(Keyword),
    Identifier(Seq<char>),
    Number(i32),
    Operator(Operator),
}

impl View for Token {
    type V = TokenView;

    open spec fn view(&self) -> TokenView {
        match self {
            Token::Keyword(k) => TokenView::Keyword(*k),
            Token::Identifier(s) => TokenView::Identifier(s@),
            Token::Number(n) => TokenView::Number(*n),
            Token::Operator(o) => TokenView::Operator(*o),
        }
    }
}

/// The model of a token list.
pub open spec fn tokens_view(tokens: Seq<Token>) -> Seq<TokenView> {
    tokens.map_values(|t: Token| t@)
}

/// Error reported for input the tokenizer cannot accept.
#[derive(Debug, PartialEq)]
pub struct LexerError(pub String);

// ---------------------------------------------------------------------
// Character classes
// ---------------------------------------------------------------------
/// Unicode whitespace, as `char::is_whitespace` decides it: a
/// property of the character alone.
pub uninterp spec fn is_whitespace_char(c: char) -> bool;

/// Unicode letters and digits, as `char::is_alphanumeric` decides it:
/// a property of the character alone.
pub uninterp spec fn is_alphanumeric_char(c: char) -> bool;

/// The lowercase form of a character sequence, as `str::to_lowercase`
/// computes it: it depends on the characters alone.
pub uninterp spec fn lower_of(s: Seq<char>) -> Seq<char>;

/// Relies on `char::is_whitespace`: whether the character has the
/// Unicode White_Space property.
#[verifier::external_body]
fn char_is_whitespace(c: char) -> (result: bool)
    ensures
        result == is_whitespace_char(c),
{
    c.is_whitespace()
}

/// Relies on `char::is_alphanumeric`: whether the character is a
/// Unicode letter or digit.
#[verifier::external_body]
fn char_is_alphanumeric(c: char) -> (result: bool)
    ensures
        result == is_alphanumeric_char(c),
{
    c.is_alphanumeric()
}

/// Relies on `str::to_lowercase`: the Unicode lowercase form of the
/// text.
#[verifier::external_body]
fn to_lowercase(s: &str) -> (result: String)
    ensures
        result@ == lower_of(s@),
{
    s.to_lowercase()
}

/// A decimal digit.
pub open spec fn is_digit_char(c: char) -> bool {
    48 <= c as u32 <= 57
}

fn char_is_digit(c: char) -> (result: bool)
    ensures
        result == is_digit_char(c),
{
    let u = c as u32;
    48 <= u && u <= 57
}

// ---------------------------------------------------------------------
// Operators and keywords
// ---------------------------------------------------------------------
/// The operator a single character stands for, if any.
pub open spec fn operator_of(c: char) -> Option<Operator> {
    if c == '+' {
        Some(Operator::Plus)
    } else if c == '-' {
        Some(Operator::Minus)
    } else if c == '*' {
        Some(Operator::Star)
    } else if c == '/' {
        Some(Operator::Divide)
    } else if c == '.' {
        Some(Operator::Dot)
    } else if c == '(' {
        Some(Operator::Opening)
    } else if c == ')' {
        Some(Operator::Closing)
    } else if c == ',' {
        Some(Operator::Comma)
    } else if c == ';' {
        Some(Operator::Semicolon)
    } else {
        None
    }
}

fn operator_lookup(c: char) -> (result: Option<Operator>)
    ensures
        result == operator_of(c),
{
    if c == '+' {
        Some(Operator::Plus)
    } else if c == '-' {
        Some(Operator::Minus)
    } else if c == '*' {
        Some(Operator::Star)
    } else if c == '/' {
        Some(Operator::Divide)
    } else if c == '.' {
        Some(Operator::Dot)
    } else if c == '(' {
        Some(Operator::Opening)
    } else if c == ')' {
        Some(Operator::Closing)
    } else if c == ',' {
        Some(Operator::Comma)
    } else if c == ';' {
        Some(Operator::Semicolon)
    } else {
        None
    }
}

/// The keyword a (lowercased) word stands for, if any.
pub open spec fn keyword_of(w: Seq<char>) -> Option<Keyword> {
    if w == "select"@ {
        Some(Keyword::Select)
    } else if w == "from"@ {
        Some(Keyword::From)
    } else if w == "where"@ {
        Some(Keyword::Where)
    } else if w == "join"@ {
        Some(Keyword::Join)
    } else if w == "left"@ {
        Some(Keyword::Left)
    } else if w == "right"@ {
        Some(Keyword::Right)
    } else if w == "group"@ {
        Some(Keyword::Group)
    } else if w == "having"@ {
        Some(Keyword::Having)
    } else if w == "order"@ {
        Some(Keyword::Order)
    } else if w == "not"@ {
        Some(Keyword::Not)
    } else {
        None
    }
}

/// Character-wise string comparison.
fn str_eq(a: &str, b: &str) -> (result: bool)
    ensures
        result == (a@ == b@),
{
    let n = a.unicode_len();
    if n != b.unicode_len() {
        return false;
    }
    let mut i: usize = 0;
    while i < n
        invariant
            n == a@.len(),
            n == b@.len(),
            i <= n,
            forall|j: int| 0 <= j < i ==> a@[j] == b@[j],
        decreases n - i,
    {
        if a.get_char(i) != b.get_char(i) {
            return false;
        }
        i += 1;
    }
    proof {
        assert(a@ =~= b@);
    }
    true
}

// ---------------------------------------------------------------------
// Runs of characters
// ---------------------------------------------------------------------
/// Whether a character continues a run: a digit run when `digits`,
/// an alphanumeric run otherwise.
pub open spec fn class_holds(digits: bool, c: char) -> bool {
    if digits {
        is_digit_char(c)
    } else {
        is_alphanumeric_char(c)
    }
}

/// Where the run of the given class that starts at `pos` ends: the
/// first position at or after `pos` holding no such character, or the
/// end of the input.
pub open spec fn spec_run_end(s: Seq<char>, pos: int, digits: bool) -> int
    decreases s.len() - pos when 0 <= pos <= s.len()
{
    if pos >= s.len() {
        pos
    } else if class_holds(digits, s[pos]) {
        spec_run_end(s, pos + 1, digits)
    } else {
        pos
    }
}

/// A run stays inside the input and does not move backwards.
proof fn lemma_run_end_bounds(s: Seq<char>, pos: int, digits: bool)
    requires
        0 <= pos <= s.len(),
    ensures
        pos <= spec_run_end(s, pos, digits) <= s.len(),
    decreases s.len() - pos,
{
    if pos < s.len() && class_holds(digits, s[pos]) {
        lemma_run_end_bounds(s, pos + 1, digits);
    }
}

/// The numeric value of a digit string.
pub open spec fn spec_digits_val(s: Seq<char>) -> int
    decreases s.len(),
{
    if s.len() == 0 {
        0
    } else {
        spec_digits_val(s.drop_last()) * 10 + (s.last() as u32 - 48)
    }
}

proof fn lemma_digits_val_nonneg(s: Seq<char>)
    requires
        forall|j: int| 0 <= j < s.len() ==> is_digit_char(#[trigger] s[j]),
    ensures
        spec_digits_val(s) >= 0,
    decreases s.len(),
{
    if s.len() > 0 {
        lemma_digits_val_nonneg(s.drop_last());
    }
}

/// A digit string is worth at least any of its prefixes.
proof fn lemma_digits_prefix_le(s: Seq<char>, m: int)
    requires
        forall|j: int| 0 <= j < s.len() ==> is_digit_char(#[trigger] s[j]),
        0 <= m <= s.len(),
    ensures
        spec_digits_val(s.take(m)) <= spec_digits_val(s),
    decreases s.len() - m,
{
    if m < s.len() {
        assert(s.drop_last() =~= s.take(s.len() - 1));
        lemma_digits_prefix_le(s.drop_last(), m);
        assert(s.drop_last().take(m) =~= s.take(m));
        lemma_digits_val_nonneg(s.drop_last());
    } else {
        assert(s.take(m) =~= s);
    }
}

/// Collects the run that starts with the already-accepted character
/// at `from`: the word (that character plus the maximal following run
/// of the class) and the position just past it.
pub fn read_until(input: &str, from: usize, digits: bool) -> (result: (String, usize))
    requires
        from < input@.len(),
    ensures
        ({
            let (word, end) = result;
            &&& end == spec_run_end(input@, from + 1, digits)
            &&& word@ == input@.subrange(from as int, end as int)
            &&& from < end <= input@.len()
        }),
{
    let n = input.unicode_len();
    let mut end = from + 1;
    loop
        invariant_except_break
            n == input@.len(),
            from < end <= n,
            spec_run_end(input@, from + 1, digits) == spec_run_end(input@, end as int, digits),
        ensures
            n == input@.len(),
            from < end <= n,
            end == spec_run_end(input@, from + 1, digits),
        decreases n - end,
    {
        if end >= n {
            break ;
        }
        let c = input.get_char(end);
        let advance = if digits {
            char_is_digit(c)
        } else {
            char_is_alphanumeric(c)
        };
        if !advance {
            break ;
        }
        end += 1;
    }
    let word = input.substring_char(from, end).to_owned();
    (word, end)
}

/// Parses a digit run as an `i32`, rejecting values past `i32::MAX`.
fn parse_number(word: &str) -> (result: Option<i32>)
    requires
        forall|j: int| 0 <= j < word@.len() ==> is_digit_char(#[trigger] word@[j]),
    ensures
        match result {
            Some(v) => v == spec_digits_val(word@) && spec_digits_val(word@) <= i32::MAX,
            None => spec_digits_val(word@) > i32::MAX,
        },
{
    let n = word.unicode_len();
    let mut acc: i64 = 0;
    let mut i: usize = 0;
    while i < n
        invariant
            forall|j: int| 0 <= j < word@.len() ==> is_digit_char(#[trigger] word@[j]),
            n == word@.len(),
            i <= n,
            0 <= acc <= i32::MAX,
            acc == spec_digits_val(word@.take(i as int)),
        decreases n - i,
    {
        let c = word.get_char(i);
        let d = ((c as u32) - 48) as i64;
        acc = acc * 10 + d;
        proof {
            assert(word@.take(i + 1).drop_last() =~= word@.take(i as int));
            assert(word@.take(i + 1).last() == word@[i as int]);
        }
        if acc > i32::MAX as i64 {
            proof {
                lemma_digits_prefix_le(word@, i + 1);
            }
            return None;
        }
        i += 1;
    }
    proof {
        assert(word@.take(n as int) =~= word@);
    }
    Some(acc as i32)
}

fn keyword_lookup(w: &str) -> (result: Option<Keyword>)
    ensures
        result == keyword_of(w@),
{
    if str_eq(w, "select") {
        Some(Keyword::Select)
    } else if str_eq(w, "from") {
        Some(Keyword::From)
    } else if str_eq(w, "where") {
        Some(Keyword::Where)
    } else if str_eq(w, "join") {
        Some(Keyword::Join)
    } else if str_eq(w, "left") {
        Some(Keyword::Left)
    } else if str_eq(w, "right") {
        Some(Keyword::Right)
    } else if str_eq(w, "group") {
        Some(Keyword::Group)
    } else if str_eq(w, "having") {
        Some(Keyword::Having)
    } else if str_eq(w, "order") {
        Some(Keyword::Order)
    } else if str_eq(w, "not") {
        Some(Keyword::Not)
    } else {
        None
    }
}

// ---------------------------------------------------------------------
// The tokenizer
// ---------------------------------------------------------------------
/// Every character of a run satisfies its class.
proof fn lemma_run_chars(s: Seq<char>, pos: int, digits: bool)
    requires
        0 <= pos <= s.len(),
    ensures
        forall|p: int|
            pos <= p < spec_run_end(s, pos, digits) ==> class_holds(digits, #[trigger] s[p]),
    decreases s.len() - pos,
{
    if pos < s.len() && class_holds(digits, s[pos]) {
        lemma_run_chars(s, pos + 1, digits);
    }
}

/// The token stream of the input from position `pos` on: `None` when
/// a number in it does not fit an `i32`.
pub open spec fn spec_lex_from(s: Seq<char>, pos: int) -> Option<Seq<TokenView>>
    decreases s.len() - pos
        when 0 <= pos <= s.len()
        via spec_lex_from_decreases
{
    if pos >= s.len() {
        Some(Seq::empty())
    } else {
        let c = s[pos];
        if is_whitespace_char(c) {
            spec_lex_from(s, pos + 1)
        } else if is_digit_char(c) {
            let end = spec_run_end(s, pos + 1, true);
            let text = s.subrange(pos, end);
            if spec_digits_val(text) > i32::MAX {
                None
            } else {
                match spec_lex_from(s, end) {
                    None => None,
                    Some(rest) => Some(
                        seq![TokenView::Number(spec_digits_val(text) as i32)] + rest,
                    ),
                }
            }
        } else {
            match operator_of(c) {
                Some(op) => match spec_lex_from(s, pos + 1) {
                    None => None,
                    Some(rest) => Some(seq![TokenView::Operator(op)] + rest),
                },
                None => {
                    let end = spec_run_end(s, pos + 1, false);
                    let text = s.subrange(pos, end);
                    let token = match keyword_of(lower_of(text)) {
                        Some(k) => TokenView::Keyword(k),
                        None => TokenView::Identifier(text),
                    };
                    match spec_lex_from(s, end) {
                        None => None,
                        Some(rest) => Some(seq![token] + rest),
                    }
                },
            }
        }
    }
}

#[via_fn]
proof fn spec_lex_from_decreases(s: Seq<char>, pos: int) {
    if 0 <= pos < s.len() {
        lemma_run_end_bounds(s, pos + 1, true);
        lemma_run_end_bounds(s, pos + 1, false);
    }
}

/// The token stream of the whole input.
pub open spec fn spec_lex(s: Seq<char>) -> Option<Seq<TokenView>> {
    spec_lex_from(s, 0)
}

/// Prefixes already-produced tokens onto the outcome of tokenizing
/// the rest.
spec fn lex_compose(prefix: Seq<TokenView>, rest: Option<Seq<TokenView>>) -> Option<
    Seq<TokenView>,
> {
    match rest {
        None => None,
        Some(tokens) => Some(prefix + tokens),
    }
}

proof fn lemma_lex_compose(prefix: Seq<TokenView>, token: TokenView, rest: Option<Seq<TokenView>>)
    ensures
        lex_compose(prefix, lex_compose(seq![token], rest)) == lex_compose(
            prefix.push(token),
            rest,
        ),
{
    match rest {
        None => {},
        Some(tokens) => {
            assert(prefix + (seq![token] + tokens) =~= prefix.push(token) + tokens);
        },
    }
}

/// Tokenizes the input. Whitespace is dropped; maximal digit runs
/// become numbers (an error reports one past `i32::MAX`); operator
/// characters become operators; maximal alphanumeric runs become
/// keywords when their lowercase form is reserved and identifiers
/// otherwise.
pub fn lex(input: &str) -> (result: Result<Vec<Token>, LexerError>)
    ensures
        result is Ok <==> spec_lex(input@) is Some,
        result matches Ok(tokens) ==> spec_lex(input@) == Some(tokens_view(tokens@)),
{
    let n = input.unicode_len();
    let mut tokens: Vec<Token> = Vec::new();
    let mut pos: usize = 0;
    proof {
        assert(tokens_view(tokens@) =~= Seq::<TokenView>::empty());
        match spec_lex_from(input@, 0) {
            None => {},
            Some(rest) => {
                assert(tokens_view(tokens@) + rest =~= rest);
            },
        }
    }
    while pos < n
        invariant
            n == input@.len(),
            pos <= n,
            spec_lex(input@) == lex_compose(
                tokens_view(tokens@),
                spec_lex_from(input@, pos as int),
            ),
        decreases n - pos,
    {
        let ghost tokens_before = tokens@;
        let c = input.get_char(pos);
        if char_is_whitespace(c) {
            pos += 1;
        } else if char_is_digit(c) {
            let (word, end) = read_until(input, pos, true);
            proof {
                lemma_run_chars(input@, pos + 1, true);
                assert forall|j: int| 0 <= j < word@.len() implies is_digit_char(
                    #[trigger] word@[j],
                ) by {
                    assert(word@[j] == input@[pos + j]);
                }
            }
            let number = match parse_number(word.as_str()) {
                None => {
                    return Err(LexerError(String::from_str("cant parse number")));
                },
                Some(v) => v,
            };
            proof {
                lemma_lex_compose(
                    tokens_view(tokens_before),
                    TokenView::Number(number),
                    spec_lex_from(input@, end as int),
                );
            }
            tokens.push(Token::Number(number));
            proof {
                assert(tokens_view(tokens@) =~= tokens_view(tokens_before).push(
                    TokenView::Number(number),
                ));
            }
            pos = end;
        } else {
            match operator_lookup(c) {
                Some(op) => {
                    proof {
                        lemma_lex_compose(
                            tokens_view(tokens_before),
                            TokenView::Operator(op),
                            spec_lex_from(input@, pos + 1),
                        );
                    }
                    tokens.push(Token::Operator(op));
                    proof {
                        assert(tokens_view(tokens@) =~= tokens_view(tokens_before).push(
                            TokenView::Operator(op),
                        ));
                    }
                    pos += 1;
                },
                None => {
                    let (word, end) = read_until(input, pos, false);
                    let lowered = to_lowercase(word.as_str());
                    let token = match keyword_lookup(lowered.as_str()) {
                        Some(k) => Token::Keyword(k),
                        None => Token::Identifier(word),
                    };
                    proof {
                        lemma_lex_compose(
                            tokens_view(tokens_before),
                            token@,
                            spec_lex_from(input@, end as int),
                        );
                    }
                    tokens.push(token);
                    proof {
                        assert(tokens_view(tokens@) =~= tokens_view(tokens_before).push(
                            tokens@.last()@,
                        ));
                    }
                    pos = end;
                },
            }
        }
    }
    proof {
        match spec_lex(input@) {
            None => {},
            Some(all) => {
                assert(tokens_view(tokens@) + Seq::<TokenView>::empty() =~= tokens_view(
                    tokens@,
                ));
            },
        }
    }
    Ok(tokens)
}

} // verus!
