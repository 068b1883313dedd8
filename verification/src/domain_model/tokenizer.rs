//! Splits one line of the diagram notation into tokens.
//!
//! A line is read left to right.  Punctuation characters are tokens of their
//! own; a maximal run of numeric characters is a number; a maximal run of
//! anything else is an identifier.  `tokens` says so, and the scanner, a
//! machine that reads one character at a time, is proved to hand out
//! exactly those tokens.

use crate::domain_model::numeral::{
    decimal_digits, decimal_value, fits, lemma_beginning_fits, lemma_digit_appended,
    parse_numeral, push_decimal,
};
use vstd::prelude::*;

verus! {

/// One lexical unit of a line.
#[derive(Debug)]
pub enum Token {
    Identifier(String),
    LeftArrow,
    RightArrow,
    Dash,
    Number(usize),
    Dot,
    Escape,
    /// A character that has no token of its own, with the reason.
    Error(String),
}

/// What a `Token` holds, as a mathematical value.
pub enum TokenView {
    Identifier(Seq<char>),
    LeftArrow,
    RightArrow,
    Dash,
    Number(usize),
    Dot,
    Escape,
    Error(Seq<char>),
}

impl View for Token {
    type V = TokenView;

    open spec fn view(&self) -> TokenView {
        match self {
            Token::Identifier(text) => TokenView::Identifier(text@),
            Token::LeftArrow => TokenView::LeftArrow,
            Token::RightArrow => TokenView::RightArrow,
            Token::Dash => TokenView::Dash,
            Token::Number(value) => TokenView::Number(*value),
            Token::Dot => TokenView::Dot,
            Token::Escape => TokenView::Escape,
            Token::Error(reason) => TokenView::Error(reason@),
        }
    }
}

impl DeepView for Token {
    type V = TokenView;

    open spec fn deep_view(&self) -> TokenView {
        self@
    }
}

impl TokenView {
    /// The relation that `==` computes on tokens, with `self` on the left.
    ///
    /// It is decided by the left operand alone where that operand carries
    /// no payload: a punctuation token on the left accepts every token on
    /// the right.  An identifier, a number or an error accepts only a token
    /// of its own kind with an equal payload.  The relation is therefore
    /// reflexive but not symmetric.
    pub open spec fn accepts(self, other: TokenView) -> bool {
        match self {
            TokenView::Identifier(text) => other == TokenView::Identifier(text),
            TokenView::Number(value) => other == TokenView::Number(value),
            TokenView::Error(reason) => other == TokenView::Error(reason),
            _ => true,
        }
    }
}

impl PartialEq for Token {
    fn eq(&self, other: &Token) -> (equal: bool) {
        match self {
            Token::Identifier(text) => match other {
                Token::Identifier(other_text) => *text == *other_text,
                _ => false,
            },
            Token::Number(value) => match other {
                Token::Number(other_value) => *value == *other_value,
                _ => false,
            },
            Token::Error(reason) => match other {
                Token::Error(other_reason) => *reason == *other_reason,
                _ => false,
            },
            _ => true,
        }
    }
}

impl vstd::std_specs::cmp::PartialEqSpecImpl for Token {
    open spec fn obeys_eq_spec() -> bool {
        true
    }

    open spec fn eq_spec(&self, other: &Token) -> bool {
        self@.accepts(other@)
    }
}

impl TokenView {
    /// How a token is written out for a reader: an identifier between
    /// quotes, a number in base ten, punctuation by its name, an error by
    /// its reason.
    pub open spec fn label(self) -> Seq<char> {
        match self {
            TokenView::Identifier(text) => "ID \""@ + text + "\""@,
            TokenView::LeftArrow => "L_Arrow"@,
            TokenView::RightArrow => "R_Arrow"@,
            TokenView::Dash => "Dash"@,
            TokenView::Number(value) => "Num "@ + decimal_digits(value as nat),
            TokenView::Dot => "Dot"@,
            TokenView::Escape => "Escape"@,
            TokenView::Error(reason) => reason,
        }
    }
}

impl Token {
    /// The token written out for a reader.
    pub fn label(&self) -> (text: String)
        ensures
            text@ == self@.label(),
    {
        match self {
            Token::Identifier(name) => {
                let mut text = "ID \"".to_owned();
                text.append(name.as_str());
                text.append("\"");
                text
            },
            Token::LeftArrow => "L_Arrow".to_owned(),
            Token::RightArrow => "R_Arrow".to_owned(),
            Token::Dash => "Dash".to_owned(),
            Token::Number(value) => {
                let mut text = "Num ".to_owned();
                push_decimal(&mut text, *value);
                text
            },
            Token::Dot => "Dot".to_owned(),
            Token::Escape => "Escape".to_owned(),
            Token::Error(reason) => reason.clone(),
        }
    }
}

/// What `char::is_numeric` answers for a character: whether Unicode files
/// it under one of its number categories.
pub uninterp spec fn is_numeric(ch: char) -> bool;

/// Asks `char::is_numeric`.  Nothing is claimed about the answer beyond
/// that it depends on the character alone.
#[verifier::external_body]
fn char_is_numeric(ch: char) -> (numeric: bool)
    ensures
        numeric == is_numeric(ch),
{
    ch.is_numeric()
}

/// The text of the error token for a character without a token.
pub open spec fn unrecognized(ch: char) -> Seq<char> {
    "Error, unrecognized symbol "@.push(ch)
}

/// The token that a punctuation character stands for.  A line break stands
/// for the empty identifier; a character that is no punctuation gives an
/// error token that names it.
pub open spec fn symbol_token(ch: char) -> TokenView {
    if ch == '-' {
        TokenView::Dash
    } else if ch == '.' {
        TokenView::Dot
    } else if ch == '<' {
        TokenView::LeftArrow
    } else if ch == '>' {
        TokenView::RightArrow
    } else if ch == '\\' {
        TokenView::Escape
    } else if ch == '\n' {
        TokenView::Identifier(Seq::empty())
    } else {
        TokenView::Error(unrecognized(ch))
    }
}

/// The token of one punctuation character.
pub fn generate_else_token(ch: char) -> (token: Token)
    ensures
        token@ == symbol_token(ch),
{
    match ch {
        '-' => Token::Dash,
        '.' => Token::Dot,
        '<' => Token::LeftArrow,
        '>' => Token::RightArrow,
        '\\' => Token::Escape,
        '\n' => Token::Identifier(String::new()),
        _ => {
            let mut reason = "Error, unrecognized symbol ".to_owned();
            reason.push(ch);
            Token::Error(reason)
        },
    }
}

/// The part that a character plays in a line.
#[derive(Clone, Copy, Debug, PartialEq, Eq, Structural)]
pub enum CharClass {
    /// A character that is a token by itself.
    Punctuation,
    /// The backslash, where it is read as an escape and dropped.
    Escape,
    /// A character of a number.
    Numeric,
    /// A character of an identifier.
    Plain,
}

/// The class of `ch`, given whether it is numeric and whether the
/// backslash is read as an escape.  Punctuation is recognised first, a
/// numeric character next.
pub open spec fn class_of(ch: char, numeric: bool, escapes: bool) -> CharClass {
    if ch == '-' || ch == '.' || ch == '<' || ch == '>' || ch == '\n' || (ch == '\\'
        && !escapes) {
        CharClass::Punctuation
    } else if numeric {
        CharClass::Numeric
    } else if ch == '\\' {
        CharClass::Escape
    } else {
        CharClass::Plain
    }
}

/// The class of `ch` in a line.
pub open spec fn char_class(ch: char, escapes: bool) -> CharClass {
    class_of(ch, is_numeric(ch), escapes)
}

/// Sorts a character into its class.
pub fn classify(ch: char, numeric: bool, escapes: bool) -> (class: CharClass)
    ensures
        class == class_of(ch, numeric, escapes),
{
    if ch == '-' || ch == '.' || ch == '<' || ch == '>' || ch == '\n' || (ch == '\\' && !escapes) {
        CharClass::Punctuation
    } else if numeric {
        CharClass::Numeric
    } else if ch == '\\' {
        CharClass::Escape
    } else {
        CharClass::Plain
    }
}

/// How many characters at the start of `text` are of the given class.
pub open spec fn run_len(text: Seq<char>, class: CharClass, escapes: bool) -> nat
    decreases text.len(),
{
    if text.len() > 0 && char_class(text[0], escapes) == class {
        1 + run_len(text.drop_first(), class, escapes)
    } else {
        0
    }
}

/// The length of the first lexeme of a non-empty text: the whole run for a
/// number or an identifier, one character otherwise.
pub open spec fn lexeme_len(text: Seq<char>, escapes: bool) -> nat {
    let class = char_class(text[0], escapes);
    if class == CharClass::Numeric || class == CharClass::Plain {
        run_len(text, class, escapes)
    } else {
        1
    }
}

/// The tokens that one lexeme of the given class contributes: none for an
/// escape, one otherwise.
pub open spec fn lexeme_tokens(lexeme: Seq<char>, class: CharClass) -> Seq<TokenView> {
    match class {
        CharClass::Punctuation => seq![symbol_token(lexeme[0])],
        CharClass::Escape => Seq::empty(),
        CharClass::Numeric => seq![TokenView::Number(decimal_value(lexeme) as usize)],
        CharClass::Plain => seq![TokenView::Identifier(lexeme)],
    }
}

/// The tokens of a line: those of its first lexeme, then those of the rest.
pub open spec fn tokens(text: Seq<char>, escapes: bool) -> Seq<TokenView>
    decreases text.len(),
    via tokens_terminates
{
    if text.len() == 0 {
        Seq::empty()
    } else {
        let first = lexeme_len(text, escapes) as int;
        lexeme_tokens(text.take(first), char_class(text[0], escapes)) + tokens(
            text.skip(first),
            escapes,
        )
    }
}

#[via_fn]
proof fn tokens_terminates(text: Seq<char>, escapes: bool) {
    if text.len() > 0 {
        lemma_lexeme_len_bounds(text, escapes);
    }
}

/// Every number of the line is written in the digits 0 to 9 and can be held
/// in a `usize`.
pub open spec fn numerals_fit(text: Seq<char>, escapes: bool) -> bool
    decreases text.len(),
    via numerals_fit_terminates
{
    if text.len() == 0 {
        true
    } else {
        let first = lexeme_len(text, escapes) as int;
        &&& char_class(text[0], escapes) == CharClass::Numeric ==> fits(text.take(first))
        &&& numerals_fit(text.skip(first), escapes)
    }
}

#[via_fn]
proof fn numerals_fit_terminates(text: Seq<char>, escapes: bool) {
    if text.len() > 0 {
        lemma_lexeme_len_bounds(text, escapes);
    }
}

/// The line ends with a backslash that escapes nothing.
pub open spec fn ends_in_escape(text: Seq<char>, escapes: bool) -> bool {
    text.len() > 0 && char_class(text.last(), escapes) == CharClass::Escape
}

/// The lines that can be split into tokens.
pub open spec fn tokenizable(text: Seq<char>, escapes: bool) -> bool {
    numerals_fit(text, escapes) && !ends_in_escape(text, escapes)
}

/// Why a line cannot be split into tokens.
#[derive(Clone, Copy, Debug, PartialEq, Eq, Structural)]
pub enum LineError {
    /// A number holds a character that is no digit, or is too large for a
    /// `usize`.
    UnreadableNumber,
    /// The line ends with a backslash that escapes nothing.
    DanglingEscape,
}

/// What is wrong with a line, if anything is.  A number that cannot be read
/// is reported before a dangling escape.
pub open spec fn line_fault(text: Seq<char>, escapes: bool) -> Option<LineError> {
    if !numerals_fit(text, escapes) {
        Some(LineError::UnreadableNumber)
    } else if ends_in_escape(text, escapes) {
        Some(LineError::DanglingEscape)
    } else {
        None
    }
}

/// A run is no longer than the text it starts.
pub proof fn lemma_run_len_bounds(text: Seq<char>, class: CharClass, escapes: bool)
    ensures
        run_len(text, class, escapes) <= text.len(),
    decreases text.len(),
{
    if text.len() > 0 {
        lemma_run_len_bounds(text.drop_first(), class, escapes);
    }
}

/// The first lexeme of a non-empty text is not empty and lies within it.
pub proof fn lemma_lexeme_len_bounds(text: Seq<char>, escapes: bool)
    requires
        text.len() > 0,
    ensures
        1 <= lexeme_len(text, escapes) <= text.len(),
{
    lemma_run_len_bounds(text, char_class(text[0], escapes), escapes);
}

/// No line has an error token among its tokens, and where the backslash is
/// read as an escape no line has an escape token.
pub proof fn lemma_tokens_of_a_line(text: Seq<char>, escapes: bool, i: int)
    requires
        0 <= i < tokens(text, escapes).len(),
    ensures
        !(tokens(text, escapes)[i] is Error),
        escapes ==> !(tokens(text, escapes)[i] is Escape),
    decreases text.len(),
{
    if text.len() > 0 {
        lemma_lexeme_len_bounds(text, escapes);
        let first = lexeme_len(text, escapes) as int;
        let head = lexeme_tokens(text.take(first), char_class(text[0], escapes));
        if i >= head.len() {
            lemma_tokens_of_a_line(text.skip(first), escapes, i - head.len());
        }
    }
}

/// What the scanner has begun and not yet handed out.
#[derive(Debug)]
pub enum State {
    /// The characters of an identifier read so far.
    Identifier(String),
    /// A punctuation character.
    Else(char),
    /// The characters of a number read so far.
    Number(String),
    /// An escape was read; nothing is pending.
    Escape,
}

/// What a `State` holds, as a mathematical value.
pub enum StateView {
    Identifier(Seq<char>),
    Else(char),
    Number(Seq<char>),
    Escape,
}

impl View for State {
    type V = StateView;

    open spec fn view(&self) -> StateView {
        match self {
            State::Identifier(begun) => StateView::Identifier(begun@),
            State::Else(ch) => StateView::Else(*ch),
            State::Number(begun) => StateView::Number(begun@),
            State::Escape => StateView::Escape,
        }
    }
}

impl StateView {
    /// The state after `ch` where nothing is pending.
    pub open spec fn opening(ch: char, class: CharClass) -> StateView {
        match class {
            CharClass::Punctuation => StateView::Else(ch),
            CharClass::Escape => StateView::Escape,
            CharClass::Numeric => StateView::Number(seq![ch]),
            CharClass::Plain => StateView::Identifier(seq![ch]),
        }
    }

    /// A character of this class prolongs what is pending.
    pub open spec fn prolonged_by(self, class: CharClass) -> bool {
        ||| self is Identifier && class == CharClass::Plain
        ||| self is Number && class == CharClass::Numeric
    }

    /// The tokens that are handed out when what is pending ends: none after
    /// an escape, one otherwise.
    pub open spec fn pending(self) -> Seq<TokenView> {
        match self {
            StateView::Identifier(begun) => seq![TokenView::Identifier(begun)],
            StateView::Else(ch) => seq![symbol_token(ch)],
            StateView::Number(begun) => seq![TokenView::Number(decimal_value(begun) as usize)],
            StateView::Escape => Seq::empty(),
        }
    }

    /// What is pending can be handed out: a number that is pending fits.
    pub open spec fn closable(self) -> bool {
        self matches StateView::Number(begun) ==> fits(begun)
    }

    /// The tokens that reading a character of this class hands out.
    pub open spec fn emitted(self, class: CharClass) -> Seq<TokenView> {
        if self.prolonged_by(class) {
            Seq::empty()
        } else {
            self.pending()
        }
    }

    /// The state after reading `ch`.
    pub open spec fn after(self, ch: char, class: CharClass) -> StateView {
        match self {
            StateView::Identifier(begun) if class == CharClass::Plain => StateView::Identifier(
                begun.push(ch),
            ),
            StateView::Number(begun) if class == CharClass::Numeric => StateView::Number(
                begun.push(ch),
            ),
            _ => StateView::opening(ch, class),
        }
    }
}

impl State {
    /// The state after the first character of a line.
    pub fn opening(ch: char, class: CharClass) -> (state: State)
        ensures
            state@ == StateView::opening(ch, class),
    {
        match class {
            CharClass::Punctuation => State::Else(ch),
            CharClass::Escape => State::Escape,
            CharClass::Numeric => {
                let mut begun = String::new();
                begun.push(ch);
                proof {
                    assert(begun@ =~= seq![ch]);
                }
                State::Number(begun)
            },
            CharClass::Plain => {
                let mut begun = String::new();
                begun.push(ch);
                proof {
                    assert(begun@ =~= seq![ch]);
                }
                State::Identifier(begun)
            },
        }
    }

    /// Hands out what is pending, if anything is.
    pub fn close(self, output: &mut Vec<Token>)
        requires
            self@.closable(),
        ensures
            final(output).deep_view() == old(output).deep_view() + self@.pending(),
    {
        let ghost before = output.deep_view();
        match self {
            State::Identifier(begun) => {
                output.push(Token::Identifier(begun));
            },
            State::Else(ch) => {
                output.push(generate_else_token(ch));
            },
            State::Number(begun) => {
                let value = parse_numeral(begun.as_str());
                output.push(Token::Number(value.unwrap()));
            },
            State::Escape => {},
        }
        proof {
            assert(output.deep_view() =~= before + self@.pending());
        }
    }

    /// Reads one character: prolongs what is pending, or hands it out and
    /// begins anew with `ch`.
    pub fn advance(self, ch: char, class: CharClass, output: &mut Vec<Token>) -> (next: State)
        requires
            !self@.prolonged_by(class) ==> self@.closable(),
        ensures
            next@ == self@.after(ch, class),
            final(output).deep_view() == old(output).deep_view() + self@.emitted(class),
    {
        let ghost before = output.deep_view();
        match (self, class) {
            (State::Identifier(mut begun), CharClass::Plain) => {
                begun.push(ch);
                proof {
                    assert(output.deep_view() =~= before + Seq::<TokenView>::empty());
                }
                State::Identifier(begun)
            },
            (State::Number(mut begun), CharClass::Numeric) => {
                begun.push(ch);
                proof {
                    assert(output.deep_view() =~= before + Seq::<TokenView>::empty());
                }
                State::Number(begun)
            },
            (ended, _) => {
                ended.close(output);
                State::opening(ch, class)
            },
        }
    }
}

/// The tokens still to come when `state` is pending and `rest` is unread.
pub open spec fn remaining_tokens(state: StateView, rest: Seq<char>, escapes: bool) -> Seq<
    TokenView,
> {
    match state {
        StateView::Identifier(begun) => {
            let run = run_len(rest, CharClass::Plain, escapes) as int;
            seq![TokenView::Identifier(begun + rest.take(run))] + tokens(rest.skip(run), escapes)
        },
        StateView::Number(begun) => {
            let run = run_len(rest, CharClass::Numeric, escapes) as int;
            seq![TokenView::Number(decimal_value(begun + rest.take(run)) as usize)] + tokens(
                rest.skip(run),
                escapes,
            )
        },
        StateView::Else(ch) => seq![symbol_token(ch)] + tokens(rest, escapes),
        StateView::Escape => tokens(rest, escapes),
    }
}

/// The numbers still to come fit, the pending one with its continuation.
pub open spec fn remaining_fit(state: StateView, rest: Seq<char>, escapes: bool) -> bool {
    match state {
        StateView::Identifier(_) => numerals_fit(
            rest.skip(run_len(rest, CharClass::Plain, escapes) as int),
            escapes,
        ),
        StateView::Number(begun) => {
            let run = run_len(rest, CharClass::Numeric, escapes) as int;
            fits(begun + rest.take(run)) && numerals_fit(rest.skip(run), escapes)
        },
        _ => numerals_fit(rest, escapes),
    }
}

/// A line is tokenized as its first character, opened, and the rest.
pub proof fn lemma_first_char(text: Seq<char>, escapes: bool)
    requires
        text.len() > 0,
    ensures
        tokens(text, escapes) == remaining_tokens(
            StateView::opening(text[0], char_class(text[0], escapes)),
            text.drop_first(),
            escapes,
        ),
        numerals_fit(text, escapes) == remaining_fit(
            StateView::opening(text[0], char_class(text[0], escapes)),
            text.drop_first(),
            escapes,
        ),
{
    let class = char_class(text[0], escapes);
    let rest = text.drop_first();
    let first = lexeme_len(text, escapes) as int;
    lemma_lexeme_len_bounds(text, escapes);
    if class == CharClass::Numeric || class == CharClass::Plain {
        let run = run_len(rest, class, escapes) as int;
        lemma_run_len_bounds(rest, class, escapes);
        assert(first == 1 + run);
        assert(text.take(first) =~= seq![text[0]] + rest.take(run));
        assert(text.skip(first) =~= rest.skip(run));
    } else {
        assert(text.skip(first) =~= rest);
    }
}

/// Reading the next character hands out what it ends and leaves the rest
/// to the state that follows.
pub proof fn lemma_next_char(state: StateView, rest: Seq<char>, escapes: bool)
    requires
        rest.len() > 0,
    ensures
        remaining_tokens(state, rest, escapes) == state.emitted(char_class(rest[0], escapes))
            + remaining_tokens(
            state.after(rest[0], char_class(rest[0], escapes)),
            rest.drop_first(),
            escapes,
        ),
        remaining_fit(state, rest, escapes) == {
            &&& !state.prolonged_by(char_class(rest[0], escapes)) ==> state.closable()
            &&& remaining_fit(
                state.after(rest[0], char_class(rest[0], escapes)),
                rest.drop_first(),
                escapes,
            )
        },
{
    let ch = rest[0];
    let class = char_class(ch, escapes);
    let tail = rest.drop_first();
    lemma_first_char(rest, escapes);
    if state.prolonged_by(class) {
        let run = run_len(tail, class, escapes) as int;
        lemma_run_len_bounds(tail, class, escapes);
        assert(rest.skip(1 + run) =~= tail.skip(run));
        match state {
            StateView::Identifier(begun) => {
                assert(begun + rest.take(1 + run) =~= begun.push(ch) + tail.take(run));
            },
            StateView::Number(begun) => {
                assert(begun + rest.take(1 + run) =~= begun.push(ch) + tail.take(run));
            },
            _ => {},
        }
    } else {
        assert(rest.skip(0) =~= rest);
        match state {
            StateView::Identifier(begun) => {
                assert(begun + rest.take(0) =~= begun);
            },
            StateView::Number(begun) => {
                assert(begun + rest.take(0) =~= begun);
            },
            _ => {},
        }
    }
}

/// At the end of the line what is pending is handed out.
pub proof fn lemma_line_end(state: StateView, escapes: bool)
    ensures
        remaining_tokens(state, Seq::empty(), escapes) == state.pending(),
        remaining_fit(state, Seq::empty(), escapes) == state.closable(),
{
    let rest = Seq::<char>::empty();
    assert(rest.skip(0) =~= rest);
    match state {
        StateView::Identifier(begun) => {
            assert(begun + rest.take(0) =~= begun);
        },
        StateView::Number(begun) => {
            assert(begun + rest.take(0) =~= begun);
        },
        _ => {},
    }
}

/// The tokens of a line, in the order in which they are written; `None`
/// for the empty line.
fn scan(input: &str, escapes: bool) -> (found: Option<Vec<Token>>)
    requires
        numerals_fit(input@, escapes),
    ensures
        found is None <==> input@.len() == 0,
        found matches Some(list) ==> list.deep_view() == tokens(input@, escapes),
{
    let mut output: Vec<Token> = Vec::new();
    let mut state: Option<State> = None;
    proof {
        assert(input@.skip(0) =~= input@);
    }
    for ch in it: input.chars()
        invariant
            it.seq() == input@,
            state is None <==> it.index() == 0,
            state is None ==> output@.len() == 0,
            state matches Some(pending) ==> {
                &&& remaining_fit(pending@, input@.skip(it.index() as int), escapes)
                &&& output.deep_view() + remaining_tokens(
                    pending@,
                    input@.skip(it.index() as int),
                    escapes,
                ) == tokens(input@, escapes)
            },
            numerals_fit(input@, escapes),
    {
        let ghost rest = input@.skip(it.index() as int);
        let ghost before = output.deep_view();
        proof {
            assert(rest[0] == ch);
            assert(rest.drop_first() =~= input@.skip(it.index() + 1));
        }
        let class = classify(ch, char_is_numeric(ch), escapes);
        state = Some(
            match state {
                None => {
                    proof {
                        assert(rest =~= input@);
                        lemma_first_char(input@, escapes);
                        assert(output.deep_view() =~= Seq::<TokenView>::empty());
                        assert(Seq::<TokenView>::empty() + tokens(input@, escapes) =~= tokens(
                            input@,
                            escapes,
                        ));
                    }
                    State::opening(ch, class)
                },
                Some(pending) => {
                    proof {
                        lemma_next_char(pending@, rest, escapes);
                    }
                    let next = pending.advance(ch, class, &mut output);
                    proof {
                        let later = remaining_tokens(next@, rest.drop_first(), escapes);
                        assert((before + pending@.emitted(class)) + later =~= before + (
                        pending@.emitted(class) + later));
                    }
                    next
                },
            },
        );
    }
    match state {
        None => None,
        Some(pending) => {
            proof {
                assert(input@.skip(input@.len() as int) =~= Seq::<char>::empty());
                lemma_line_end(pending@, escapes);
            }
            pending.close(&mut output);
            Some(output)
        },
    }
}

/// Splits a line into tokens, reading the backslash as an escape: it ends
/// what precedes it and is dropped.
///
/// The empty line has no tokens and gives `None`.  Every other line gives
/// its tokens in the order in which they are written.  The line has to be
/// one that can be split, which `check_line` decides; `try_tokenize_line`
/// takes any line.
pub fn tokenize_line(input: String) -> (found: Option<Vec<Token>>)
    requires
        tokenizable(input@, true),
    ensures
        found is None <==> input@.len() == 0,
        found matches Some(list) ==> list.deep_view() == tokens(input@, true),
{
    scan(input.as_str(), true)
}

/// Splits a line into tokens, reading the backslash as punctuation: it is
/// a token of its own.
///
/// The empty line has no tokens and gives `None`.  Every other line gives
/// its tokens in the order in which they are written.  The numbers of the
/// line have to fit, which `check_line` decides;
/// `try_tokenize_line_without_escape` takes any line.
pub fn tokenize_line_without_escape(input: String) -> (found: Option<Vec<Token>>)
    requires
        numerals_fit(input@, false),
    ensures
        found is None <==> input@.len() == 0,
        found matches Some(list) ==> list.deep_view() == tokens(input@, false),
{
    scan(input.as_str(), false)
}

/// Decides whether a line can be split into tokens, and says why not.
pub fn check_line(input: &str, escapes: bool) -> (verdict: Result<(), LineError>)
    ensures
        verdict is Ok <==> tokenizable(input@, escapes),
        verdict matches Err(fault) ==> line_fault(input@, escapes) == Some(fault),
{
    // The value of the number that is being read, zero outside a number.
    let mut value: usize = 0;
    let mut escaped = false;
    let ghost mut state: Option<StateView> = None;
    proof {
        assert(input@.skip(0) =~= input@);
    }
    for ch in it: input.chars()
        invariant
            it.seq() == input@,
            state is None <==> it.index() == 0,
            state is None ==> value == 0 && !escaped,
            state matches Some(pending) ==> {
                &&& numerals_fit(input@, escapes) == remaining_fit(
                    pending,
                    input@.skip(it.index() as int),
                    escapes,
                )
                &&& pending.closable()
                &&& pending matches StateView::Number(begun) ==> value == decimal_value(begun)
                &&& !(pending is Number) ==> value == 0
                &&& escaped <==> char_class(input@[it.index() - 1], escapes) == CharClass::Escape
            },
    {
        let ghost rest = input@.skip(it.index() as int);
        let ghost tail = input@.skip(it.index() + 1);
        let class = classify(ch, char_is_numeric(ch), escapes);
        let ghost next = match state {
            None => StateView::opening(ch, class),
            Some(pending) => pending.after(ch, class),
        };
        proof {
            assert(rest[0] == ch);
            assert(rest.drop_first() =~= tail);
            match state {
                None => {
                    assert(rest =~= input@);
                    lemma_first_char(input@, escapes);
                },
                Some(pending) => {
                    lemma_next_char(pending, rest, escapes);
                },
            }
            assert(numerals_fit(input@, escapes) == remaining_fit(next, tail, escapes));
        }
        match class {
            CharClass::Numeric => {
                let ghost before = match state {
                    Some(StateView::Number(before)) => before,
                    _ => Seq::empty(),
                };
                let ghost more = tail.take(run_len(tail, CharClass::Numeric, escapes) as int);
                proof {
                    assert(next == StateView::Number(before.push(ch))) by {
                        assert(seq![ch] =~= Seq::<char>::empty().push(ch));
                    }
                    lemma_digit_appended(before, ch);
                    lemma_beginning_fits(before.push(ch), more);
                }
                if !(ch >= '0' && ch <= '9') {
                    return Err(LineError::UnreadableNumber);
                }
                let digit = (ch as u32 - '0' as u32) as usize;
                let grown = match value.checked_mul(10) {
                    Some(tenfold) => tenfold.checked_add(digit),
                    None => None,
                };
                match grown {
                    Some(sum) => {
                        value = sum;
                    },
                    None => {
                        return Err(LineError::UnreadableNumber);
                    },
                }
            },
            _ => {
                value = 0;
            },
        }
        escaped = matches!(class, CharClass::Escape);
        proof {
            state = Some(next);
        }
    }
    proof {
        assert(input@.skip(input@.len() as int) =~= Seq::<char>::empty());
        if let Some(pending) = state {
            lemma_line_end(pending, escapes);
        }
    }
    if escaped {
        Err(LineError::DanglingEscape)
    } else {
        Ok(())
    }
}

/// Splits a line into tokens as `tokenize_line` does, after making sure
/// that the line can be split.
pub fn try_tokenize_line(input: String) -> (found: Result<Option<Vec<Token>>, LineError>)
    ensures
        found is Ok <==> tokenizable(input@, true),
        found matches Ok(list) ==> {
            &&& list is None <==> input@.len() == 0
            &&& list matches Some(list) ==> list.deep_view() == tokens(input@, true)
        },
        found matches Err(fault) ==> line_fault(input@, true) == Some(fault),
{
    match check_line(input.as_str(), true) {
        Ok(()) => Ok(tokenize_line(input)),
        Err(fault) => Err(fault),
    }
}

/// Splits a line into tokens as `tokenize_line_without_escape` does, after
/// making sure that the line can be split.
pub fn try_tokenize_line_without_escape(input: String) -> (found: Result<
    Option<Vec<Token>>,
    LineError,
>)
    ensures
        found is Ok <==> numerals_fit(input@, false),
        found matches Ok(list) ==> {
            &&& list is None <==> input@.len() == 0
            &&& list matches Some(list) ==> list.deep_view() == tokens(input@, false)
        },
        found matches Err(fault) ==> fault == LineError::UnreadableNumber,
{
    match check_line(input.as_str(), false) {
        Ok(()) => Ok(tokenize_line_without_escape(input)),
        Err(fault) => Err(fault),
    }
}

} // verus!
