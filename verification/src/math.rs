//! Arithmetic expressions: their tokens, the plan of their left-to-right
//! reduction, and their rendering.

use vstd::prelude::*;

verus! {

/// True for the four arithmetic symbols.
pub open spec fn is_operator(c: char) -> bool {
    c == '+' || c == '-' || c == '*' || c == '/'
}

/// True for the characters a numeral is made of: ASCII digits and the dot.
pub open spec fn is_numeral_char(c: char) -> bool {
    ('0' <= c && c <= '9') || c == '.'
}

/// True for every character that may occur in an expression.
pub open spec fn is_accepted(c: char) -> bool {
    c == ' ' || is_operator(c) || is_numeral_char(c)
}

/// True when the text ends inside a numeral.
pub open spec fn ends_in_numeral(text: Seq<char>) -> bool {
    text.len() > 0 && is_numeral_char(text.last())
}

/// The tokens of a text, in order. A numeral token is a maximal run of
/// numeral characters, an operator token is a single arithmetic symbol, and
/// every other character only separates.
pub open spec fn tokens(text: Seq<char>) -> Seq<Seq<char>>
    decreases text.len(),
{
    if text.len() == 0 {
        Seq::empty()
    } else {
        let before = text.drop_last();
        let c = text.last();
        let ts = tokens(before);
        if is_operator(c) {
            ts.push(seq![c])
        } else if is_numeral_char(c) {
            if ends_in_numeral(before) {
                ts.drop_last().push(ts.last().push(c))
            } else {
                ts.push(seq![c])
            }
        } else {
            ts
        }
    }
}

/// The arithmetic symbols and numeral characters of a text, in order: what
/// is left when the separators are taken out.
pub open spec fn symbols_of(text: Seq<char>) -> Seq<char> {
    text.filter(|c: char| is_operator(c) || is_numeral_char(c))
}

/// True for a numeral token: a non-empty run of numeral characters.
pub open spec fn is_numeral(token: Seq<char>) -> bool {
    &&& token.len() > 0
    &&& forall|i: int| 0 <= i < token.len() ==> is_numeral_char(#[trigger] token[i])
}

/// True for a token as tokenizing produces it: a numeral or a single
/// arithmetic symbol.
pub open spec fn is_token(token: Seq<char>) -> bool {
    is_numeral(token) || (token.len() == 1 && is_operator(token[0]))
}

/// True when every member of the sequence is a token.
pub open spec fn all_tokens(tokens: Seq<Seq<char>>) -> bool {
    forall|i: int| 0 <= i < tokens.len() ==> is_token(#[trigger] tokens[i])
}

/// The bank of finished tokens together with the word in progress, if any.
pub open spec fn flushed(bank: Seq<Seq<char>>, word: Seq<char>) -> Seq<Seq<char>> {
    if word.len() > 0 {
        bank.push(word)
    } else {
        bank
    }
}

/// Moves a word in progress to the bank and empties it; does nothing when
/// there is no word in progress.
fn dunk(word: &mut String, bank: &mut Vec<String>)
    ensures
        final(bank).deep_view() == flushed(old(bank).deep_view(), old(word)@),
        final(word)@.len() == 0,
{
    if !word.as_str().is_empty() {
        bank.push(word.clone());
        word.clear();
        assert(bank.deep_view() =~= old(bank).deep_view().push(old(word)@));
    }
}

/// What can go wrong while an expression is read and reduced.
#[derive(Debug, PartialEq, Eq)]
pub enum MathError {
    /// The text holds a character that no expression may hold.
    InvalidCharacter(char),
    /// There is no token to reduce.
    EmptyExpression,
    /// A token that has to be a numeral is none.
    InvalidNumber(String),
}

/// The mathematical value of a [`MathError`].
pub ghost enum Fault {
    InvalidCharacter(char),
    EmptyExpression,
    InvalidNumber(Seq<char>),
}

impl View for MathError {
    type V = Fault;

    open spec fn view(&self) -> Fault {
        match self {
            MathError::InvalidCharacter(c) => Fault::InvalidCharacter(*c),
            MathError::EmptyExpression => Fault::EmptyExpression,
            MathError::InvalidNumber(t) => Fault::InvalidNumber(t@),
        }
    }
}

/// True when `i` is the position of the first character of `text` that no
/// expression may hold.
pub open spec fn is_first_rejected(text: Seq<char>, i: int) -> bool {
    &&& 0 <= i < text.len()
    &&& !is_accepted(text[i])
    &&& forall|j: int| 0 <= j < i ==> is_accepted(#[trigger] text[j])
}

/// True when every character of `text` may occur in an expression.
pub open spec fn accepts(text: Seq<char>) -> bool {
    forall|i: int| 0 <= i < text.len() ==> is_accepted(#[trigger] text[i])
}

/// The position of the first rejected character of a text that has one.
pub open spec fn first_rejected(text: Seq<char>) -> int {
    choose|i: int| is_first_rejected(text, i)
}

/// What tokenizing a text gives: its tokens, or the first character that
/// is not accepted.
pub open spec fn tokenized(text: Seq<char>) -> Result<Seq<Seq<char>>, Fault> {
    if accepts(text) {
        Ok(tokens(text))
    } else {
        Err(Fault::InvalidCharacter(text[first_rejected(text)]))
    }
}

/// A text has at most one first rejected character.
pub proof fn lemma_first_rejected_unique(text: Seq<char>, i: int)
    requires
        is_first_rejected(text, i),
    ensures
        !accepts(text),
        first_rejected(text) == i,
{
    let k = first_rejected(text);
    assert(is_first_rejected(text, k));
    if k < i {
        assert(is_accepted(text[k]));
    } else if i < k {
        assert(is_accepted(text[i]));
    }
}

/// The mathematical value of what tokenizing returned.
pub open spec fn tokens_view(r: Result<Vec<String>, MathError>) -> Result<Seq<Seq<char>>, Fault> {
    match r {
        Ok(bank) => Ok(bank.deep_view()),
        Err(e) => Err(e@),
    }
}

/// Splits an expression into its tokens: numerals and single arithmetic
/// symbols, in the order in which they occur. Spaces separate and are
/// dropped. The first character that is neither a digit, a dot, a space nor
/// an arithmetic symbol ends the scan with an error that names it.
pub fn parse(input: String) -> (r: Result<Vec<String>, MathError>)
    ensures
        tokens_view(r) == tokenized(input@),
{
    let mut bank: Vec<String> = Vec::new();
    let mut word = String::new();
    assert(bank.deep_view() =~= Seq::<Seq<char>>::empty());
    for ch in it: input.as_str().chars()
        invariant
            it.seq() == input@,
            flushed(bank.deep_view(), word@) == tokens(input@.take(it.index())),
            word@.len() > 0 <==> ends_in_numeral(input@.take(it.index())),
            forall|j: int| 0 <= j < it.index() ==> is_accepted(#[trigger] input@[j]),
    {
        let ghost before = input@.take(it.index());
        let ghost now = input@.take(it.index() + 1);
        assert(now.drop_last() =~= before);
        assert(now.last() == ch);
        if ch == ' ' {
            dunk(&mut word, &mut bank);
        } else if ch == '+' || ch == '-' || ch == '*' || ch == '/' {
            dunk(&mut word, &mut bank);
            let mut symbol = String::new();
            symbol.push(ch);
            bank.push(symbol);
            assert(bank.deep_view() =~= tokens(before).push(seq![ch]));
        } else if ('0' <= ch && ch <= '9') || ch == '.' {
            let ghost bank_before = bank.deep_view();
            let ghost word_before = word@;
            word.push(ch);
            proof {
                if word_before.len() > 0 {
                    assert(bank_before.push(word_before).drop_last() =~= bank_before);
                } else {
                    assert(word@ =~= seq![ch]);
                }
            }
        } else {
            proof {
                lemma_first_rejected_unique(input@, it.index());
            }
            return Err(MathError::InvalidCharacter(ch));
        }
    }
    assert(input@.take(input@.len() as int) =~= input@);
    dunk(&mut word, &mut bank);
    Ok(bank)
}

/// One of the four arithmetic operations.
#[derive(Debug, Clone, Copy, PartialEq, Eq, Structural)]
pub enum MathOp {
    Add,
    Sub,
    Mul,
    Div,
}

/// The operation that a token selects: `Some` for the four tokens made of
/// exactly one arithmetic symbol, `None` for every other token.
pub open spec fn operator_of(token: Seq<char>) -> Option<MathOp> {
    if token.len() != 1 {
        None
    } else if token[0] == '+' {
        Some(MathOp::Add)
    } else if token[0] == '-' {
        Some(MathOp::Sub)
    } else if token[0] == '*' {
        Some(MathOp::Mul)
    } else if token[0] == '/' {
        Some(MathOp::Div)
    } else {
        None
    }
}

impl MathOp {
    /// Reads a token as an operator, if it is one.
    pub fn from_token(token: &str) -> (r: Option<MathOp>)
        ensures
            r == operator_of(token@),
    {
        if token.unicode_len() != 1 {
            return None;
        }
        let c = token.get_char(0);
        if c == '+' {
            Some(MathOp::Add)
        } else if c == '-' {
            Some(MathOp::Sub)
        } else if c == '*' {
            Some(MathOp::Mul)
        } else if c == '/' {
            Some(MathOp::Div)
        } else {
            None
        }
    }
}

/// One application of the reduction: the accumulator becomes
/// `accumulator <op> operand`, where the operand is the numeral that stands
/// at position `index` of the token sequence.
#[derive(Debug, Clone, Copy, PartialEq, Eq, Structural)]
pub struct Step {
    pub op: MathOp,
    pub index: usize,
}

/// The operation that waits for an operand when the token at position `i`
/// is read: the operator just before it, or multiplication when the token
/// before it is a numeral.
pub open spec fn pending_at(tokens: Seq<Seq<char>>, i: int) -> MathOp {
    if i >= 2 {
        match operator_of(tokens[i - 1]) {
            Some(op) => op,
            None => MathOp::Mul,
        }
    } else {
        MathOp::Mul
    }
}

/// True when the token at position `i` is an operand: it stands after the
/// first token and is no operator.
pub open spec fn is_operand(tokens: Seq<Seq<char>>, i: int) -> bool {
    1 <= i < tokens.len() && operator_of(tokens[i]) is None
}

/// The step that the operand at position `i` gives rise to.
pub open spec fn step_at(tokens: Seq<Seq<char>>, i: int) -> Step {
    Step { op: pending_at(tokens, i), index: i as usize }
}

/// The steps that the first `n` tokens give rise to: one for each operand
/// among them, in order.
pub open spec fn steps_of(tokens: Seq<Seq<char>>, n: int) -> Seq<Step>
    decreases n,
{
    if n <= 1 {
        Seq::empty()
    } else if is_operand(tokens, n - 1) {
        steps_of(tokens, n - 1).push(step_at(tokens, n - 1))
    } else {
        steps_of(tokens, n - 1)
    }
}

/// What planning the reduction of a token sequence gives.
pub open spec fn planned(tokens: Seq<Seq<char>>) -> Result<Seq<Step>, Fault> {
    if tokens.len() == 0 {
        Err(Fault::EmptyExpression)
    } else if operator_of(tokens[0]) is Some {
        Err(Fault::InvalidNumber(tokens[0]))
    } else {
        Ok(steps_of(tokens, tokens.len() as int))
    }
}

/// The mathematical value of what planning returned.
pub open spec fn steps_view(r: Result<Vec<Step>, MathError>) -> Result<Seq<Step>, Fault> {
    match r {
        Ok(steps) => Ok(steps@),
        Err(e) => Err(e@),
    }
}

/// Plans the left-to-right reduction of a token sequence. The first token
/// seeds the accumulator, so it has to be a numeral. Of the tokens after it,
/// an operator replaces the pending operation, and a numeral is applied to
/// the accumulator with the pending operation, which then falls back to
/// multiplication. The result lists these applications in order. Reading
/// the numerals as numbers and doing the arithmetic is left to the caller,
/// who seeds the accumulator with the first token and goes through the
/// steps.
pub fn plan(tokens: &Vec<String>) -> (r: Result<Vec<Step>, MathError>)
    ensures
        steps_view(r) == planned(tokens.deep_view()),
{
    if tokens.len() == 0 {
        return Err(MathError::EmptyExpression);
    }
    if MathOp::from_token(tokens[0].as_str()).is_some() {
        return Err(MathError::InvalidNumber(tokens[0].clone()));
    }
    let mut steps: Vec<Step> = Vec::new();
    let mut op = MathOp::Mul;
    let mut i: usize = 1;
    while i < tokens.len()
        invariant
            1 <= i <= tokens.len(),
            op == pending_at(tokens.deep_view(), i as int),
            steps@ == steps_of(tokens.deep_view(), i as int),
        decreases tokens.len() - i,
    {
        match MathOp::from_token(tokens[i].as_str()) {
            Some(selected) => {
                op = selected;
            },
            None => {
                steps.push(Step { op, index: i });
                op = MathOp::Mul;
            },
        }
        i = i + 1;
    }
    Ok(steps)
}

/// The tokens written one after another with a single space between
/// neighbours.
pub open spec fn joined(tokens: Seq<Seq<char>>) -> Seq<char>
    decreases tokens.len(),
{
    if tokens.len() == 0 {
        Seq::empty()
    } else if tokens.len() == 1 {
        tokens[0]
    } else {
        joined(tokens.drop_last()).push(' ') + tokens.last()
    }
}

/// Writes a token sequence as one line, the tokens separated by single
/// spaces.
pub fn render(tokens: &Vec<String>) -> (r: String)
    ensures
        r@ == joined(tokens.deep_view()),
{
    let mut line = String::new();
    let mut i: usize = 0;
    while i < tokens.len()
        invariant
            i <= tokens.len(),
            line@ == joined(tokens.deep_view().take(i as int)),
        decreases tokens.len() - i,
    {
        let ghost upto = tokens.deep_view().take(i + 1);
        assert(upto.drop_last() =~= tokens.deep_view().take(i as int));
        assert(upto.last() == tokens[i as int]@);
        if i > 0 {
            line.push(' ');
        }
        line.append(tokens[i].as_str());
        assert(line@ =~= joined(upto));
        i = i + 1;
    }
    assert(tokens.deep_view().take(i as int) =~= tokens.deep_view());
    line
}

} // verus!
