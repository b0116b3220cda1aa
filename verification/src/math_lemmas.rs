//! What holds of tokenizing, rendering and planning for every input.

use crate::math::{
    accepts, all_tokens, ends_in_numeral, is_accepted, is_numeral, is_numeral_char, is_operand,
    is_operator, is_token, joined, operator_of, planned, step_at, steps_of, steps_view, symbols_of, tokenized,
    tokens, tokens_view, Fault, MathError, MathOp, Step,
};
use vstd::prelude::*;

verus! {

/// Every token of a text is a numeral or a single arithmetic symbol, and a
/// text that ends inside a numeral has that numeral as its last token.
pub proof fn lemma_tokens_are_tokens(text: Seq<char>)
    ensures
        all_tokens(tokens(text)),
        ends_in_numeral(text) ==> tokens(text).len() > 0 && is_numeral(tokens(text).last()),
    decreases text.len(),
{
    if text.len() > 0 {
        let before = text.drop_last();
        let c = text.last();
        lemma_tokens_are_tokens(before);
        let ts = tokens(before);
        if is_operator(c) {
            assert(is_token(seq![c]));
        } else if is_numeral_char(c) {
            if ends_in_numeral(before) {
                assert(is_numeral(ts.last().push(c)));
            } else {
                assert(is_numeral(seq![c]));
            }
        }
    }
}

/// Tokenizing goes through a boundary: where the first part does not end
/// inside a numeral that the second part continues, the tokens of the whole
/// are the tokens of the parts, one after the other.
pub proof fn lemma_tokens_concat(a: Seq<char>, b: Seq<char>)
    requires
        !(ends_in_numeral(a) && b.len() > 0 && is_numeral_char(b[0])),
    ensures
        tokens(a + b) == tokens(a) + tokens(b),
    decreases b.len(),
{
    if b.len() == 0 {
        assert(a + b =~= a);
        assert(tokens(a) + tokens(b) =~= tokens(a));
    } else {
        let whole = a + b;
        let c = b.last();
        assert(whole.drop_last() =~= a + b.drop_last());
        assert(whole.last() == c);
        if b.len() > 1 {
            assert(b.drop_last()[0] == b[0]);
        }
        lemma_tokens_concat(a, b.drop_last());
        lemma_tokens_are_tokens(b.drop_last());
        let ta = tokens(a);
        let tb = tokens(b.drop_last());
        if is_operator(c) {
            assert((ta + tb).push(seq![c]) =~= ta + tb.push(seq![c]));
        } else if is_numeral_char(c) {
            if ends_in_numeral(b.drop_last()) {
                assert(ends_in_numeral(whole.drop_last()));
                assert((ta + tb).drop_last().push((ta + tb).last().push(c)) =~= ta
                    + tb.drop_last().push(tb.last().push(c)));
            } else {
                assert(!ends_in_numeral(whole.drop_last()));
                assert((ta + tb).push(seq![c]) =~= ta + tb.push(seq![c]));
            }
        }
    }
}

/// A token, read as a text, has itself as its only token.
pub proof fn lemma_tokens_of_token(token: Seq<char>)
    requires
        is_token(token),
    ensures
        tokens(token) == seq![token],
        accepts(token),
    decreases token.len(),
{
    let before = token.drop_last();
    let c = token.last();
    assert(tokens(Seq::<char>::empty()) =~= Seq::<Seq<char>>::empty());
    if is_numeral(token) {
        if token.len() == 1 {
            assert(before =~= Seq::<char>::empty());
            assert(token =~= seq![c]);
            assert(tokens(token) =~= seq![token]);
        } else {
            assert(is_numeral(before));
            lemma_tokens_of_token(before);
            assert(seq![before].drop_last().push(seq![before].last().push(c)) =~= seq![
                before.push(c),
            ]);
            assert(before.push(c) =~= token);
        }
    } else {
        assert(before =~= Seq::<char>::empty());
        assert(token =~= seq![c]);
        assert(tokens(token) =~= seq![token]);
    }
}

/// Tokenizing undoes rendering: a sequence of tokens, written with single
/// spaces between them, is accepted and reads back as the same sequence.
pub proof fn lemma_tokens_of_joined(ts: Seq<Seq<char>>)
    requires
        all_tokens(ts),
    ensures
        accepts(joined(ts)),
        tokens(joined(ts)) == ts,
    decreases ts.len(),
{
    if ts.len() == 0 {
    } else if ts.len() == 1 {
        lemma_tokens_of_token(ts[0]);
        assert(seq![ts[0]] =~= ts);
    } else {
        let head = ts.drop_last();
        let t = ts.last();
        lemma_tokens_of_joined(head);
        lemma_tokens_of_token(t);
        let spaced = joined(head).push(' ');
        assert(spaced.drop_last() =~= joined(head));
        assert(tokens(spaced) == head);
        lemma_tokens_concat(spaced, t);
        assert(head + seq![t] =~= ts);
        assert forall|i: int| 0 <= i < joined(ts).len() implies is_accepted(
            #[trigger] joined(ts)[i],
        ) by {
            if i < joined(head).len() {
                assert(joined(ts)[i] == joined(head)[i]);
            } else if i > joined(head).len() {
                assert(joined(ts)[i] == t[i - joined(head).len() - 1]);
            }
        }
    }
}

/// In a rendering every space is a single one between two tokens: it has a
/// character that is no space on either side.
pub proof fn lemma_rendering_has_single_spaces(ts: Seq<Seq<char>>)
    requires
        all_tokens(ts),
    ensures
        ts.len() > 0 ==> joined(ts).len() > 0,
        forall|i: int|
            0 <= i < joined(ts).len() && #[trigger] joined(ts)[i] == ' ' ==> {
                &&& 0 < i < joined(ts).len() - 1
                &&& joined(ts)[i - 1] != ' '
                &&& joined(ts)[i + 1] != ' '
            },
    decreases ts.len(),
{
    if ts.len() == 1 {
        assert(is_token(ts[0]));
    } else if ts.len() > 1 {
        let head = ts.drop_last();
        let t = ts.last();
        lemma_rendering_has_single_spaces(head);
        assert(is_token(t));
        let n = joined(head).len() as int;
        assert forall|i: int| 0 <= i < joined(ts).len() && #[trigger] joined(ts)[i] == ' ' implies {
            &&& 0 < i < joined(ts).len() - 1
            &&& joined(ts)[i - 1] != ' '
            &&& joined(ts)[i + 1] != ' '
        } by {
            if i < n {
                assert(joined(ts)[i] == joined(head)[i]);
                assert(joined(ts)[i - 1] == joined(head)[i - 1]);
                assert(joined(ts)[i + 1] == joined(head)[i + 1]);
            } else if i == n {
                assert(joined(ts)[n - 1] == joined(head)[n - 1]);
                if joined(head)[n - 1] == ' ' {
                    assert(n - 1 < joined(head).len() - 1);
                }
                assert(joined(ts)[n + 1] == t[0]);
            } else {
                assert(joined(ts)[i] == t[i - n - 1]);
            }
        }
    }
}

/// The rendering of a text's tokens is a normal form of the text: it has
/// the same tokens as the text, so rendering it again changes nothing; its
/// spaces are single ones between tokens; and apart from separators it
/// holds the characters of the text, in their order.
pub proof fn lemma_rendering_is_normal_form(text: Seq<char>)
    ensures
        accepts(joined(tokens(text))),
        tokens(joined(tokens(text))) == tokens(text),
        joined(tokens(joined(tokens(text)))) == joined(tokens(text)),
        forall|i: int|
            0 <= i < joined(tokens(text)).len() && #[trigger] joined(tokens(text))[i] == ' ' ==> {
                &&& 0 < i < joined(tokens(text)).len() - 1
                &&& joined(tokens(text))[i - 1] != ' '
                &&& joined(tokens(text))[i + 1] != ' '
            },
        symbols_of(joined(tokens(text))) == symbols_of(text),
{
    lemma_tokens_are_tokens(text);
    lemma_tokens_of_joined(tokens(text));
    lemma_rendering_has_single_spaces(tokens(text));
    lemma_tokens_keep_symbols(text);
    lemma_tokens_keep_symbols(joined(tokens(text)));
}

/// Tokenizing loses nothing but separators and keeps the order: the tokens
/// of a text, written one after another, are the text's arithmetic symbols
/// and numeral characters.
pub proof fn lemma_tokens_keep_symbols(text: Seq<char>)
    ensures
        tokens(text).flatten() == symbols_of(text),
    decreases text.len(),
{
    let kept = |c: char| is_operator(c) || is_numeral_char(c);
    if text.len() == 0 {
        reveal(Seq::filter);
        assert(tokens(text).flatten() =~= text.filter(kept));
    } else {
        let before = text.drop_last();
        let c = text.last();
        let ts = tokens(before);
        lemma_tokens_keep_symbols(before);
        lemma_tokens_are_tokens(before);
        assert(before.push(c) =~= text);
        before.lemma_filter_push(c, kept);
        if is_operator(c) {
            ts.lemma_flatten_push(seq![c]);
            assert(ts.flatten() + seq![c] =~= ts.flatten().push(c));
        } else if is_numeral_char(c) {
            if ends_in_numeral(before) {
                let head = ts.drop_last();
                assert(head.push(ts.last()) =~= ts);
                head.lemma_flatten_push(ts.last());
                head.lemma_flatten_push(ts.last().push(c));
                assert(head.flatten() + ts.last().push(c) =~= (head.flatten()
                    + ts.last()).push(c));
            } else {
                ts.lemma_flatten_push(seq![c]);
                assert(ts.flatten() + seq![c] =~= ts.flatten().push(c));
            }
        }
    }
}

/// The steps of a token sequence follow its operands: every step is the
/// step of an operand, the steps come in the order of their operands, and
/// every operand has its step.
pub proof fn lemma_steps_follow_operands(tokens: Seq<Seq<char>>, n: int)
    requires
        n <= tokens.len() <= usize::MAX,
    ensures
        forall|k: int|
            0 <= k < steps_of(tokens, n).len() ==> {
                let step = #[trigger] steps_of(tokens, n)[k];
                &&& step.index < n
                &&& is_operand(tokens, step.index as int)
                &&& step == step_at(tokens, step.index as int)
            },
        forall|j: int, k: int|
            0 <= j < k < steps_of(tokens, n).len() ==> (#[trigger] steps_of(tokens, n)[j]).index < (
            #[trigger] steps_of(tokens, n)[k]).index,
        forall|i: int|
            i < n && #[trigger] is_operand(tokens, i) ==> steps_of(tokens, n).contains(
                step_at(tokens, i),
            ),
    decreases n,
{
    if n > 1 {
        lemma_steps_follow_operands(tokens, n - 1);
        let before = steps_of(tokens, n - 1);
        let now = steps_of(tokens, n);
        if operator_of(tokens[n - 1]) is None {
            let last = step_at(tokens, n - 1);
            assert(now == before.push(last));
            assert forall|i: int| i < n && #[trigger] is_operand(tokens, i) implies now.contains(
                step_at(tokens, i),
            ) by {
                if i < n - 1 {
                    let k = choose|k: int| 0 <= k < before.len() && before[k] == step_at(tokens, i);
                    assert(now[k] == step_at(tokens, i));
                } else {
                    assert(now[before.len() as int] == last);
                }
            }
        }
    }
}

/// Two numerals in a row are multiplied: where the token before an operand
/// is no operator, the operand's step is a multiplication.
pub proof fn lemma_adjacent_numerals_multiply(tokens: Seq<Seq<char>>, i: int)
    requires
        tokens.len() <= usize::MAX,
        planned(tokens) is Ok,
        is_operand(tokens, i),
        operator_of(tokens[i - 1]) is None,
    ensures
        planned(tokens)->Ok_0.contains(Step { op: MathOp::Mul, index: i as usize }),
{
    lemma_steps_follow_operands(tokens, tokens.len() as int);
    assert(step_at(tokens, i) == Step { op: MathOp::Mul, index: i as usize });
}

/// The last operator before an operand is the one applied, whatever
/// operators stand before it.
pub proof fn lemma_last_operator_wins(tokens: Seq<Seq<char>>, i: int, op: MathOp)
    requires
        tokens.len() <= usize::MAX,
        planned(tokens) is Ok,
        is_operand(tokens, i),
        i >= 2,
        operator_of(tokens[i - 1]) == Some(op),
    ensures
        planned(tokens)->Ok_0.contains(Step { op, index: i as usize }),
{
    lemma_steps_follow_operands(tokens, tokens.len() as int);
    assert(step_at(tokens, i) == Step { op, index: i as usize });
}

/// A text made of accepted characters always has its tokens, and they have
/// a plan as soon as the first of them is a numeral.
pub proof fn lemma_accepted_text_is_planned(text: Seq<char>)
    requires
        accepts(text),
    ensures
        tokenized(text) == Ok::<Seq<Seq<char>>, Fault>(tokens(text)),
        tokens(text).len() > 0 && is_numeral(tokens(text)[0]) ==> planned(tokens(text)) is Ok,
        tokens(text).len() > 0 && !is_numeral(tokens(text)[0]) ==> planned(tokens(text)) is Err,
{
    lemma_tokens_are_tokens(text);
    if tokens(text).len() > 0 {
        let first = tokens(text)[0];
        assert(is_token(first));
        if is_numeral(first) {
            assert(is_numeral_char(first[0]));
        }
    }
}

/// Reading is reproducible: whatever two readings of one text return, they
/// return the same tokens or the same fault, and two plans made from these
/// tokens are the same plan.
pub proof fn lemma_reading_is_reproducible(
    text: Seq<char>,
    first: Result<Vec<String>, MathError>,
    second: Result<Vec<String>, MathError>,
    first_plan: Result<Vec<Step>, MathError>,
    second_plan: Result<Vec<Step>, MathError>,
)
    requires
        tokens_view(first) == tokenized(text),
        tokens_view(second) == tokenized(text),
        first matches Ok(bank) ==> steps_view(first_plan) == planned(bank.deep_view()),
        second matches Ok(bank) ==> steps_view(second_plan) == planned(bank.deep_view()),
    ensures
        tokens_view(first) == tokens_view(second),
        first is Ok ==> steps_view(first_plan) == steps_view(second_plan),
{
}

} // verus!
