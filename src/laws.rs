//! Laws of the language, proved over the models.

use vstd::prelude::*;
use crate::lexer::{LINE_FEED, SEMICOLON, Tok, TokenError, lex, line_end};
use crate::parser::{
    Bracket, Fault, Frame, Step, absorb, frame_bracket, frame_value, lemma_step_advances, parse_doc,
    parse_from, step,
};
use crate::value::{Value, dict_get, dict_insert, key_lt, keys_ascending, lemma_insert_ascending};

verus! {

/// The frames of a parse under way: the root, a dictionary, at the bottom.
pub open spec fn rooted(fr: Seq<Frame>) -> bool {
    fr.len() >= 1 && fr[0] is Dict
}

proof fn lemma_absorb_rooted(b: Seq<u8>, j: int, fr: Seq<Frame>, v: Value)
    requires
        rooted(fr),
    ensures
        absorb(b, j, fr, v) matches Step::Next(fr2, _) ==> rooted(fr2),
        !(absorb(b, j, fr, v) matches Step::Done(Ok(_))),
{
}

proof fn lemma_step_rooted(b: Seq<u8>, i: int, fr: Seq<Frame>)
    requires
        rooted(fr),
    ensures
        step(b, i, fr) matches Step::Next(fr2, _) ==> rooted(fr2),
        step(b, i, fr) matches Step::Done(Ok(v)) ==> v is Dict,
{
    let j = lex(b, i).1;
    if fr.len() > 1 {
        let rest = fr.drop_last();
        assert(rest[0] == fr[0]);
        lemma_absorb_rooted(b, j, rest, frame_value(fr.last()));
    }
    match lex(b, i).0 {
        Ok(Tok::Str(s)) => lemma_absorb_rooted(b, j, fr, Value::Text(s)),
        Ok(Tok::Num(n)) => lemma_absorb_rooted(b, j, fr, Value::Number(n)),
        Ok(Tok::LBrace) => assert(fr.push(Frame::Dict(Seq::empty()))[0] == fr[0]),
        Ok(Tok::LParen) => assert(fr.push(Frame::List(Seq::empty()))[0] == fr[0]),
        _ => {},
    }
}

proof fn lemma_parse_from_rooted(b: Seq<u8>, i: int, fr: Seq<Frame>)
    requires
        0 <= i <= b.len(),
        rooted(fr),
    ensures
        parse_from(b, i, fr) matches Ok(v) ==> v is Dict,
    decreases b.len() - i,
{
    lemma_step_rooted(b, i, fr);
    lemma_step_advances(b, i, fr);
    if let Step::Next(fr2, m) = step(b, i, fr) {
        lemma_parse_from_rooted(b, m, fr2);
    }
}

/// Whatever the input, a document that parses is a dictionary: its root is
/// never a list or a scalar.
pub proof fn lemma_root_is_dictionary(b: Seq<u8>, i: int)
    requires
        0 <= i <= b.len(),
    ensures
        parse_doc(b, i) matches Ok(v) ==> v is Dict,
{
    lemma_parse_from_rooted(b, i, seq![Frame::Dict(Seq::empty())]);
}

proof fn lemma_line_end_at(b: Seq<u8>, i: int, j: int)
    requires
        0 <= i < j <= b.len(),
        b[j - 1] == LINE_FEED,
        forall|k: int| i <= k < j - 1 ==> b[k] != LINE_FEED,
    ensures
        line_end(b, i) == j,
    decreases j - i,
{
    if i < j - 1 {
        lemma_line_end_at(b, i + 1, j);
    }
}

proof fn lemma_line_end_none(b: Seq<u8>, i: int)
    requires
        0 <= i <= b.len(),
        forall|k: int| i <= k < b.len() ==> b[k] != LINE_FEED,
    ensures
        line_end(b, i) == b.len(),
    decreases b.len() - i,
{
    if i < b.len() {
        lemma_line_end_none(b, i + 1);
    }
}

/// A comment is transparent: from a `;` the next token is the one that
/// follows the end of its line.
pub proof fn lemma_comment_skipped(b: Seq<u8>, i: int, j: int)
    requires
        0 <= i < j <= b.len(),
        b[i] == SEMICOLON,
        b[j - 1] == LINE_FEED,
        forall|k: int| i < k < j - 1 ==> b[k] != LINE_FEED,
    ensures
        lex(b, i) == lex(b, j),
{
    lemma_line_end_at(b, i + 1, j);
}

/// A comment on the last line, without a line feed, runs to the end of the
/// input, where the next token is the end.
pub proof fn lemma_comment_at_end(b: Seq<u8>, i: int)
    requires
        0 <= i < b.len(),
        b[i] == SEMICOLON,
        forall|k: int| i < k < b.len() ==> b[k] != LINE_FEED,
    ensures
        lex(b, i) == (Ok::<Tok, TokenError>(Tok::End), b.len() as int),
{
    lemma_line_end_none(b, i + 1);
    assert(lex(b, b.len() as int) == (Ok::<Tok, TokenError>(Tok::End), b.len() as int));
}

/// The value bound last is the value found.
pub proof fn lemma_insert_then_get(e: Seq<(Seq<char>, Value)>, key: Seq<char>, val: Value)
    ensures
        dict_get(dict_insert(e, key, val), key) == Some(val),
    decreases e.len(),
{
    if e.len() > 0 && e[0].0 != key && !key_lt(key, e[0].0) {
        lemma_insert_then_get(e.drop_first(), key, val);
        assert((seq![e[0]] + dict_insert(e.drop_first(), key, val)).drop_first() =~= dict_insert(
            e.drop_first(),
            key,
            val,
        ));
    }
}

/// Postfix assignment: in a dictionary, a string literal followed by `=` and
/// an identifier binds the identifier to the string, and parsing goes on after
/// the identifier.
pub proof fn lemma_postfix_assignment(
    b: Seq<u8>,
    i: int,
    fr: Seq<Frame>,
    text: Seq<char>,
    key: Seq<char>,
    j: int,
    k: int,
    m: int,
)
    requires
        fr.len() >= 1,
        fr.last() is Dict,
        lex(b, i) == (Ok::<Tok, TokenError>(Tok::Str(text)), j),
        lex(b, j) == (Ok::<Tok, TokenError>(Tok::Equals), k),
        lex(b, k) == (Ok::<Tok, TokenError>(Tok::Ident(key)), m),
    ensures
        step(b, i, fr) == Step::Next(
            fr.update(
                fr.len() - 1,
                Frame::Dict(dict_insert(fr.last()->Dict_0, key, Value::Text(text))),
            ),
            m,
        ),
        dict_get(dict_insert(fr.last()->Dict_0, key, Value::Text(text)), key) == Some(
            Value::Text(text),
        ),
{
    lemma_insert_then_get(fr.last()->Dict_0, key, Value::Text(text));
}

/// An open bracket left unclosed at the end of the input is an error that
/// names the innermost one.
pub proof fn lemma_unclosed_bracket(b: Seq<u8>, i: int, fr: Seq<Frame>)
    requires
        lex(b, i).0 == Ok::<Tok, TokenError>(Tok::End),
        fr.len() > 1,
    ensures
        parse_from(b, i, fr) == Err::<Value, Fault>(Fault::Unterminated(frame_bracket(fr.last()))),
{
}

/// A `}` with no open `{` to close (none open, or a `(` innermost) is an error.
pub proof fn lemma_stray_brace(b: Seq<u8>, i: int, fr: Seq<Frame>)
    requires
        lex(b, i).0 == Ok::<Tok, TokenError>(Tok::RBrace),
        fr.len() <= 1 || fr.last() is List,
    ensures
        parse_from(b, i, fr) == Err::<Value, Fault>(Fault::Mismatched(Bracket::Brace)),
{
}

/// A `)` with no open `(` to close (none open, or a `{` innermost) is an error.
pub proof fn lemma_stray_paren(b: Seq<u8>, i: int, fr: Seq<Frame>)
    requires
        lex(b, i).0 == Ok::<Tok, TokenError>(Tok::RParen),
        fr.len() <= 1 || fr.last() is Dict,
    ensures
        parse_from(b, i, fr) == Err::<Value, Fault>(Fault::Mismatched(Bracket::Paren)),
{
}

/// Binding a key twice keeps only the second value.
pub proof fn lemma_overwrite(e: Seq<(Seq<char>, Value)>, key: Seq<char>, v1: Value, v2: Value)
    ensures
        dict_insert(dict_insert(e, key, v1), key, v2) == dict_insert(e, key, v2),
        dict_get(dict_insert(dict_insert(e, key, v1), key, v2), key) == Some(v2),
    decreases e.len(),
{
    let once = dict_insert(e, key, v1);
    if e.len() == 0 {
        assert(once.drop_first() =~= Seq::<(Seq<char>, Value)>::empty());
    } else if e[0].0 == key {
        assert(once.drop_first() =~= e.drop_first());
    } else if key_lt(key, e[0].0) {
        assert(once.drop_first() =~= e);
    } else {
        lemma_overwrite(e.drop_first(), key, v1, v2);
        assert(once.drop_first() =~= dict_insert(e.drop_first(), key, v1));
        assert(once[0] == e[0]);
    }
    lemma_insert_then_get(dict_insert(e, key, v1), key, v2);
}

/// Every dictionary frame holds unique keys in ascending order.
pub open spec fn frames_ascending(fr: Seq<Frame>) -> bool {
    forall|k: int| 0 <= k < fr.len() && #[trigger] fr[k] is Dict ==> keys_ascending(fr[k]->Dict_0)
}

proof fn lemma_absorb_ascending(b: Seq<u8>, j: int, fr: Seq<Frame>, v: Value)
    requires
        fr.len() >= 1,
        frames_ascending(fr),
    ensures
        absorb(b, j, fr, v) matches Step::Next(fr2, _) ==> frames_ascending(fr2),
{
    let last = fr.len() - 1;
    if let Step::Next(fr2, _) = absorb(b, j, fr, v) {
        if let Frame::Dict(e) = fr[last] {
            let key = choose|key: Seq<char>| fr2 == fr.update(last, Frame::Dict(dict_insert(e, key, v)));
            lemma_insert_ascending(e, key, v);
        }
        assert forall|k: int| 0 <= k < fr2.len() && #[trigger] fr2[k] is Dict implies keys_ascending(fr2[k]->Dict_0) by {
            if k != last {
                assert(fr2[k] == fr[k]);
            }
        }
    }
}

proof fn lemma_step_ascending(b: Seq<u8>, i: int, fr: Seq<Frame>)
    requires
        rooted(fr),
        frames_ascending(fr),
    ensures
        step(b, i, fr) matches Step::Next(fr2, _) ==> frames_ascending(fr2),
        step(b, i, fr) matches Step::Done(Ok(v)) ==> keys_ascending(v->Dict_0),
{
    let j = lex(b, i).1;
    if fr.len() > 1 {
        let rest = fr.drop_last();
        assert forall|k: int| 0 <= k < rest.len() && #[trigger] rest[k] is Dict implies keys_ascending(rest[k]->Dict_0) by {
            assert(rest[k] == fr[k]);
        }
        lemma_absorb_ascending(b, j, rest, frame_value(fr.last()));
    }
    match lex(b, i).0 {
        Ok(Tok::Str(s)) => lemma_absorb_ascending(b, j, fr, Value::Text(s)),
        Ok(Tok::Num(n)) => lemma_absorb_ascending(b, j, fr, Value::Number(n)),
        Ok(Tok::LBrace) => {
            let fr2 = fr.push(Frame::Dict(Seq::empty()));
            assert forall|k: int| 0 <= k < fr2.len() && #[trigger] fr2[k] is Dict implies keys_ascending(fr2[k]->Dict_0) by {
                if k < fr.len() {
                    assert(fr2[k] == fr[k]);
                }
            }
        },
        Ok(Tok::LParen) => {
            let fr2 = fr.push(Frame::List(Seq::empty()));
            assert forall|k: int| 0 <= k < fr2.len() && #[trigger] fr2[k] is Dict implies keys_ascending(fr2[k]->Dict_0) by {
                if k < fr.len() {
                    assert(fr2[k] == fr[k]);
                }
            }
        },
        _ => {},
    }
}

proof fn lemma_parse_from_ascending(b: Seq<u8>, i: int, fr: Seq<Frame>)
    requires
        0 <= i <= b.len(),
        rooted(fr),
        frames_ascending(fr),
    ensures
        parse_from(b, i, fr) matches Ok(v) ==> v is Dict && keys_ascending(v->Dict_0),
    decreases b.len() - i,
{
    lemma_step_rooted(b, i, fr);
    lemma_step_ascending(b, i, fr);
    lemma_step_advances(b, i, fr);
    if let Step::Next(fr2, m) = step(b, i, fr) {
        lemma_parse_from_ascending(b, m, fr2);
    }
}

/// The dictionary of a document that parses holds unique keys in ascending
/// order, as does every dictionary while it is being built.
pub proof fn lemma_parsed_keys_ascending(b: Seq<u8>, i: int)
    requires
        0 <= i <= b.len(),
    ensures
        parse_doc(b, i) matches Ok(v) ==> v is Dict && keys_ascending(v->Dict_0),
{
    lemma_parse_from_ascending(b, i, seq![Frame::Dict(Seq::empty())]);
}

} // verus!
