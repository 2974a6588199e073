//! The parser: a shift-reduce loop over the tokens, with a bracket stack and a
//! stack of partly built containers, and no recursion.

use vstd::prelude::*;
use crate::lexer::{Tok, Token, TokenError, Tokenizer, lemma_lex_advances, lex};
use crate::value::{
    BObject, Value, dict_insert, dict_put, entries_model, items_model, lemma_dict_model,
    lemma_list_model,
};

verus! {

/// An opening bracket, or the kind of a closing one.
#[derive(Debug, PartialEq, Eq, Clone, Copy, Structural)]
pub enum Bracket {
    /// `{` or `}`: a dictionary.
    Brace,
    /// `(` or `)`: a list.
    Paren,
}

/// Why a document was refused.
#[derive(Debug, PartialEq)]
pub enum ErrorCode {
    /// The tokenizer failed.
    LexError(TokenError),
    /// The input ended while this bracket was open.
    UnterminatedBracket(Bracket),
    /// A closing bracket of this kind had no open bracket of its kind to close.
    MismatchedBracket(Bracket),
    /// A value in a dictionary was followed by this token instead of `=`.
    ExpectedEquals(Token),
    /// An `=` was followed by this token instead of a key.
    ExpectedKey(Token),
    /// A value was expected and this token came.
    UnexpectedToken(Token),
}

/// The model of an [`ErrorCode`].
pub enum Fault {
    Lex(TokenError),
    Unterminated(Bracket),
    Mismatched(Bracket),
    ExpectedEquals(Tok),
    ExpectedKey(Tok),
    Unexpected(Tok),
}

impl ErrorCode {
    pub open spec fn model(&self) -> Fault {
        match self {
            ErrorCode::LexError(e) => Fault::Lex(*e),
            ErrorCode::UnterminatedBracket(b) => Fault::Unterminated(*b),
            ErrorCode::MismatchedBracket(b) => Fault::Mismatched(*b),
            ErrorCode::ExpectedEquals(t) => Fault::ExpectedEquals(t.model()),
            ErrorCode::ExpectedKey(t) => Fault::ExpectedKey(t.model()),
            ErrorCode::UnexpectedToken(t) => Fault::Unexpected(t.model()),
        }
    }
}

pub open spec fn parsed(r: Result<BObject, ErrorCode>) -> Result<Value, Fault> {
    match r {
        Ok(v) => Ok(v.model()),
        Err(e) => Err(e.model()),
    }
}

/// A container under construction: the model of a value-stack frame.
pub enum Frame {
    List(Seq<Value>),
    Dict(Seq<(Seq<char>, Value)>),
}

/// The value that a frame stands for once its bracket closes.
pub open spec fn frame_value(f: Frame) -> Value {
    match f {
        Frame::List(x) => Value::List(x),
        Frame::Dict(e) => Value::Dict(e),
    }
}

/// The bracket that opened a frame.
pub open spec fn frame_bracket(f: Frame) -> Bracket {
    match f {
        Frame::List(_) => Bracket::Paren,
        Frame::Dict(_) => Bracket::Brace,
    }
}

/// One move of the parser: it ends with a result, or goes on with new frames
/// from a new position.
pub enum Step {
    Done(Result<Value, Fault>),
    Next(Seq<Frame>, int),
}

/// Hands the completed value `v` to the innermost frame: a list appends it; a
/// dictionary reads `= key` from `j` and binds the key to it.
pub open spec fn absorb(b: Seq<u8>, j: int, fr: Seq<Frame>, v: Value) -> Step {
    let last = fr.len() - 1;
    match fr[last] {
        Frame::List(x) => Step::Next(fr.update(last, Frame::List(x.push(v))), j),
        Frame::Dict(e) => match lex(b, j) {
            (Err(err), _) => Step::Done(Err(Fault::Lex(err))),
            (Ok(Tok::Equals), k) => match lex(b, k) {
                (Err(err), _) => Step::Done(Err(Fault::Lex(err))),
                (Ok(Tok::Ident(key)), m) => Step::Next(
                    fr.update(last, Frame::Dict(dict_insert(e, key, v))),
                    m,
                ),
                (Ok(Tok::Str(key)), m) => Step::Next(
                    fr.update(last, Frame::Dict(dict_insert(e, key, v))),
                    m,
                ),
                (Ok(t), _) => Step::Done(Err(Fault::ExpectedKey(t))),
            },
            (Ok(t), _) => Step::Done(Err(Fault::ExpectedEquals(t))),
        },
    }
}

/// The move made on the token at position `i`, with the frames `fr` (the
/// root dictionary first, the innermost open container last).
pub open spec fn step(b: Seq<u8>, i: int, fr: Seq<Frame>) -> Step {
    let (t, j) = lex(b, i);
    match t {
        Err(err) => Step::Done(Err(Fault::Lex(err))),
        Ok(Tok::End) => if fr.len() > 1 {
            Step::Done(Err(Fault::Unterminated(frame_bracket(fr.last()))))
        } else {
            Step::Done(Ok(frame_value(fr[0])))
        },
        Ok(Tok::LBrace) => Step::Next(fr.push(Frame::Dict(Seq::empty())), j),
        Ok(Tok::LParen) => Step::Next(fr.push(Frame::List(Seq::empty())), j),
        Ok(Tok::RBrace) => if fr.len() > 1 && fr.last() is Dict {
            absorb(b, j, fr.drop_last(), frame_value(fr.last()))
        } else {
            Step::Done(Err(Fault::Mismatched(Bracket::Brace)))
        },
        Ok(Tok::RParen) => if fr.len() > 1 && fr.last() is List {
            absorb(b, j, fr.drop_last(), frame_value(fr.last()))
        } else {
            Step::Done(Err(Fault::Mismatched(Bracket::Paren)))
        },
        Ok(Tok::Str(s)) => absorb(b, j, fr, Value::Text(s)),
        Ok(Tok::Num(n)) => absorb(b, j, fr, Value::Number(n)),
        Ok(t) => Step::Done(Err(Fault::Unexpected(t))),
    }
}

/// The result of parsing from position `i` with the frames `fr`. (Every move
/// that goes on moves forward; the last branch is never taken.)
pub open spec fn parse_from(b: Seq<u8>, i: int, fr: Seq<Frame>) -> Result<Value, Fault>
    decreases b.len() - i,
{
    match step(b, i, fr) {
        Step::Done(r) => r,
        Step::Next(fr2, m) => if i < m <= b.len() {
            parse_from(b, m, fr2)
        } else {
            Err(Fault::Lex(TokenError::UnexpectedCharacter))
        },
    }
}

/// The result of parsing the document that starts at position `i`: its root
/// is an implicit dictionary.
pub open spec fn parse_doc(b: Seq<u8>, i: int) -> Result<Value, Fault> {
    parse_from(b, i, seq![Frame::Dict(Seq::empty())])
}

/// A move that goes on moves forward, and stays within the input.
pub proof fn lemma_step_advances(b: Seq<u8>, i: int, fr: Seq<Frame>)
    requires
        0 <= i <= b.len(),
    ensures
        step(b, i, fr) matches Step::Next(_, m) ==> i < m <= b.len(),
{
    lemma_lex_advances(b, i);
    let j = lex(b, i).1;
    lemma_lex_advances(b, j);
    let k = lex(b, j).1;
    lemma_lex_advances(b, k);
}

/// A value-stack frame: a list or a dictionary under construction.
enum Partial {
    List(Vec<BObject>),
    Dict(Vec<(String, BObject)>),
}

impl Partial {
    spec fn model(&self) -> Frame {
        match self {
            Partial::List(x) => Frame::List(items_model(x@)),
            Partial::Dict(e) => Frame::Dict(entries_model(e@)),
        }
    }

    /// The value that this frame becomes when its bracket closes.
    fn close(self) -> (v: BObject)
        ensures
            v.model() == frame_value(self.model()),
    {
        match self {
            Partial::List(x) => {
                proof {
                    lemma_list_model(x);
                }
                BObject::List(x)
            },
            Partial::Dict(e) => {
                proof {
                    lemma_dict_model(e);
                }
                BObject::Dictionary(e)
            },
        }
    }
}

spec fn frames_model(fs: Seq<Partial>) -> Seq<Frame> {
    Seq::new(fs.len(), |k: int| fs[k].model())
}

/// The bracket stack agrees with the frames: one bracket for each frame above
/// the root, which is a dictionary.
spec fn stacks_agree(brackets: Seq<Bracket>, frames: Seq<Partial>) -> bool {
    &&& frames.len() == brackets.len() + 1
    &&& frames[0] is Dict
    &&& forall|k: int|
        0 <= k < brackets.len() ==> (brackets[k] == Bracket::Brace) == (frames[k + 1] is Dict)
}

/// Parses a document from a tokenizer.
pub struct Parser {
    lexer: Tokenizer,
}

impl Parser {
    pub closed spec fn tokenizer(&self) -> Tokenizer {
        self.lexer
    }

    pub fn new(lexer: Tokenizer) -> (p: Parser)
        ensures
            p.tokenizer() == lexer,
    {
        Parser { lexer }
    }

    /// Reads the next token; a tokenizer error becomes a parse error.
    fn shift(&mut self) -> (r: Result<Token, ErrorCode>)
        requires
            0 <= old(self).tokenizer().cursor() <= old(self).tokenizer().input().len(),
        ensures
            final(self).tokenizer().input() == old(self).tokenizer().input(),
            0 <= final(self).tokenizer().cursor() <= final(self).tokenizer().input().len(),
            final(self).tokenizer().cursor() == lex(
                old(self).tokenizer().input(),
                old(self).tokenizer().cursor(),
            ).1,
            match lex(old(self).tokenizer().input(), old(self).tokenizer().cursor()).0 {
                Ok(t) => r matches Ok(tok) && tok.model() == t,
                Err(e) => r == Err::<Token, ErrorCode>(ErrorCode::LexError(e)),
            },
    {
        match self.lexer.token() {
            Ok(t) => Ok(t),
            Err(e) => Err(ErrorCode::LexError(e)),
        }
    }

    /// Parses the document from the tokenizer's cursor to the end of its input.
    pub fn parse(&mut self) -> (r: Result<BObject, ErrorCode>)
        requires
            0 <= old(self).tokenizer().cursor() <= old(self).tokenizer().input().len(),
        ensures
            parsed(r) == parse_doc(old(self).tokenizer().input(), old(self).tokenizer().cursor()),
    {
        let ghost b = self.lexer.input();
        let ghost goal = parse_doc(b, self.lexer.cursor());
        let mut brackets: Vec<Bracket> = Vec::new();
        let mut frames: Vec<Partial> = Vec::new();
        frames.push(Partial::Dict(Vec::new()));
        proof {
            assert(entries_model(Seq::empty()) =~= Seq::<(Seq<char>, Value)>::empty());
            assert(frames_model(frames@) =~= seq![Frame::Dict(Seq::empty())]);
        }
        loop
            invariant
                b == old(self).tokenizer().input(),
                goal == parse_doc(b, old(self).tokenizer().cursor()),
                self.lexer.input() == b,
                0 <= self.lexer.cursor() <= b.len(),
                stacks_agree(brackets@, frames@),
                goal == parse_from(b, self.lexer.cursor(), frames_model(frames@)),
            decreases b.len() - self.lexer.cursor(),
        {
            let ghost i = self.lexer.cursor();
            let ghost fr = frames_model(frames@);
            proof {
                lemma_step_advances(b, i, fr);
                lemma_lex_advances(b, i);
            }
            let tok = self.shift()?;
            let ghost j = self.lexer.cursor();
            let value = match tok {
                Token::EndOfInput => {
                    let n = brackets.len();
                    if n > 0 {
                        return Err(ErrorCode::UnterminatedBracket(brackets[n - 1]));
                    }
                    let root = frames.pop().unwrap();
                    return Ok(root.close());
                },
                Token::LBrace => {
                    brackets.push(Bracket::Brace);
                    frames.push(Partial::Dict(Vec::new()));
                    proof {
                        assert(entries_model(Seq::empty()) =~= Seq::<(Seq<char>, Value)>::empty());
                        assert(frames_model(frames@) =~= fr.push(Frame::Dict(Seq::empty())));
                    }
                    continue ;
                },
                Token::LParen => {
                    brackets.push(Bracket::Paren);
                    frames.push(Partial::List(Vec::new()));
                    proof {
                        assert(items_model(Seq::empty()) =~= Seq::<Value>::empty());
                        assert(frames_model(frames@) =~= fr.push(Frame::List(Seq::empty())));
                    }
                    continue ;
                },
                Token::RBrace => {
                    let n = brackets.len();
                    if n == 0 || brackets[n - 1] != Bracket::Brace {
                        return Err(ErrorCode::MismatchedBracket(Bracket::Brace));
                    }
                    brackets.pop();
                    let top = frames.pop().unwrap();
                    proof {
                        assert(frames_model(frames@) =~= fr.drop_last());
                    }
                    top.close()
                },
                Token::RParen => {
                    let n = brackets.len();
                    if n == 0 || brackets[n - 1] != Bracket::Paren {
                        return Err(ErrorCode::MismatchedBracket(Bracket::Paren));
                    }
                    brackets.pop();
                    let top = frames.pop().unwrap();
                    proof {
                        assert(frames_model(frames@) =~= fr.drop_last());
                    }
                    top.close()
                },
                Token::StringLiteral(s) => BObject::String(s),
                Token::NumberLiteral(d) => BObject::Number(d),
                Token::Equals => return Err(ErrorCode::UnexpectedToken(Token::Equals)),
                Token::Identifier(s) => return Err(ErrorCode::UnexpectedToken(Token::Identifier(s))),
            };
            let ghost fr1 = frames_model(frames@);
            let ghost last = fr1.len() - 1;
            let ghost vm = value.model();
            proof {
                assert(step(b, i, fr) == absorb(b, j, fr1, vm));
            }
            let top = frames.pop().unwrap();
            match top {
                Partial::List(mut x) => {
                    let ghost x0 = x@;
                    x.push(value);
                    proof {
                        assert(items_model(x@) =~= items_model(x0).push(vm));
                    }
                    frames.push(Partial::List(x));
                },
                Partial::Dict(mut e) => {
                    match self.shift()? {
                        Token::Equals => {},
                        t => return Err(ErrorCode::ExpectedEquals(t)),
                    }
                    let key = match self.shift()? {
                        Token::Identifier(k) => k,
                        Token::StringLiteral(k) => k,
                        t => return Err(ErrorCode::ExpectedKey(t)),
                    };
                    dict_put(&mut e, key, value);
                    frames.push(Partial::Dict(e));
                },
            }
            proof {
                assert(frames_model(frames@) =~= step(b, i, fr)->Next_0);
            }
        }
    }
}

/// Parses a whole document.
pub fn parse(src: Vec<u8>) -> (r: Result<BObject, ErrorCode>)
    ensures
        parsed(r) == parse_doc(src@, 0),
{
    let mut p = Parser::new(Tokenizer::new(src));
    p.parse()
}

} // verus!
