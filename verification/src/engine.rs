//! The boundary to the `m_calc` crate: its types, and what is taken on trust
//! about its functions.

use crate::bindings::{distinct_names, Binding};
use crate::guard::{assigned_in, evaluable, kept};
use m_calc::{CalcErr, Func, Oper, Token};
use std::collections::HashMap;
use vstd::prelude::*;
use vstd::utf8::is_ascii_chars;

verus! {

/// `m_calc::Oper`, read by Verus as it is defined.
#[verifier::external_type_specification]
pub struct ExOper(Oper);

/// `m_calc::Func`, read by Verus as it is defined.
#[verifier::external_type_specification]
pub struct ExFunc(Func);

/// `m_calc::Token`, read by Verus as it is defined.
#[verifier::external_type_specification]
pub struct ExToken(Token);

/// `m_calc::CalcErr`, read by Verus as it is defined.
#[verifier::external_type_specification]
pub struct ExCalcErr(CalcErr);

/// What `m_calc::tokenize` returns for a text: the tokens, or the message of
/// the error.
pub uninterp spec fn tokenized(text: Seq<char>) -> Result<Seq<Token>, Seq<char>>;

/// What `m_calc::Token::display` returns for a token.
pub uninterp spec fn shown(token: Token) -> Seq<char>;

/// The character that stands for an operator.
pub open spec fn symbol(oper: Oper) -> char {
    match oper {
        Oper::LPar => '(',
        Oper::RPar => ')',
        Oper::Exp => '^',
        Oper::Mul => '*',
        Oper::Div => '/',
        Oper::Mod => '%',
        Oper::Add => '+',
        Oper::Sub => '-',
        Oper::Eql => '=',
        Oper::LnBr => ';',
        Oper::FnStart => '\\',
    }
}

/// The text of a token list: the texts of its tokens, one after the other.
pub open spec fn rendered(tokens: Seq<Token>) -> Seq<char>
    decreases tokens.len(),
{
    if tokens.len() == 0 {
        Seq::empty()
    } else {
        rendered(tokens.drop_last()) + shown(tokens.last())
    }
}

/// The longest text that the tokenizer can take: it keeps byte offsets in
/// 32 bits.
pub const LONGEST: usize = 0x7fff_ffff;

/// The tokenizer can read the text: it is ASCII, and not longer than
/// [`LONGEST`].
pub open spec fn legible(text: Seq<char>) -> bool {
    is_ascii_chars(text) && text.len() <= LONGEST
}

/// `m_calc::tokenize`, on a text that it can read.
///
/// The function walks the text by byte offsets and by character counts at
/// once, and slices one byte past the start of a token's last character; both
/// are sound only where every character is one byte long. It keeps the
/// offsets as `i32`. So texts with other characters and longer texts are left
/// out. On the others it returns for every input, and what it returns depends
/// on the text alone.
pub assume_specification[ m_calc::calc::tokenize ](expr: &str) -> (r: Result<Vec<Token>, CalcErr>)
    requires
        legible(expr@),
    ensures
        match r {
            Ok(tokens) => tokenized(expr@) == Ok::<Seq<Token>, Seq<char>>(tokens@),
            Err(error) => tokenized(expr@) == Err::<Seq<Token>, Seq<char>>(error.0@),
        },
;

/// `m_calc::Token::display`: an operator is shown as its symbol, an
/// identifier as its name and the empty token as nothing; the text of a
/// number or of a function is known by name only.
pub assume_specification[ Token::display ](token: &Token) -> (r: String)
    ensures
        r@ == shown(*token),
        match *token {
            Token::Op(oper) => r@ == seq![symbol(oper)],
            Token::Id(name) => r@ == name@,
            Token::Empty => r@ == Seq::<char>::empty(),
            _ => true,
        },
;

/// `m_calc::display_expr`: the texts of the tokens, joined.
pub assume_specification[ m_calc::calc::display_expr ](tokens: &[Token]) -> (r: String)
    ensures
        r@ == rendered(tokens@),
;

/// `m_calc::calculate`, on a token list that the guard admits, with the
/// bindings as its context; returns its result and the context it leaves.
///
/// The evaluator changes its context in one place only, where it takes the
/// statements of the list one by one and finds an assignment; it unbinds
/// nothing; and it returns with an error at the first statement that it
/// cannot take. So every name stays bound, a name that the list does not
/// assign to keeps its value, and a new name is one that the list assigns
/// to. Where the result is no error, every assignment was made, and a name
/// holds what the last assignment to it gave: the tokens of the value as
/// they stand where they hold an identifier, and else the one token that the
/// value came to. The context is a map, so its names are distinct.
///
/// Nothing is said of the result itself, nor of the token that a value came
/// to: the evaluator computes them with floating-point functions whose
/// precision the standard library leaves to the platform.
///
/// On a list that the guard does not admit, the evaluator may index outside
/// its token list or substitute without end; [`crate::guard`] says where, and
/// why it does neither on the lists that are admitted.
#[verifier::external_body]
pub(crate) fn calculate(tokens: &Vec<Token>, bindings: &Vec<Binding>) -> (r: (
    Result<Token, CalcErr>,
    Vec<Binding>,
))
    requires
        distinct_names(bindings@),
        evaluable(tokens@, bindings@),
    ensures
        distinct_names(r.1@),
        kept(bindings@, tokens@, r.1@),
        r.0 is Ok ==> assigned_in(tokens@, r.1@),
{
    let mut context: HashMap<String, Vec<Token>> =
        bindings.iter().map(|b| (b.name.clone(), b.value.clone())).collect();
    let result = m_calc::calculate(tokens, &mut context);
    (result, context.into_iter().map(|(name, value)| Binding { name, value }).collect())
}

} // verus!
