//! How the guard reads a token: its class and its name, and how it counts
//! parentheses.

use m_calc::{Oper, Token};
use vstd::prelude::*;

verus! {

/// What a token is, as far as the shape of an expression goes.
#[derive(Clone, Copy, Debug, PartialEq, Eq, Structural)]
pub enum Class {
    /// A number.
    Number,
    /// An identifier: a variable, or the name of a function.
    Name,
    /// `(`
    Open,
    /// `)`
    Close,
    /// `-`
    Minus,
    /// `=`
    Assign,
    /// `;`
    Break,
    /// `\`, which announces a function.
    Call,
    /// Any other operator: `^ * / % +`.
    Infix,
    /// A function already parsed, or the empty token: never made by the
    /// tokenizer.
    Parsed,
}

/// The class of a token.
pub open spec fn class_of(token: Token) -> Class {
    match token {
        Token::Num(_) => Class::Number,
        Token::Id(_) => Class::Name,
        Token::Op(Oper::LPar) => Class::Open,
        Token::Op(Oper::RPar) => Class::Close,
        Token::Op(Oper::Sub) => Class::Minus,
        Token::Op(Oper::Eql) => Class::Assign,
        Token::Op(Oper::LnBr) => Class::Break,
        Token::Op(Oper::FnStart) => Class::Call,
        Token::Op(_) => Class::Infix,
        Token::Fn(_) => Class::Parsed,
        Token::Empty => Class::Parsed,
    }
}

/// The name that an identifier carries; the empty name for any other token.
pub open spec fn name_of(token: Token) -> Seq<char> {
    match token {
        Token::Id(name) => name@,
        _ => Seq::empty(),
    }
}

/// Computes the class of a token.
pub fn classify(token: &Token) -> (class: Class)
    ensures
        class == class_of(*token),
{
    match token {
        Token::Num(_) => Class::Number,
        Token::Id(_) => Class::Name,
        Token::Op(Oper::LPar) => Class::Open,
        Token::Op(Oper::RPar) => Class::Close,
        Token::Op(Oper::Sub) => Class::Minus,
        Token::Op(Oper::Eql) => Class::Assign,
        Token::Op(Oper::LnBr) => Class::Break,
        Token::Op(Oper::FnStart) => Class::Call,
        Token::Op(_) => Class::Infix,
        Token::Fn(_) => Class::Parsed,
        Token::Empty => Class::Parsed,
    }
}

/// How many parentheses stand open after the first `n` tokens of a list. A
/// `)` closes the last one that stands open; where none does, it closes
/// nothing.
pub open spec fn open_after(list: Seq<Token>, n: int) -> nat
    decreases n,
{
    if n <= 0 {
        0
    } else {
        let before = open_after(list, n - 1);
        match class_of(list[n - 1]) {
            Class::Open => before + 1,
            Class::Close => if before > 0 {
                (before - 1) as nat
            } else {
                0
            },
            _ => before,
        }
    }
}

/// No parenthesis of the list is left open.
pub open spec fn closed(list: Seq<Token>) -> bool {
    open_after(list, list.len() as int) == 0
}

/// Decides whether no parenthesis of a list is left open.
pub fn check_closed(list: &[Token]) -> (ok: bool)
    ensures
        ok == closed(list@),
{
    let mut depth: usize = 0;
    let mut i: usize = 0;
    while i < list.len()
        invariant
            i <= list@.len(),
            depth == open_after(list@, i as int),
            depth <= i,
        decreases list@.len() - i,
    {
        match classify(&list[i]) {
            Class::Open => {
                depth = depth + 1;
            },
            Class::Close => {
                if depth > 0 {
                    depth = depth - 1;
                }
            },
            _ => {},
        }
        i = i + 1;
    }
    depth == 0
}

} // verus!
