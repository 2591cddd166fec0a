//! The instruction tree and its mathematical model.

use vstd::prelude::*;

verus! {

/// One instruction of the language. A `Loop` owns its body, so a compiled
/// program is an ordered, non-cyclic tree of instructions.
#[derive(Debug, PartialEq)]
pub enum Token {
    /// Emit the current cell.
    Output,
    /// Read one byte into the current cell.
    Input,
    /// Shift the tape pointer by the given delta, wrapping around the tape.
    Move(isize),
    /// Add the given delta to the current cell, wrapping modulo 256.
    IncValue(isize),
    /// Repeat the body while the current cell is nonzero.
    Loop(Vec<Token>),
}

/// The mathematical shape of an instruction: deltas as unbounded integers
/// and loop bodies as sequences. Contracts speak of programs through this
/// model.
pub ghost enum Prog {
    Output,
    Input,
    Move(int),
    IncValue(int),
    Loop(Seq<Prog>),
}

/// The model of a single instruction.
pub open spec fn view_tok(t: Token) -> Prog
    decreases t,
{
    match t {
        Token::Output => Prog::Output,
        Token::Input => Prog::Input,
        Token::Move(v) => Prog::Move(v as int),
        Token::IncValue(v) => Prog::IncValue(v as int),
        Token::Loop(body) => Prog::Loop(view_toks(body@)),
    }
}

/// The model of an instruction sequence, element by element.
pub open spec fn view_toks(ts: Seq<Token>) -> Seq<Prog>
    decreases ts,
{
    if ts.len() == 0 {
        Seq::empty()
    } else {
        view_toks(ts.drop_last()).push(view_tok(ts.last()))
    }
}

pub proof fn lemma_view_toks_len(ts: Seq<Token>)
    ensures
        view_toks(ts).len() == ts.len(),
    decreases ts,
{
    if ts.len() > 0 {
        lemma_view_toks_len(ts.drop_last());
    }
}

pub proof fn lemma_view_toks_index(ts: Seq<Token>, i: int)
    requires
        0 <= i < ts.len(),
    ensures
        view_toks(ts).len() == ts.len(),
        view_toks(ts)[i] == view_tok(ts[i]),
    decreases ts,
{
    lemma_view_toks_len(ts);
    if i < ts.len() - 1 {
        lemma_view_toks_index(ts.drop_last(), i);
    }
}

pub proof fn lemma_view_toks_add(a: Seq<Token>, b: Seq<Token>)
    ensures
        view_toks(a + b) == view_toks(a) + view_toks(b),
    decreases b,
{
    if b.len() == 0 {
        assert(a + b =~= a);
        assert(view_toks(a) + view_toks(b) =~= view_toks(a));
    } else {
        lemma_view_toks_add(a, b.drop_last());
        assert((a + b).drop_last() =~= a + b.drop_last());
        assert((a + b).last() == b.last());
        assert(view_toks(a) + view_toks(b)
            =~= (view_toks(a) + view_toks(b.drop_last())).push(view_tok(b.last())));
    }
}

/// An exact copy of one instruction, including nested loop bodies.
pub fn clone_token(t: &Token) -> (r: Token)
    ensures
        view_tok(r) == view_tok(*t),
    decreases t,
{
    match t {
        Token::Output => Token::Output,
        Token::Input => Token::Input,
        Token::Move(v) => Token::Move(*v),
        Token::IncValue(v) => Token::IncValue(*v),
        Token::Loop(body) => Token::Loop(clone_tokens(body)),
    }
}

/// An exact copy of an instruction sequence.
pub fn clone_tokens(ts: &Vec<Token>) -> (r: Vec<Token>)
    ensures
        view_toks(r@) == view_toks(ts@),
        r@.len() == ts@.len(),
    decreases ts,
{
    let mut r: Vec<Token> = Vec::new();
    let mut i: usize = 0;
    while i < ts.len()
        invariant
            i <= ts@.len(),
            r@.len() == i,
            view_toks(r@) == view_toks(ts@.take(i as int)),
        decreases ts@.len() - i,
    {
        let ghost prev = r@;
        proof {
            assert(decreases_to!(ts => ts@[i as int]));
        }
        let c = clone_token(&ts[i]);
        r.push(c);
        proof {
            assert(r@.drop_last() =~= prev);
            assert(ts@.take(i as int + 1).drop_last() =~= ts@.take(i as int));
            assert(ts@.take(i as int + 1).last() == ts@[i as int]);
        }
        i += 1;
    }
    proof {
        assert(ts@.take(ts@.len() as int) =~= ts@);
    }
    r
}

} // verus!
