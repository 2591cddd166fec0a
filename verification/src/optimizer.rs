//! The peephole optimization pass: adjacent `Move` instructions fold into
//! one `Move` with the summed delta, adjacent `IncValue` instructions fold
//! likewise, and loop bodies are rewritten recursively. A folded delta of
//! zero is kept in place; nothing is ever removed or reordered.

use vstd::prelude::*;

use crate::token::{
    clone_token, lemma_view_toks_len, view_tok, view_toks, Prog, Token,
};

verus! {

/// Magnitude of a delta.
pub open spec fn mag(v: int) -> nat {
    if v < 0 {
        (-v) as nat
    } else {
        v as nat
    }
}

/// Total magnitude carried by one instruction, loop bodies included.
pub open spec fn tok_abs(p: Prog) -> nat
    decreases p,
{
    match p {
        Prog::Move(v) => mag(v),
        Prog::IncValue(v) => mag(v),
        Prog::Loop(b) => sum_abs(b),
        _ => 0,
    }
}

/// Total magnitude carried by an instruction sequence. Folding can sum
/// adjacent deltas, so this bounds every delta the optimizer ever forms.
pub open spec fn sum_abs(ts: Seq<Prog>) -> nat
    decreases ts,
{
    if ts.len() == 0 {
        0
    } else {
        sum_abs(ts.drop_last()) + tok_abs(ts.last())
    }
}

/// One step of the scan: append `p` to the output built so far, merging it
/// into the last appended instruction when both are `Move` or both are
/// `IncValue`.
pub open spec fn opt_push(acc: Seq<Prog>, p: Prog) -> Seq<Prog> {
    if acc.len() == 0 {
        acc.push(p)
    } else {
        match (acc.last(), p) {
            (Prog::IncValue(a), Prog::IncValue(b)) => acc.drop_last().push(
                Prog::IncValue(a + b),
            ),
            (Prog::Move(a), Prog::Move(b)) => acc.drop_last().push(Prog::Move(a + b)),
            _ => acc.push(p),
        }
    }
}

/// The optimized form of one instruction: a loop is optimized inside,
/// anything else is kept as it is.
pub open spec fn opt_tok(p: Prog) -> Prog
    decreases p,
{
    match p {
        Prog::Loop(b) => Prog::Loop(opt_spec(b)),
        _ => p,
    }
}

/// The optimized form of an instruction sequence: a left-to-right scan
/// that folds each instruction into the output with [`opt_push`].
pub open spec fn opt_spec(ts: Seq<Prog>) -> Seq<Prog>
    decreases ts,
{
    if ts.len() == 0 {
        Seq::empty()
    } else {
        opt_push(opt_spec(ts.drop_last()), opt_tok(ts.last()))
    }
}

proof fn lemma_sum_abs_push(ts: Seq<Prog>, p: Prog)
    ensures
        sum_abs(ts.push(p)) == sum_abs(ts) + tok_abs(p),
{
    assert(ts.push(p).drop_last() =~= ts);
}

proof fn lemma_last_abs(ts: Seq<Prog>)
    requires
        ts.len() > 0,
    ensures
        tok_abs(ts.last()) <= sum_abs(ts),
{
}

/// A prefix never carries more magnitude than the whole sequence.
proof fn lemma_sum_abs_take(ts: Seq<Token>, i: int)
    requires
        0 <= i <= ts.len(),
    ensures
        sum_abs(view_toks(ts.take(i))) <= sum_abs(view_toks(ts)),
    decreases ts,
{
    if i == ts.len() {
        assert(ts.take(i) =~= ts);
    } else {
        assert(ts.take(i) =~= ts.drop_last().take(i));
        lemma_sum_abs_take(ts.drop_last(), i);
        lemma_sum_abs_push(view_toks(ts.drop_last()), view_tok(ts.last()));
    }
}

proof fn lemma_opt_push_sum(acc: Seq<Prog>, p: Prog)
    ensures
        sum_abs(opt_push(acc, p)) <= sum_abs(acc) + tok_abs(p),
{
    if acc.len() > 0 {
        match (acc.last(), p) {
            (Prog::IncValue(a), Prog::IncValue(b)) => {
                lemma_sum_abs_push(acc.drop_last(), Prog::IncValue(a + b));
                assert(sum_abs(acc) == sum_abs(acc.drop_last()) + tok_abs(acc.last()));
                assert(mag(a + b) <= mag(a) + mag(b));
            },
            (Prog::Move(a), Prog::Move(b)) => {
                lemma_sum_abs_push(acc.drop_last(), Prog::Move(a + b));
                assert(sum_abs(acc) == sum_abs(acc.drop_last()) + tok_abs(acc.last()));
                assert(mag(a + b) <= mag(a) + mag(b));
            },
            _ => {
                lemma_sum_abs_push(acc, p);
            },
        }
    } else {
        lemma_sum_abs_push(acc, p);
    }
}

/// Folding never increases the magnitude carried by the sequence.
proof fn lemma_opt_tok_sum(p: Prog)
    ensures
        tok_abs(opt_tok(p)) <= tok_abs(p),
    decreases p,
{
    match p {
        Prog::Loop(b) => {
            lemma_opt_spec_sum(b);
        },
        _ => {},
    }
}

proof fn lemma_opt_spec_sum(ts: Seq<Prog>)
    ensures
        sum_abs(opt_spec(ts)) <= sum_abs(ts),
    decreases ts,
{
    if ts.len() > 0 {
        lemma_opt_spec_sum(ts.drop_last());
        lemma_opt_tok_sum(ts.last());
        lemma_opt_push_sum(opt_spec(ts.drop_last()), opt_tok(ts.last()));
    }
}

/// Whether two instructions fold into each other when adjacent.
pub open spec fn same_kind(a: Prog, b: Prog) -> bool {
    (a is Move && b is Move) || (a is IncValue && b is IncValue)
}

/// A sequence in which no further folding is possible: no two adjacent
/// instructions are of the same arithmetic kind, and loop bodies are in
/// the same state.
pub open spec fn folded(ts: Seq<Prog>) -> bool
    decreases ts,
{
    if ts.len() == 0 {
        true
    } else {
        folded(ts.drop_last()) && folded_tok(ts.last()) && (ts.len() >= 2
            ==> !same_kind(ts[ts.len() - 2], ts.last()))
    }
}

pub open spec fn folded_tok(p: Prog) -> bool
    decreases p,
{
    match p {
        Prog::Loop(b) => folded(b),
        _ => true,
    }
}

proof fn lemma_opt_push_folded(acc: Seq<Prog>, p: Prog)
    requires
        folded(acc),
        folded_tok(p),
    ensures
        folded(opt_push(acc, p)),
{
    if acc.len() == 0 {
        assert(acc.push(p).drop_last() =~= acc);
        assert(folded(acc.push(p)));
    } else {
        match (acc.last(), p) {
            (Prog::IncValue(a), Prog::IncValue(b)) => {
                let acc2 = acc.drop_last().push(Prog::IncValue(a + b));
                assert(acc2.drop_last() =~= acc.drop_last());
                assert(acc2.last() == Prog::IncValue(a + b));
                assert(folded_tok(acc2.last()));
                if acc.len() >= 2 {
                    assert(acc2[acc2.len() - 2] == acc[acc.len() - 2]);
                    assert(!same_kind(acc[acc.len() - 2], acc.last()));
                }
                assert(folded(acc2));
            },
            (Prog::Move(a), Prog::Move(b)) => {
                let acc2 = acc.drop_last().push(Prog::Move(a + b));
                assert(acc2.drop_last() =~= acc.drop_last());
                assert(acc2.last() == Prog::Move(a + b));
                assert(folded_tok(acc2.last()));
                if acc.len() >= 2 {
                    assert(acc2[acc2.len() - 2] == acc[acc.len() - 2]);
                    assert(!same_kind(acc[acc.len() - 2], acc.last()));
                }
                assert(folded(acc2));
            },
            _ => {
                assert(acc.push(p).drop_last() =~= acc);
                assert(acc.push(p)[acc.len() - 1] == acc.last());
                assert(folded(acc.push(p)));
            },
        }
    }
}

proof fn lemma_opt_spec_folded(ts: Seq<Prog>)
    ensures
        folded(opt_spec(ts)),
    decreases ts,
{
    if ts.len() > 0 {
        lemma_opt_spec_folded(ts.drop_last());
        lemma_opt_tok_folded(ts.last());
        lemma_opt_push_folded(opt_spec(ts.drop_last()), opt_tok(ts.last()));
    }
}

proof fn lemma_opt_tok_folded(p: Prog)
    ensures
        folded_tok(opt_tok(p)),
    decreases p,
{
    match p {
        Prog::Loop(b) => {
            lemma_opt_spec_folded(b);
        },
        _ => {},
    }
}

proof fn lemma_folded_opt_id(ts: Seq<Prog>)
    requires
        folded(ts),
    ensures
        opt_spec(ts) == ts,
    decreases ts,
{
    if ts.len() > 0 {
        lemma_folded_opt_id(ts.drop_last());
        lemma_folded_tok_opt_id(ts.last());
        if ts.len() >= 2 {
            assert(ts.drop_last().last() == ts[ts.len() - 2]);
        }
        assert(ts.drop_last().push(ts.last()) =~= ts);
    } else {
        assert(opt_spec(ts) =~= ts);
    }
}

proof fn lemma_folded_tok_opt_id(p: Prog)
    requires
        folded_tok(p),
    ensures
        opt_tok(p) == p,
    decreases p,
{
    match p {
        Prog::Loop(b) => {
            lemma_folded_opt_id(b);
        },
        _ => {},
    }
}

/// Optimization is idempotent: a second pass over an already-optimized
/// sequence folds nothing further and returns it unchanged.
pub proof fn lemma_optimize_idempotent(ts: Seq<Prog>)
    ensures
        opt_spec(opt_spec(ts)) == opt_spec(ts),
{
    lemma_opt_spec_folded(ts);
    lemma_folded_opt_id(opt_spec(ts));
}

/// What one instruction contributes to the shape of a sequence: arithmetic
/// instructions contribute nothing, the rest keep their place.
pub open spec fn skel_one(p: Prog) -> Seq<Prog>
    decreases p,
{
    match p {
        Prog::Output => seq![Prog::Output],
        Prog::Input => seq![Prog::Input],
        Prog::Loop(b) => seq![Prog::Loop(skeleton(b))],
        _ => Seq::empty(),
    }
}

/// The shape of a sequence: the `Output`, `Input` and `Loop` instructions
/// in their relative order, with loop bodies reduced to their own shape.
pub open spec fn skeleton(ts: Seq<Prog>) -> Seq<Prog>
    decreases ts,
{
    if ts.len() == 0 {
        Seq::empty()
    } else {
        skeleton(ts.drop_last()) + skel_one(ts.last())
    }
}

proof fn lemma_skeleton_push(s: Seq<Prog>, p: Prog)
    ensures
        skeleton(s.push(p)) == skeleton(s) + skel_one(p),
{
    assert(s.push(p).drop_last() =~= s);
}

proof fn lemma_opt_push_skeleton(acc: Seq<Prog>, p: Prog)
    ensures
        skeleton(opt_push(acc, p)) == skeleton(acc) + skel_one(p),
{
    if acc.len() == 0 {
        lemma_skeleton_push(acc, p);
    } else {
        match (acc.last(), p) {
            (Prog::IncValue(a), Prog::IncValue(b)) => {
                lemma_skeleton_push(acc.drop_last(), Prog::IncValue(a + b));
                assert(acc.drop_last().push(acc.last()) =~= acc);
                lemma_skeleton_push(acc.drop_last(), acc.last());
                assert(skeleton(acc) + skel_one(p) =~= skeleton(acc.drop_last()));
            },
            (Prog::Move(a), Prog::Move(b)) => {
                lemma_skeleton_push(acc.drop_last(), Prog::Move(a + b));
                assert(acc.drop_last().push(acc.last()) =~= acc);
                lemma_skeleton_push(acc.drop_last(), acc.last());
                assert(skeleton(acc) + skel_one(p) =~= skeleton(acc.drop_last()));
            },
            _ => {
                lemma_skeleton_push(acc, p);
            },
        }
    }
}

/// Optimization never changes the relative order or count of `Output`,
/// `Input` and `Loop` instructions, at any nesting level: it only merges
/// adjacent arithmetic runs.
pub proof fn lemma_optimize_skeleton(ts: Seq<Prog>)
    ensures
        skeleton(opt_spec(ts)) == skeleton(ts),
    decreases ts,
{
    if ts.len() > 0 {
        lemma_optimize_skeleton(ts.drop_last());
        lemma_opt_push_skeleton(opt_spec(ts.drop_last()), opt_tok(ts.last()));
        lemma_skel_one_opt(ts.last());
    }
}

proof fn lemma_skel_one_opt(p: Prog)
    ensures
        skel_one(opt_tok(p)) == skel_one(p),
    decreases p,
{
    match p {
        Prog::Loop(b) => {
            lemma_optimize_skeleton(b);
        },
        _ => {},
    }
}

/// The folding pass. The bound in `requires` is what the machine forces:
/// a folded run of deltas is stored in a single `isize`, so the summed
/// magnitudes must fit in it.
pub fn optimize(tokens: Vec<Token>) -> (r: Vec<Token>)
    requires
        sum_abs(view_toks(tokens@)) <= isize::MAX,
    ensures
        view_toks(r@) == opt_spec(view_toks(tokens@)),
{
    optimize_ref(&tokens)
}

fn optimize_ref(tokens: &Vec<Token>) -> (r: Vec<Token>)
    requires
        sum_abs(view_toks(tokens@)) <= isize::MAX,
    ensures
        view_toks(r@) == opt_spec(view_toks(tokens@)),
    decreases tokens,
{
    let mut optimized: Vec<Token> = Vec::new();
    let mut i: usize = 0;
    while i < tokens.len()
        invariant
            i <= tokens@.len(),
            sum_abs(view_toks(tokens@)) <= isize::MAX,
            view_toks(optimized@) == opt_spec(view_toks(tokens@.take(i as int))),
        decreases tokens@.len() - i,
    {
        let ghost s_i = view_toks(tokens@.take(i as int));
        let ghost p = view_tok(tokens@[i as int]);
        let ghost acc = view_toks(optimized@);
        proof {
            // One more consumed instruction extends the prefix by `p`.
            assert(tokens@.take(i as int + 1).drop_last() =~= tokens@.take(i as int));
            assert(tokens@.take(i as int + 1).last() == tokens@[i as int]);
            assert(view_toks(tokens@.take(i as int + 1)) == s_i.push(p));
            assert(s_i.push(p).drop_last() =~= s_i);
            assert(opt_spec(view_toks(tokens@.take(i as int + 1)))
                == opt_push(opt_spec(s_i), opt_tok(p)));
            // The magnitudes in play stay within the machine bound.
            lemma_sum_abs_take(tokens@, i as int + 1);
            lemma_sum_abs_push(s_i, p);
            lemma_opt_spec_sum(s_i);
            assert(sum_abs(acc) + tok_abs(p) <= isize::MAX);
            lemma_view_toks_len(optimized@);
        }
        let t = &tokens[i];
        match t {
            Token::Loop(body) => {
                proof {
                    assert(decreases_to!(tokens => body));
                }
                let ob = optimize_ref(body);
                let ghost prev = optimized@;
                optimized.push(Token::Loop(ob));
                proof {
                    assert(optimized@.drop_last() =~= prev);
                    assert(view_toks(optimized@) == acc.push(view_tok(Token::Loop(ob))));
                    assert(acc.len() > 0 ==> !(acc.last() is Move && opt_tok(p) is Move));
                    assert(view_toks(optimized@) == opt_push(acc, opt_tok(p)));
                }
            },
            Token::IncValue(v) => {
                let mut merged = false;
                if optimized.len() > 0 {
                    let j = optimized.len() - 1;
                    let prior: isize = match &optimized[j] {
                        Token::IncValue(n) => {
                            merged = true;
                            *n
                        },
                        _ => 0,
                    };
                    if merged {
                        proof {
                            lemma_last_abs(acc);
                            assert(acc.last() == view_tok(optimized@.last()));
                            assert(tok_abs(acc.last()) + tok_abs(p) <= isize::MAX);
                        }
                        let ghost prev = optimized@;
                        proof {
                            assert(prev[prev.len() - 1] == prev.last());
                            assert(acc.last() == view_tok(prev.last()));
                        }
                        let _ = optimized.pop();
                        let ghost mid = optimized@;
                        optimized.push(Token::IncValue(prior + *v));
                        proof {
                            assert(mid =~= prev.drop_last());
                            assert(optimized@.drop_last() =~= mid);
                            assert(view_toks(prev).drop_last() =~= view_toks(prev.drop_last()));
                            assert(view_toks(optimized@)
                                == view_toks(prev.drop_last()).push(view_tok(optimized@.last())));
                            assert(view_toks(optimized@) == opt_push(acc, opt_tok(p)));
                        }
                    }
                }
                if !merged {
                    let c = clone_token(t);
                    let ghost prev = optimized@;
                    optimized.push(c);
                    proof {
                        assert(optimized@.drop_last() =~= prev);
                        assert(view_toks(optimized@) == opt_push(acc, opt_tok(p)));
                    }
                }
            },
            Token::Move(v) => {
                let mut merged = false;
                if optimized.len() > 0 {
                    let j = optimized.len() - 1;
                    let prior: isize = match &optimized[j] {
                        Token::Move(n) => {
                            merged = true;
                            *n
                        },
                        _ => 0,
                    };
                    if merged {
                        proof {
                            lemma_last_abs(acc);
                            assert(acc.last() == view_tok(optimized@.last()));
                            assert(tok_abs(acc.last()) + tok_abs(p) <= isize::MAX);
                        }
                        let ghost prev = optimized@;
                        proof {
                            assert(prev[prev.len() - 1] == prev.last());
                            assert(acc.last() == view_tok(prev.last()));
                        }
                        let _ = optimized.pop();
                        let ghost mid = optimized@;
                        optimized.push(Token::Move(prior + *v));
                        proof {
                            assert(mid =~= prev.drop_last());
                            assert(optimized@.drop_last() =~= mid);
                            assert(view_toks(prev).drop_last() =~= view_toks(prev.drop_last()));
                            assert(view_toks(optimized@)
                                == view_toks(prev.drop_last()).push(view_tok(optimized@.last())));
                            assert(view_toks(optimized@) == opt_push(acc, opt_tok(p)));
                        }
                    }
                }
                if !merged {
                    let c = clone_token(t);
                    let ghost prev = optimized@;
                    optimized.push(c);
                    proof {
                        assert(optimized@.drop_last() =~= prev);
                        assert(view_toks(optimized@) == opt_push(acc, opt_tok(p)));
                    }
                }
            },
            _ => {
                let c = clone_token(t);
                let ghost prev = optimized@;
                optimized.push(c);
                proof {
                    assert(optimized@.drop_last() =~= prev);
                    assert(view_toks(optimized@) == opt_push(acc, opt_tok(p)));
                }
            },
        }
        i += 1;
    }
    proof {
        assert(tokens@.take(tokens@.len() as int) =~= tokens@);
    }
    optimized
}

} // verus!
