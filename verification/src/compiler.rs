//! The compiler: a single left-to-right scan that turns source bytes into
//! an instruction tree, validating bracket balance and tracking line and
//! within-line position for diagnostics.
//!
//! Its whole behaviour is pinned by three spec functions: [`scan`] decides
//! which bracket fault a source has, if any, and where; [`flatten`] maps a
//! tree back to the instruction bytes it stands for; [`line_at`] and
//! [`col_at`] give the 1-based position of a byte. Compilation succeeds
//! exactly on sources with balanced brackets, and the tree it returns
//! flattens back to the source's instruction bytes.

use vstd::prelude::*;

use crate::token::{view_tok, view_toks, Prog, Token};

verus! {

/// A bracket fault, with the 1-based line and within-line position of the
/// offending byte.
#[derive(Debug, PartialEq, Eq, Structural)]
pub enum CompileError {
    /// A `]` was read with no `[` open at its nesting level; the position
    /// is that of the `]` itself.
    ClosedNonexistentLoop { line: u32, position: u32 },
    /// The input ended with a `[` still open; the position is that of the
    /// innermost `[` never closed.
    OpenedNonexistentLoop { line: u32, position: u32 },
}

/// The eight recognized instruction bytes; everything else is a comment.
pub open spec fn is_instr(b: u8) -> bool {
    b == 62 || b == 60 || b == 43 || b == 45 || b == 46 || b == 44 || b == 91 || b == 93
}

/// The bracket scan: reading `s` left to right, either the positions of
/// the `[`s still open at the end (oldest first), or the position of the
/// first `]` that closes nothing.
pub open spec fn scan(s: Seq<u8>) -> Result<Seq<int>, int>
    decreases s,
{
    if s.len() == 0 {
        Ok(Seq::empty())
    } else {
        match scan(s.drop_last()) {
            Err(i) => Err(i),
            Ok(os) => {
                let j = s.len() - 1;
                if s[j] == 91 {
                    Ok(os.push(j))
                } else if s[j] == 93 {
                    if os.len() == 0 {
                        Err(j)
                    } else {
                        Ok(os.drop_last())
                    }
                } else {
                    Ok(os)
                }
            },
        }
    }
}

pub open spec fn scan_is_ok(s: Seq<u8>) -> bool {
    scan(s) is Ok
}

/// The still-open `[` positions after reading `s` (clean scans only).
pub open spec fn scan_os(s: Seq<u8>) -> Seq<int> {
    match scan(s) {
        Ok(os) => os,
        Err(_) => Seq::empty(),
    }
}

/// The position of the first `]` that closes nothing (faulty scans only).
pub open spec fn scan_err(s: Seq<u8>) -> int {
    match scan(s) {
        Ok(_) => 0,
        Err(i) => i,
    }
}

/// Balanced brackets: the scan is clean and nothing is left open.
pub open spec fn balanced(s: Seq<u8>) -> bool {
    scan_is_ok(s) && scan_os(s).len() == 0
}

/// The 1-based line of the byte at index `i`: one more than the newlines
/// before it.
pub open spec fn line_at(s: Seq<u8>, i: int) -> int
    decreases i,
{
    if i <= 0 {
        1
    } else if s[i - 1] == 10 {
        line_at(s, i - 1) + 1
    } else {
        line_at(s, i - 1)
    }
}

/// The 1-based position of the byte at index `i` within its line.
pub open spec fn col_at(s: Seq<u8>, i: int) -> int
    decreases i,
{
    if i <= 0 {
        1
    } else if s[i - 1] == 10 {
        1
    } else {
        col_at(s, i - 1) + 1
    }
}

/// The bracket events of `s`, oldest first: each `[` or `]` together with
/// the line and position it stands at.
pub open spec fn events(s: Seq<u8>) -> Seq<(char, u32, u32)>
    decreases s,
{
    if s.len() == 0 {
        Seq::empty()
    } else {
        let e = events(s.drop_last());
        let j = s.len() - 1;
        if s[j] == 91 {
            e.push(('[', line_at(s, j) as u32, col_at(s, j) as u32))
        } else if s[j] == 93 {
            e.push((']', line_at(s, j) as u32, col_at(s, j) as u32))
        } else {
            e
        }
    }
}

/// An event stack made of brackets only.
pub open spec fn events_wf(ev: Seq<(char, u32, u32)>) -> bool {
    forall|k: int| 0 <= k < ev.len() ==> (#[trigger] ev[k]).0 == '[' || ev[k].0 == ']'
}

/// Unwinding the event stack from the top while skipping balanced pairs:
/// the line and position of the `level + 1`-th unclosed `[` from the top.
pub open spec fn find_open_rec(ev: Seq<(char, u32, u32)>, level: nat) -> Option<(u32, u32)>
    decreases ev,
{
    if ev.len() == 0 {
        None
    } else {
        let last = ev.last();
        if last.0 == '[' {
            if level == 0 {
                Some((last.1, last.2))
            } else {
                find_open_rec(ev.drop_last(), (level - 1) as nat)
            }
        } else {
            find_open_rec(ev.drop_last(), level + 1)
        }
    }
}

/// The index in the event stack of the entry [`find_open_rec`] reports:
/// the unwinding stops there, so the entries from it on are the popped
/// ones.
pub open spec fn find_open_idx(ev: Seq<(char, u32, u32)>, level: nat) -> Option<int>
    decreases ev,
{
    if ev.len() == 0 {
        None
    } else {
        let last = ev.last();
        if last.0 == '[' {
            if level == 0 {
                Some(ev.len() - 1)
            } else {
                find_open_idx(ev.drop_last(), (level - 1) as nat)
            }
        } else {
            find_open_idx(ev.drop_last(), level + 1)
        }
    }
}

/// The instruction bytes one instruction stands for.
pub open spec fn flat_tok(p: Prog) -> Seq<u8>
    decreases p,
{
    match p {
        Prog::Output => seq![46u8],
        Prog::Input => seq![44u8],
        Prog::Move(v) => if v == 1 {
            seq![62u8]
        } else {
            seq![60u8]
        },
        Prog::IncValue(v) => if v == 1 {
            seq![43u8]
        } else {
            seq![45u8]
        },
        Prog::Loop(b) => seq![91u8] + flatten(b) + seq![93u8],
    }
}

/// The instruction bytes an instruction sequence stands for.
pub open spec fn flatten(ts: Seq<Prog>) -> Seq<u8>
    decreases ts,
{
    if ts.len() == 0 {
        Seq::empty()
    } else {
        flatten(ts.drop_last()) + flat_tok(ts.last())
    }
}

/// Deltas as compilation produces them: single steps only.
pub open spec fn unit_tok(p: Prog) -> bool
    decreases p,
{
    match p {
        Prog::Move(v) => v == 1 || v == -1,
        Prog::IncValue(v) => v == 1 || v == -1,
        Prog::Loop(b) => units(b),
        _ => true,
    }
}

pub open spec fn units(ts: Seq<Prog>) -> bool
    decreases ts,
{
    if ts.len() == 0 {
        true
    } else {
        units(ts.drop_last()) && unit_tok(ts.last())
    }
}

/// The instruction bytes of a source, comments dropped.
pub open spec fn instr_of(s: Seq<u8>) -> Seq<u8>
    decreases s,
{
    if s.len() == 0 {
        Seq::empty()
    } else {
        instr_of(s.drop_last()) + (if is_instr(s.last()) {
            seq![s.last()]
        } else {
            Seq::empty()
        })
    }
}

proof fn lemma_instr_append(a: Seq<u8>, b: Seq<u8>)
    ensures
        instr_of(a + b) == instr_of(a) + instr_of(b),
    decreases b,
{
    if b.len() == 0 {
        assert(a + b =~= a);
        assert(instr_of(a) + instr_of(b) =~= instr_of(a));
    } else {
        lemma_instr_append(a, b.drop_last());
        assert((a + b).drop_last() =~= a + b.drop_last());
        assert((a + b).last() == b.last());
        if is_instr(b.last()) {
            assert(instr_of(a) + instr_of(b) =~= (instr_of(a) + instr_of(b.drop_last())) + seq![
                b.last(),
            ]);
        } else {
            assert(instr_of(a) + instr_of(b) =~= instr_of(a) + instr_of(b.drop_last()));
        }
    }
}

/// Line and position counters stay within one more than the index.
proof fn lemma_pos_bounds(s: Seq<u8>, i: int)
    requires
        0 <= i,
    ensures
        1 <= line_at(s, i) <= i + 1,
        1 <= col_at(s, i) <= i + 1,
    decreases i,
{
    if i > 0 {
        lemma_pos_bounds(s, i - 1);
    }
}

/// Positions only depend on the bytes before them.
proof fn lemma_pos_prefix(s: Seq<u8>, i: int)
    requires
        0 <= i < s.len(),
    ensures
        line_at(s.drop_last(), i) == line_at(s, i),
        col_at(s.drop_last(), i) == col_at(s, i),
    decreases i,
{
    if i > 0 {
        lemma_pos_prefix(s, i - 1);
    }
}

/// A clean scan leaves at most one open bracket per byte, each at a valid
/// index.
proof fn lemma_scan_os_range(s: Seq<u8>)
    requires
        scan_is_ok(s),
    ensures
        scan_os(s).len() <= s.len(),
        forall|k: int| 0 <= k < scan_os(s).len() ==> 0 <= #[trigger] scan_os(s)[k] < s.len(),
    decreases s,
{
    if s.len() > 0 {
        lemma_scan_os_range(s.drop_last());
    }
}

/// A faulty prefix decides the whole scan: the fault and its position
/// stand whatever follows.
proof fn lemma_scan_err_persists(s: Seq<u8>, i: int)
    requires
        0 <= i <= s.len(),
        !scan_is_ok(s.take(i)),
    ensures
        scan(s) == scan(s.take(i)),
    decreases s,
{
    if i == s.len() {
        assert(s.take(i) =~= s);
    } else {
        assert(s.drop_last().take(i) =~= s.take(i));
        lemma_scan_err_persists(s.drop_last(), i);
    }
}

proof fn lemma_events_wf(s: Seq<u8>)
    ensures
        events_wf(events(s)),
        events(s).len() <= s.len(),
    decreases s,
{
    if s.len() > 0 {
        lemma_events_wf(s.drop_last());
    }
}

/// Positions within a prefix agree with positions in the whole source.
proof fn lemma_pos_take(s: Seq<u8>, i: int, k: int)
    requires
        0 <= k <= i <= s.len(),
    ensures
        line_at(s.take(i), k) == line_at(s, k),
        col_at(s.take(i), k) == col_at(s, k),
    decreases k,
{
    if k > 0 {
        lemma_pos_take(s, i, k - 1);
    }
}

/// Unwinding the event stack of a cleanly scanned source finds, for each
/// level, the still-open `[` that many levels out: the one the scan left
/// at position `scan_os(s)[scan_os(s).len() - 1 - level]`.
proof fn lemma_find_open(s: Seq<u8>, level: nat)
    requires
        scan_is_ok(s),
        level < scan_os(s).len(),
    ensures
        ({
            let u = scan_os(s)[scan_os(s).len() - 1 - level];
            find_open_rec(events(s), level) == Some(
                (line_at(s, u) as u32, col_at(s, u) as u32),
            )
        }),
    decreases s,
{
    let os = scan_os(s);
    let u = os[os.len() - 1 - level];
    let s2 = s.drop_last();
    let j = s.len() - 1;
    lemma_scan_os_range(s);
    if s[j] == 91 {
        // The top event is this `[`; level 0 takes it, deeper levels skip it.
        assert(os == scan_os(s2).push(j));
        assert(events(s).drop_last() =~= events(s2));
        if level == 0 {
            assert(u == j);
        } else {
            lemma_find_open(s2, (level - 1) as nat);
            let os2 = scan_os(s2);
            assert(os2[os2.len() - 1 - (level - 1)] == os[os.len() - 1 - level]);
            lemma_scan_os_range(s2);
            lemma_pos_prefix(s, u);
        }
    } else if s[j] == 93 {
        // The top event is a matched `]`; unwinding skips the pair.
        let os2 = scan_os(s2);
        assert(os == os2.drop_last());
        assert(events(s).drop_last() =~= events(s2));
        lemma_find_open(s2, level + 1);
        assert(os2[os2.len() - 1 - (level + 1)] == os[os.len() - 1 - level]);
        lemma_scan_os_range(s2);
        lemma_pos_prefix(s, u);
    } else {
        assert(events(s) == events(s2));
        assert(scan_os(s) == scan_os(s2));
        lemma_find_open(s2, level);
        lemma_scan_os_range(s2);
        lemma_pos_prefix(s, u);
    }
}

proof fn lemma_instr_single(b: u8)
    ensures
        is_instr(b) ==> instr_of(seq![b]) == seq![b],
        !is_instr(b) ==> instr_of(seq![b]) == Seq::<u8>::empty(),
{
    assert(seq![b].drop_last() =~= Seq::<u8>::empty());
    assert(instr_of(Seq::<u8>::empty()) + seq![b] =~= seq![b]);
    assert(instr_of(Seq::<u8>::empty()) + Seq::<u8>::empty() =~= Seq::<u8>::empty());
}

/// Pushing one token extends the model, the flattening and the
/// unit-delta property by exactly that token's contribution.
proof fn lemma_push_step(ts: Seq<Token>, t: Token)
    ensures
        view_toks(ts.push(t)) == view_toks(ts).push(view_tok(t)),
        flatten(view_toks(ts.push(t))) == flatten(view_toks(ts)) + flat_tok(view_tok(t)),
        units(view_toks(ts.push(t))) == (units(view_toks(ts)) && unit_tok(view_tok(t))),
{
    assert(ts.push(t).drop_last() =~= ts);
    assert(view_toks(ts).push(view_tok(t)).drop_last() =~= view_toks(ts));
}

/// The scan can open at most one bracket per byte read.
proof fn lemma_scan_os_len(s: Seq<u8>)
    requires
        scan_is_ok(s),
    ensures
        scan_os(s).len() <= s.len(),
{
    lemma_scan_os_range(s);
}

/// Upper bound on accepted source length, so that the 32-bit line and
/// position counters cannot overflow while scanning.
pub const MAX_SOURCE_LEN: usize = 0xFFFF0000;

/// One nesting level of the scan, starting at byte `start`. `level` many
/// `[`s are open around this call; the counters and the event stack match
/// the bytes before `start`. On success the level's instructions are
/// returned together with the index just past the consumed bytes: past the
/// matching `]` for a nested level, the end of input for the outermost.
#[verifier::loop_isolation(false)]
fn compile_from(
    src: &Vec<u8>,
    start: usize,
    level: usize,
    stack: &mut Vec<(char, u32, u32)>,
    line: &mut u32,
    position: &mut u32,
) -> (r: Result<(Vec<Token>, usize), CompileError>)
    requires
        src@.len() <= MAX_SOURCE_LEN,
        start <= src@.len(),
        scan_is_ok(src@.take(start as int)),
        scan_os(src@.take(start as int)).len() == level,
        *old(line) == line_at(src@, start as int),
        *old(position) == col_at(src@, start as int),
        old(stack)@ == events(src@.take(start as int)),
    ensures
        match r {
            Ok((tokens, end)) => {
                &&& start <= end <= src@.len()
                &&& scan_is_ok(src@.take(end as int))
                &&& *final(line) == line_at(src@, end as int)
                &&& *final(position) == col_at(src@, end as int)
                &&& final(stack)@ == events(src@.take(end as int))
                &&& units(view_toks(tokens@))
                &&& if level == 0 {
                    &&& end == src@.len()
                    &&& scan_os(src@.take(end as int)).len() == 0
                    &&& flatten(view_toks(tokens@)) == instr_of(
                        src@.subrange(start as int, end as int),
                    )
                } else {
                    &&& end > start
                    &&& src@[end as int - 1] == 93
                    &&& scan_os(src@.take(end as int)) == scan_os(
                        src@.take(start as int),
                    ).drop_last()
                    &&& flatten(view_toks(tokens@)) == instr_of(
                        src@.subrange(start as int, end as int - 1),
                    )
                }
            },
            Err(e) => match e {
                CompileError::ClosedNonexistentLoop { line: l, position: p } => {
                    &&& !scan_is_ok(src@)
                    &&& l == line_at(src@, scan_err(src@))
                    &&& p == col_at(src@, scan_err(src@))
                },
                CompileError::OpenedNonexistentLoop { line: l, position: p } => {
                    &&& scan_is_ok(src@)
                    &&& scan_os(src@).len() > 0
                    &&& l == line_at(src@, scan_os(src@).last())
                    &&& p == col_at(src@, scan_os(src@).last())
                },
            },
        },
    decreases src@.len() - start,
{
    let ghost os0 = scan_os(src@.take(start as int));
    let mut tokens: Vec<Token> = Vec::new();
    let mut cur: usize = start;
    proof {
        assert(src@.subrange(start as int, start as int) =~= Seq::<u8>::empty());
    }
    while cur < src.len()
        invariant
            start <= cur <= src@.len(),
            scan_is_ok(src@.take(cur as int)),
            scan_os(src@.take(cur as int)) == os0,
            *line == line_at(src@, cur as int),
            *position == col_at(src@, cur as int),
            stack@ == events(src@.take(cur as int)),
            units(view_toks(tokens@)),
            flatten(view_toks(tokens@)) == instr_of(src@.subrange(start as int, cur as int)),
        decreases src@.len() - cur,
    {
        let ghost pre_c = src@.take(cur as int);
        let ghost post_c = src@.take(cur as int + 1);
        let ghost toks_pre = tokens@;
        proof {
            assert(post_c.drop_last() =~= pre_c);
            assert(post_c.last() == src@[cur as int]);
            lemma_pos_bounds(src@, cur as int);
            assert(src@.subrange(start as int, cur as int + 1).drop_last() =~= src@.subrange(
                start as int,
                cur as int,
            ));
        }
        let b = src[cur];
        if b == 93 {
            // A `]`: at the outermost level it closes nothing and the
            // whole compilation fails at its own position; in a nested
            // level it ends this loop body.
            if level == 0 {
                proof {
                    assert(scan(post_c) == Err::<Seq<int>, int>(cur as int));
                    lemma_scan_err_persists(src@, cur as int + 1);
                }
                return Err(
                    CompileError::ClosedNonexistentLoop { line: *line, position: *position },
                );
            }
            stack.push((']', *line, *position));
            *position = *position + 1;
            proof {
                lemma_pos_take(src@, cur as int + 1, cur as int);
                assert(stack@ == events(post_c));
            }
            return Ok((tokens, cur + 1));
        }
        if b == 91 {
            stack.push(('[', *line, *position));
            *position = *position + 1;
            proof {
                lemma_pos_take(src@, cur as int + 1, cur as int);
                assert(scan_os(post_c) == os0.push(cur as int));
                assert(stack@ == events(post_c));
                lemma_scan_os_len(pre_c);
            }
            match compile_from(src, cur + 1, level + 1, stack, line, position) {
                Err(e) => {
                    return Err(e);
                },
                Ok((inner, end)) => {
                    let ghost vi = view_toks(inner@);
                    proof {
                        assert(scan_os(src@.take(end as int)) =~= os0);
                    }
                    tokens.push(Token::Loop(inner));
                    proof {
                        assert(tokens@ =~= toks_pre.push(tokens@.last()));
                        lemma_push_step(toks_pre, tokens@.last());
                        assert(view_tok(tokens@.last()) == Prog::Loop(vi));
                        assert(flatten(view_toks(tokens@)) == flatten(view_toks(toks_pre))
                            + flat_tok(Prog::Loop(vi)));
                        // The consumed region splits into what stood
                        // before the `[`, the `[` itself, the body, and
                        // the closing `]`.
                        let a = src@.subrange(start as int, cur as int);
                        let o = src@.subrange(cur as int, cur as int + 1);
                        let m = src@.subrange(cur as int + 1, end as int - 1);
                        let c = src@.subrange(end as int - 1, end as int);
                        assert(src@.subrange(start as int, end as int) =~= a + o + m + c);
                        lemma_instr_append(a + o + m, c);
                        lemma_instr_append(a + o, m);
                        lemma_instr_append(a, o);
                        assert(o =~= seq![91u8]);
                        assert(c =~= seq![93u8]);
                        lemma_instr_single(91);
                        lemma_instr_single(93);
                        assert(flat_tok(Prog::Loop(vi)) == seq![91u8] + flatten(vi) + seq![93u8]);
                        assert(flatten(view_toks(tokens@)) =~= instr_of(
                            src@.subrange(start as int, end as int),
                        ));
                    }
                    cur = end;
                },
            }
        } else {
            // An instruction byte becomes one token; anything else is a
            // comment and only moves the position counters.
            if b == 62 || b == 60 || b == 43 || b == 45 || b == 46 || b == 44 {
                if b == 62 {
                    tokens.push(Token::Move(1));
                } else if b == 60 {
                    tokens.push(Token::Move(-1));
                } else if b == 43 {
                    tokens.push(Token::IncValue(1));
                } else if b == 45 {
                    tokens.push(Token::IncValue(-1));
                } else if b == 46 {
                    tokens.push(Token::Output);
                } else {
                    tokens.push(Token::Input);
                }
                proof {
                    assert(tokens@ =~= toks_pre.push(tokens@.last()));
                    lemma_push_step(toks_pre, tokens@.last());
                    assert(flat_tok(view_tok(tokens@.last())) =~= seq![src@[cur as int]]);
                    assert(unit_tok(view_tok(tokens@.last())));
                    assert(instr_of(src@.subrange(start as int, cur as int + 1)) =~= instr_of(
                        src@.subrange(start as int, cur as int),
                    ) + seq![src@[cur as int]]);
                    assert(flatten(view_toks(tokens@)) =~= instr_of(
                        src@.subrange(start as int, cur as int + 1),
                    ));
                }
            } else {
                proof {
                    assert(instr_of(src@.subrange(start as int, cur as int + 1)) =~= instr_of(
                        src@.subrange(start as int, cur as int),
                    ));
                }
            }
            if b == 10 {
                *line = *line + 1;
                *position = 1;
            } else {
                *position = *position + 1;
            }
            proof {
                assert(stack@ == events(post_c));
                assert(scan_os(post_c) == os0);
            }
            cur = cur + 1;
        }
    }
    if level > 0 {
        // End of input inside a loop body: report the innermost `[` that
        // was never closed, found by unwinding the event stack.
        proof {
            assert(src@.take(cur as int) =~= src@);
            lemma_events_wf(src@);
            assert(stack@.len() <= src@.len());
            lemma_find_open(src@, 0);
            lemma_scan_os_range(src@);
            lemma_pos_bounds(src@, scan_os(src@).last());
        }
        let reported = search_extra_loop(stack);
        return Err(
            CompileError::OpenedNonexistentLoop { line: reported.0, position: reported.1 },
        );
    }
    proof {
        assert(src@.take(cur as int) =~= src@);
    }
    Ok((tokens, cur))
}

/// Compile source bytes into an instruction tree.
///
/// Compilation succeeds exactly on sources whose brackets are balanced,
/// and the tree then flattens back to the source's instruction bytes, with
/// every delta a single step. A `]` that closes nothing fails the whole
/// compilation at that byte's own line and position; an input that ends
/// with a `[` still open fails at the line and position of the innermost
/// `[` never closed.
pub fn compile(src: &Vec<u8>) -> (r: Result<Vec<Token>, CompileError>)
    requires
        src@.len() <= MAX_SOURCE_LEN,
    ensures
        match r {
            Ok(tokens) => balanced(src@) && units(view_toks(tokens@)) && flatten(
                view_toks(tokens@),
            ) == instr_of(src@),
            Err(e) => match e {
                CompileError::ClosedNonexistentLoop { line, position } => {
                    &&& !scan_is_ok(src@)
                    &&& line == line_at(src@, scan_err(src@))
                    &&& position == col_at(src@, scan_err(src@))
                },
                CompileError::OpenedNonexistentLoop { line, position } => {
                    &&& scan_is_ok(src@)
                    &&& scan_os(src@).len() > 0
                    &&& line == line_at(src@, scan_os(src@).last())
                    &&& position == col_at(src@, scan_os(src@).last())
                },
            },
        },
{
    let mut stack: Vec<(char, u32, u32)> = Vec::new();
    let mut line: u32 = 1;
    let mut position: u32 = 1;
    proof {
        assert(src@.take(0) =~= Seq::<u8>::empty());
        assert(events(src@.take(0)) =~= Seq::<(char, u32, u32)>::empty());
    }
    match compile_from(src, 0, 0, &mut stack, &mut line, &mut position) {
        Ok((tokens, _)) => {
            proof {
                assert(src@.take(src@.len() as int) =~= src@);
                assert(src@.subrange(0, src@.len() as int) =~= src@);
            }
            Ok(tokens)
        },
        Err(e) => Err(e),
    }
}

/// Pop the event stack, skipping balanced `[` `]` pairs, until the
/// innermost `[` that was never closed; return its line and position.
/// That entry and everything above it are popped; the entries beneath it
/// stay untouched.
#[verifier::loop_isolation(false)]
pub fn search_extra_loop(stack: &mut Vec<(char, u32, u32)>) -> (r: (u32, u32))
    requires
        events_wf(old(stack)@),
        find_open_rec(old(stack)@, 0) is Some,
        old(stack)@.len() < 0xFFFF_FFFF,
    ensures
        Some(r) == find_open_rec(old(stack)@, 0),
        find_open_idx(old(stack)@, 0) matches Some(k) && final(stack)@ == old(stack)@.take(k),
{
    let mut level: u32 = 0;
    loop
        invariant
            events_wf(stack@),
            find_open_rec(stack@, level as nat) == find_open_rec(old(stack)@, 0),
            find_open_idx(stack@, level as nat) == find_open_idx(old(stack)@, 0),
            find_open_rec(stack@, level as nat) is Some,
            stack@.len() + level <= old(stack)@.len(),
            stack@ == old(stack)@.take(stack@.len() as int),
        decreases stack@.len(),
    {
        let ghost pre = stack@;
        let entry = stack.pop().unwrap();
        proof {
            assert(entry == pre.last());
            assert(stack@ == pre.drop_last());
            assert(pre.drop_last() =~= old(stack)@.take(pre.len() - 1));
        }
        if entry.0 == '[' {
            if level == 0 {
                proof {
                    assert(find_open_idx(pre, 0) == Some(pre.len() - 1));
                }
                return (entry.1, entry.2);
            }
            level = level - 1;
        } else {
            level = level + 1;
        }
    }
}

} // verus!
