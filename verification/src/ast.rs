//! Parser: turns a token sequence into a pipeline/redirection tree.
//!
//! All three operators `|`, `>` and `<` share one precedence level and are
//! left-associative: `a OP1 b OP2 c` parses as `(a OP1 b) OP2 c` for any mix
//! of operators. A redirect target must be exactly one word; a dangling
//! operator at the end of the input is a syntax error. Zero tokens parse to an
//! empty command, which the executor treats as a no-op.

use vstd::prelude::*;

use crate::lex::{tokens_view, SpecToken, Token};

verus! {

/// A single command: its words (program name first) and its background flag.
pub type Command = (Vec<String>, bool);

/// The pipeline/redirection tree.
#[derive(Debug)]
pub enum Proc {
    /// One command, to be spawned (or run in-process if it is a built-in).
    SubProc(Command),
    /// A pipeline of at least two stages, connected stdout to stdin in order.
    Pipe(Vec<Proc>),
    /// `sub > path`: the sub-tree with its standard output sent to a file.
    RRed(Box<Proc>, String),
    /// `sub < path`: the sub-tree with its standard input read from a file.
    LRed(Box<Proc>, String),
}

/// Mathematical model of a `Proc`.
pub enum SpecProc {
    Sub(Seq<Seq<char>>, bool),
    Pipeline(Seq<SpecProc>),
    ROut(Box<SpecProc>, Seq<char>),
    RIn(Box<SpecProc>, Seq<char>),
}

/// The models of a sequence of words.
pub open spec fn words_view(ws: Seq<String>) -> Seq<Seq<char>> {
    ws.map_values(|w: String| w@)
}

/// The model of a `Proc`.
pub open spec fn proc_view(p: Proc) -> SpecProc
    decreases p, 0int,
{
    match p {
        Proc::SubProc(cmd) => SpecProc::Sub(words_view(cmd.0@), cmd.1),
        Proc::Pipe(ps) => SpecProc::Pipeline(procs_view(ps@)),
        Proc::RRed(sub, path) => SpecProc::ROut(Box::new(proc_view(*sub)), path@),
        Proc::LRed(sub, path) => SpecProc::RIn(Box::new(proc_view(*sub)), path@),
    }
}

/// The models of a sequence of `Proc`s.
pub open spec fn procs_view(s: Seq<Proc>) -> Seq<SpecProc>
    decreases s, 1int,
{
    if s.len() == 0 {
        Seq::empty()
    } else {
        seq![proc_view(s[0])] + procs_view(s.drop_first())
    }
}

impl View for Proc {
    type V = SpecProc;

    open spec fn view(&self) -> SpecProc {
        proc_view(*self)
    }
}

pub proof fn lemma_procs_view(s: Seq<Proc>)
    ensures
        procs_view(s).len() == s.len(),
        forall|k: int| 0 <= k < s.len() ==> procs_view(s)[k] == proc_view(s[k]),
    decreases s.len(),
{
    if s.len() > 0 {
        lemma_procs_view(s.drop_first());
        assert forall|k: int| 0 <= k < s.len() implies procs_view(s)[k] == proc_view(s[k]) by {
            if k > 0 {
                assert(procs_view(s)[k] == procs_view(s.drop_first())[k - 1]);
                assert(s.drop_first()[k - 1] == s[k]);
            }
        }
    }
}

/// Structural soundness of a tree: every pipeline has at least two stages.
/// The parser only builds such trees, and the executor relies on it.
pub open spec fn spec_wf(p: SpecProc) -> bool
    decreases p,
{
    match p {
        SpecProc::Sub(_, _) => true,
        SpecProc::Pipeline(ps) => ps.len() >= 2 && (forall|k: int|
            0 <= k < ps.len() ==> spec_wf(#[trigger] ps[k])),
        SpecProc::ROut(sub, _) => spec_wf(*sub),
        SpecProc::RIn(sub, _) => spec_wf(*sub),
    }
}

/// An operator joining two chunks of words.
#[derive(Debug, Clone, Copy)]
pub enum Op {
    Pipe,
    RRed,
    LRed,
}

/// One chunk of the token stream, read from position `i`: the words (and the
/// background flag) accumulate until an operator token is consumed or the
/// input ends. The result is the next position, the operator that ended the
/// chunk, the words, and the background flag.
pub open spec fn spec_chunk(
    ts: Seq<SpecToken>,
    i: int,
    ws: Seq<Seq<char>>,
    bg: bool,
) -> (int, Option<Op>, Seq<Seq<char>>, bool)
    decreases ts.len() - i,
{
    if i >= ts.len() {
        (i, None::<Op>, ws, bg)
    } else {
        match ts[i] {
            SpecToken::Word(w) => spec_chunk(ts, i + 1, ws.push(w), bg),
            SpecToken::Background => spec_chunk(ts, i + 1, ws, true),
            SpecToken::Pipe => (i + 1, Some(Op::Pipe), ws, bg),
            SpecToken::RightRedirect => (i + 1, Some(Op::RRed), ws, bg),
            SpecToken::LeftRedirect => (i + 1, Some(Op::LRed), ws, bg),
        }
    }
}

proof fn lemma_chunk_bounds(ts: Seq<SpecToken>, i: int, ws: Seq<Seq<char>>, bg: bool)
    requires
        0 <= i <= ts.len(),
    ensures
        ({
            let (j, op, ws2, bg2) = spec_chunk(ts, i, ws, bg);
            &&& i <= j <= ts.len()
            &&& (i < ts.len() ==> j > i)
            &&& (i == ts.len() ==> ws2 == ws)
        }),
    decreases ts.len() - i,
{
    if i < ts.len() {
        match ts[i] {
            SpecToken::Word(w) => lemma_chunk_bounds(ts, i + 1, ws.push(w), bg),
            SpecToken::Background => lemma_chunk_bounds(ts, i + 1, ws, true),
            _ => {},
        }
    }
}

/// The parser's chunk-combining loop, from position `i`, with the tree built
/// so far `cur`, the operator that preceded the coming chunk `cur_op`, and the
/// pipeline stages accumulated so far `pipes`.
pub open spec fn spec_parse_loop(
    ts: Seq<SpecToken>,
    i: int,
    cur: SpecProc,
    cur_op: Option<Op>,
    pipes: Seq<SpecProc>,
) -> Option<SpecProc>
    decreases ts.len() - i,
{
    let (j, op, ws, bg) = spec_chunk(ts, i, Seq::empty(), false);
    if ws.len() == 0 {
        if cur_op is None {
            Some(cur)
        } else {
            None
        }
    } else if !(i < j <= ts.len()) {
        None
    } else {
        match cur_op {
            None => spec_parse_loop(ts, j, SpecProc::Sub(ws, bg), op, pipes),
            Some(Op::Pipe) => {
                let pipes2 = pipes.push(SpecProc::Sub(ws, bg));
                if op == Some(Op::Pipe) {
                    spec_parse_loop(ts, j, cur, op, pipes2)
                } else {
                    spec_parse_loop(
                        ts,
                        j,
                        SpecProc::Pipeline(seq![cur] + pipes2),
                        op,
                        Seq::empty(),
                    )
                }
            },
            Some(Op::RRed) => {
                if ws.len() != 1 {
                    None
                } else {
                    spec_parse_loop(ts, j, SpecProc::ROut(Box::new(cur), ws[0]), op, pipes)
                }
            },
            Some(Op::LRed) => {
                if ws.len() != 1 {
                    None
                } else {
                    spec_parse_loop(ts, j, SpecProc::RIn(Box::new(cur), ws[0]), op, pipes)
                }
            },
        }
    }
}

/// What the parser yields on a whole token sequence.
pub open spec fn spec_parse(ts: Seq<SpecToken>) -> Option<SpecProc> {
    spec_parse_loop(ts, 0, SpecProc::Sub(Seq::empty(), false), None::<Op>, Seq::empty())
}

proof fn lemma_words_view_push(ws: Seq<String>, w: String)
    ensures
        words_view(ws.push(w)) == words_view(ws).push(w@),
{
    assert(words_view(ws.push(w)) =~= words_view(ws).push(w@));
}

/// Reads one chunk: words (and a background marker) up to and including the
/// next operator token, or up to the end of the input.
fn read_until_op(toks: &Vec<Token>, start: usize) -> (r: (usize, Option<Op>, Vec<String>, bool))
    requires
        start <= toks@.len(),
    ensures
        ({
            let (j, op, ws, bg) = spec_chunk(tokens_view(toks@), start as int, Seq::empty(), false);
            &&& r.0 == j
            &&& r.1 == op
            &&& words_view(r.2@) == ws
            &&& r.3 == bg
        }),
        start <= r.0 <= toks@.len(),
        r.2@.len() > 0 ==> r.0 > start,
{
    let ghost ts = tokens_view(toks@);
    let mut ws: Vec<String> = Vec::new();
    let mut bg = false;
    let mut op: Option<Op> = None;
    let mut i = start;
    proof {
        lemma_chunk_bounds(ts, start as int, Seq::empty(), false);
        assert(words_view(ws@) =~= Seq::<Seq<char>>::empty());
    }
    while i < toks.len() && op.is_none()
        invariant
            start <= i <= toks@.len(),
            ts == tokens_view(toks@),
            op is None ==> spec_chunk(ts, start as int, Seq::empty(), false) == spec_chunk(
                ts,
                i as int,
                words_view(ws@),
                bg,
            ),
            op is Some ==> spec_chunk(ts, start as int, Seq::empty(), false) == (
                i as int,
                op,
                words_view(ws@),
                bg,
            ),
            ws@.len() > 0 ==> i > start,
            op is Some ==> i > start,
        decreases toks@.len() - i,
    {
        proof {
            assert(ts[i as int] == toks@[i as int]@);
        }
        match &toks[i] {
            Token::Str(w) => {
                proof {
                    lemma_words_view_push(ws@, *w);
                }
                ws.push(w.clone());
            },
            Token::Background => {
                bg = true;
            },
            Token::Pipe => {
                op = Some(Op::Pipe);
            },
            Token::RightRedirect => {
                op = Some(Op::RRed);
            },
            Token::LeftRedirect => {
                op = Some(Op::LRed);
            },
        }
        i = i + 1;
    }
    (i, op, ws, bg)
}

/// Parses a token sequence under the flat left-associative grammar. `None`
/// reports a syntax error: a dangling operator at the end of the input, or a
/// redirect target that is not exactly one word.
pub fn parse(toks: Vec<Token>) -> (r: Option<Proc>)
    ensures
        match r {
            Some(p) => spec_parse(tokens_view(toks@)) == Some(p@) && spec_wf(p@),
            None => spec_parse(tokens_view(toks@)) is None,
        },
{
    let ghost ts = tokens_view(toks@);
    let mut cur = Proc::SubProc((Vec::new(), false));
    let mut cur_op: Option<Op> = None;
    let mut cur_pipes: Vec<Proc> = Vec::new();
    let mut i: usize = 0;
    proof {
        assert(words_view(Seq::<String>::empty()) =~= Seq::<Seq<char>>::empty());
        assert(procs_view(Seq::<Proc>::empty()) =~= Seq::<SpecProc>::empty());
    }
    loop
        invariant
            i <= toks@.len(),
            ts == tokens_view(toks@),
            spec_parse(ts) == spec_parse_loop(ts, i as int, cur@, cur_op, procs_view(cur_pipes@)),
            spec_wf(cur@),
            forall|k: int|
                0 <= k < procs_view(cur_pipes@).len() ==> spec_wf(
                    #[trigger] procs_view(cur_pipes@)[k],
                ),
        ensures
            spec_parse(ts) == (if cur_op is None {
                Some(cur@)
            } else {
                None::<SpecProc>
            }),
            spec_wf(cur@),
        decreases toks@.len() - i,
    {
        let (j, op, mut ws, bg) = read_until_op(&toks, i);
        if ws.is_empty() {
            break;
        }
        let ghost wsv = words_view(ws@);
        proof {
            assert(wsv.len() == ws@.len());
        }
        match cur_op {
            None => {
                cur = Proc::SubProc((ws, bg));
                proof {
                    assert(cur@ == SpecProc::Sub(wsv, bg));
                }
            },
            Some(Op::Pipe) => {
                let ghost pipes0 = procs_view(cur_pipes@);
                let stage = Proc::SubProc((ws, bg));
                proof {
                    lemma_procs_view_push(cur_pipes@, stage);
                }
                cur_pipes.push(stage);
                let is_pipe = match op {
                    Some(Op::Pipe) => true,
                    _ => false,
                };
                proof {
                    assert(procs_view(cur_pipes@) == pipes0.push(SpecProc::Sub(wsv, bg)));
                }
                if !is_pipe {
                    let ghost curv = cur@;
                    let ghost old_pipes = cur_pipes@;
                    let ghost pipes2 = procs_view(cur_pipes@);
                    let prev = cur;
                    let mut cp: Vec<Proc> = Vec::new();
                    cp.push(prev);
                    cp.append(&mut cur_pipes);
                    proof {
                        lemma_procs_view(cp@);
                        lemma_procs_view(old_pipes);
                        assert(cp@ =~= seq![prev] + old_pipes);
                        assert forall|k: int| 0 <= k < cp@.len() implies procs_view(cp@)[k] == (
                        seq![curv] + pipes2)[k] by {
                            if k == 0 {
                                assert(cp@[0] == prev);
                            } else {
                                assert(cp@[k] == old_pipes[k - 1]);
                            }
                        }
                        assert(procs_view(cp@) =~= seq![curv] + pipes2);
                        assert(procs_view(cur_pipes@) =~= Seq::<SpecProc>::empty());
                    }
                    cur = Proc::Pipe(cp);
                    proof {
                        assert(cur@ == SpecProc::Pipeline(seq![curv] + pipes2));
                        assert((seq![curv] + pipes2).len() >= 2);
                        assert forall|k: int|
                            0 <= k < (seq![curv] + pipes2).len() implies spec_wf(
                            #[trigger] (seq![curv] + pipes2)[k],
                        ) by {
                            if k == 0 {
                                assert((seq![curv] + pipes2)[0] == curv);
                            } else {
                                assert((seq![curv] + pipes2)[k] == pipes2[k - 1]);
                            }
                        }
                    }
                }
            },
            Some(Op::RRed) => {
                if ws.len() != 1 {
                    return None;
                }
                let path = ws.remove(0);
                let prev = cur;
                proof {
                    assert(path@ == wsv[0]);
                }
                cur = Proc::RRed(Box::new(prev), path);
            },
            Some(Op::LRed) => {
                if ws.len() != 1 {
                    return None;
                }
                let path = ws.remove(0);
                let prev = cur;
                proof {
                    assert(path@ == wsv[0]);
                }
                cur = Proc::LRed(Box::new(prev), path);
            },
        }
        cur_op = op;
        i = j;
    }
    if cur_op.is_none() {
        Some(cur)
    } else {
        None
    }
}

proof fn lemma_procs_view_push(s: Seq<Proc>, p: Proc)
    ensures
        procs_view(s.push(p)) == procs_view(s).push(proc_view(p)),
    decreases s.len(),
{
    if s.len() == 0 {
        assert(s.push(p).drop_first() =~= Seq::<Proc>::empty());
        assert(procs_view(Seq::<Proc>::empty()) == Seq::<SpecProc>::empty());
        assert(s.push(p)[0] == p);
        assert(procs_view(s.push(p)) == seq![proc_view(p)] + Seq::<SpecProc>::empty());
        assert(procs_view(s.push(p)) =~= procs_view(s).push(proc_view(p)));
    } else {
        let l = s.push(p);
        lemma_procs_view_push(s.drop_first(), p);
        assert(l.drop_first() =~= s.drop_first().push(p));
        assert(l[0] == s[0]);
        assert(procs_view(l) == seq![proc_view(l[0])] + procs_view(l.drop_first()));
        assert(procs_view(l.drop_first()) == procs_view(s.drop_first()).push(proc_view(p)));
        assert(procs_view(s) == seq![proc_view(s[0])] + procs_view(s.drop_first()));
        assert(procs_view(l) =~= procs_view(s).push(proc_view(p)));
    }
}

} // verus!
