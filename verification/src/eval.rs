//! Validator and executor front end.
//!
//! `check_prog` enforces the structural rule the grammar does not: pipelines
//! and redirections must not mix in one program, and each redirect direction
//! may appear at most once. `eval` lowers a tree into an execution plan: the
//! exact ordered list of pipe creations, spawns, descriptor releases, waits
//! and built-in effects that running the tree takes.

use vstd::prelude::*;

use crate::ast::{proc_view, procs_view, spec_wf, words_view, Proc, SpecProc};

verus! {

/// Why evaluation of a line stops.
#[derive(Debug, PartialEq)]
pub enum Interrupt {
    /// A malformed token stream or a structurally invalid tree; the
    /// read-execute loop reports it and goes on.
    SyntaxError(String),
    /// A failure inside a spawned child before its program image was in
    /// place; the child reports it and terminates.
    ChildError(String),
    /// An operating-system call failed in the shell process itself; the
    /// read-execute loop reports it and goes on.
    ExecError(String),
    /// Not a failure: stop the read-execute loop with this exit code.
    Exit(i32),
}

/// Where a command's standard output goes.
#[derive(Debug)]
pub enum Output {
    /// The shell's own standard output.
    Stdout,
    /// A named file, truncated or created for writing.
    File(String),
    /// The `(read, write)` descriptor pair of a pipe; the command writes the
    /// write end.
    Pipefile((i32, i32)),
}

/// Where a command's standard input comes from.
#[derive(Debug)]
pub enum Input {
    /// The shell's own standard input.
    Stdin,
    /// A named file, opened read-only.
    File(String),
    /// The `(read, write)` descriptor pair of a pipe; the command reads the
    /// read end.
    Pipefile((i32, i32)),
}

impl Clone for Output {
    fn clone(&self) -> (r: Self)
        ensures
            r == *self,
    {
        match self {
            Output::Stdout => Output::Stdout,
            Output::File(p) => Output::File(p.clone()),
            Output::Pipefile(fd) => Output::Pipefile(*fd),
        }
    }
}

impl Clone for Input {
    fn clone(&self) -> (r: Self)
        ensures
            r == *self,
    {
        match self {
            Input::Stdin => Input::Stdin,
            Input::File(p) => Input::File(p.clone()),
            Input::Pipefile(fd) => Input::Pipefile(*fd),
        }
    }
}

/// Node counts of a tree: pipelines, output redirects, input redirects.
pub open spec fn spec_counts(p: SpecProc) -> (nat, nat, nat)
    decreases p, 0int,
{
    match p {
        SpecProc::Sub(_, _) => (0nat, 0nat, 0nat),
        SpecProc::Pipeline(ps) => {
            let c = spec_counts_seq(ps);
            ((c.0 + 1) as nat, c.1, c.2)
        },
        SpecProc::ROut(sub, _) => {
            let c = spec_counts(*sub);
            (c.0, (c.1 + 1) as nat, c.2)
        },
        SpecProc::RIn(sub, _) => {
            let c = spec_counts(*sub);
            (c.0, c.1, (c.2 + 1) as nat)
        },
    }
}

/// Summed node counts of a sequence of trees.
pub open spec fn spec_counts_seq(s: Seq<SpecProc>) -> (nat, nat, nat)
    decreases s, 1int,
{
    if s.len() == 0 {
        (0nat, 0nat, 0nat)
    } else {
        let c = spec_counts_seq(s.drop_last());
        let d = spec_counts(s.last());
        ((c.0 + d.0) as nat, (c.1 + d.1) as nat, (c.2 + d.2) as nat)
    }
}

/// Every pipeline stage, at any depth, names a program: no stage is a
/// command with zero words.
pub open spec fn spec_stages_ok(p: SpecProc) -> bool
    decreases p,
{
    match p {
        SpecProc::Sub(_, _) => true,
        SpecProc::Pipeline(ps) => forall|k: int|
            0 <= k < ps.len() ==> (!(#[trigger] ps[k] matches SpecProc::Sub(ws, _) && ws.len()
                == 0) && spec_stages_ok(ps[k])),
        SpecProc::ROut(sub, _) => spec_stages_ok(*sub),
        SpecProc::RIn(sub, _) => spec_stages_ok(*sub),
    }
}

/// The validator's acceptance rule: no pipeline in the same program as a
/// redirect, at most one redirect per direction, and no empty pipeline
/// stage. An empty command standing alone is acceptable: it is a no-op.
pub open spec fn spec_valid(p: SpecProc) -> bool {
    let c = spec_counts(p);
    &&& (c.0 == 0 || c.1 + c.2 == 0)
    &&& c.1 <= 1
    &&& c.2 <= 1
    &&& spec_stages_ok(p)
}

/// Adds a count while capping at 2: the validator only ever needs to know
/// whether a count is 0, 1, or more.
fn cap_add(a: u8, b: u8) -> (r: u8)
    requires
        a <= 2,
        b <= 2,
    ensures
        r <= 2,
        r as int == if a + b > 2 {
            2int
        } else {
            a + b
        },
{
    let s = a + b;
    if s > 2 {
        2
    } else {
        s
    }
}

/// Caps a mathematical count at 2.
pub open spec fn spec_cap(n: nat) -> nat {
    if n > 2 {
        2nat
    } else {
        n
    }
}

/// Walks a tree and reports its capped node counts and the emptiness check.
fn scan_prog(p: &Proc) -> (r: (u8, u8, u8, bool))
    ensures
        r.0 as nat == spec_cap(spec_counts(p@).0),
        r.1 as nat == spec_cap(spec_counts(p@).1),
        r.2 as nat == spec_cap(spec_counts(p@).2),
        r.3 == spec_stages_ok(p@),
    decreases *p,
{
    match p {
        Proc::SubProc(_) => (0, 0, 0, true),
        Proc::Pipe(ps) => {
            let ghost psv = procs_view(ps@);
            proof {
                crate::ast::lemma_procs_view(ps@);
            }
            let mut a: u8 = 0;
            let mut b: u8 = 0;
            let mut c: u8 = 0;
            let mut ok = true;
            let mut k: usize = 0;
            while k < ps.len()
                invariant
                    *p == Proc::Pipe(*ps),
                    k <= ps@.len(),
                    psv == procs_view(ps@),
                    psv.len() == ps@.len(),
                    forall|j: int| 0 <= j < ps@.len() ==> psv[j] == proc_view(ps@[j]),
                    a <= 2 && b <= 2 && c <= 2,
                    a as nat == spec_cap(spec_counts_seq(psv.take(k as int)).0),
                    b as nat == spec_cap(spec_counts_seq(psv.take(k as int)).1),
                    c as nat == spec_cap(spec_counts_seq(psv.take(k as int)).2),
                    ok == (forall|j: int|
                        0 <= j < k ==> (!(#[trigger] psv[j] matches SpecProc::Sub(ws, _)
                            && ws.len() == 0) && spec_stages_ok(psv[j]))),
                decreases ps@.len() - k,
            {
                proof {
                    assert(decreases_to!(*p => p->Pipe_0));
                    assert(p->Pipe_0 == *ps);
                    assert(decreases_to!(*ps => ps@));
                    assert(decreases_to!(ps@ => ps@[k as int]));
                    assert(decreases_to!(*p => ps@[k as int]));
                }
                let stage = &ps[k];
                let sub = scan_prog(stage);
                let empty_stage = match stage {
                    Proc::SubProc(cmd) => cmd.0.len() == 0,
                    _ => false,
                };
                a = cap_add(a, sub.0);
                b = cap_add(b, sub.1);
                c = cap_add(c, sub.2);
                ok = ok && sub.3 && !empty_stage;
                proof {
                    let t1 = psv.take(k as int + 1);
                    assert(t1.drop_last() =~= psv.take(k as int));
                    assert(t1.last() == psv[k as int]);
                }
                k = k + 1;
            }
            proof {
                assert(psv.take(psv.len() as int) =~= psv);
            }
            let a2 = cap_add(a, 1);
            (a2, b, c, ok)
        },
        Proc::RRed(sub, _) => {
            let r = scan_prog(sub);
            (r.0, cap_add(r.1, 1), r.2, r.3)
        },
        Proc::LRed(sub, _) => {
            let r = scan_prog(sub);
            (r.0, r.1, cap_add(r.2, 1), r.3)
        },
    }
}

/// Where a planned command reads its standard input.
#[derive(Debug, PartialEq)]
pub enum PlanIn {
    /// The input handed to the evaluation as a whole.
    Outer,
    /// A named file.
    File(String),
    /// The read end of the pipe with this creation index in the plan.
    PipeRead(usize),
}

/// Where a planned command sends its standard output.
#[derive(Debug, PartialEq)]
pub enum PlanOut {
    /// The output handed to the evaluation as a whole.
    Outer,
    /// A named file.
    File(String),
    /// The write end of the pipe with this creation index in the plan.
    PipeWrite(usize),
}

impl Clone for PlanIn {
    fn clone(&self) -> (r: Self)
        ensures
            r == *self,
    {
        match self {
            PlanIn::Outer => PlanIn::Outer,
            PlanIn::File(p) => PlanIn::File(p.clone()),
            PlanIn::PipeRead(k) => PlanIn::PipeRead(*k),
        }
    }
}

impl Clone for PlanOut {
    fn clone(&self) -> (r: Self)
        ensures
            r == *self,
    {
        match self {
            PlanOut::Outer => PlanOut::Outer,
            PlanOut::File(p) => PlanOut::File(p.clone()),
            PlanOut::PipeWrite(k) => PlanOut::PipeWrite(*k),
        }
    }
}

/// One step of an execution plan, to be performed in order. A step that
/// fails aborts the rest of the plan, exactly as the recursive evaluator
/// stops at the first failing call.
#[derive(Debug, PartialEq)]
pub enum Step {
    /// Create a pipe; its creation index is the number of `MakePipe` steps
    /// before this one.
    MakePipe,
    /// Fork a child that wires the given input and output onto its standard
    /// descriptors and replaces itself with the named program.
    Spawn(Vec<String>, PlanIn, PlanOut),
    /// Close, in the shell process, the read end the spawned child reads.
    ReleaseIn(PlanIn),
    /// Close, in the shell process, the write end the spawned child writes.
    ReleaseOut(PlanOut),
    /// Block until one child terminates and reap it.
    WaitOne,
    /// The `exit` built-in: stop the read-execute loop with this code.
    Exit(i32),
    /// The `exit` built-in with an argument that is not a 32-bit integer, or
    /// with more than one argument.
    ExitBadArg,
    /// The `cd` built-in: change the working directory.
    Chdir(String),
    /// The `cz` built-in: reap every already-terminated child, without
    /// blocking; an error if none was available.
    Reap,
}

/// Model of a `PlanIn`.
pub enum SpecPlanIn {
    Outer,
    File(Seq<char>),
    PipeRead(int),
}

/// Model of a `PlanOut`.
pub enum SpecPlanOut {
    Outer,
    File(Seq<char>),
    PipeWrite(int),
}

/// Model of a `Step`.
pub enum SpecStep {
    MakePipe,
    Spawn(Seq<Seq<char>>, SpecPlanIn, SpecPlanOut),
    ReleaseIn(SpecPlanIn),
    ReleaseOut(SpecPlanOut),
    WaitOne,
    Exit(i32),
    ExitBadArg,
    Chdir(Seq<char>),
    Reap,
}

impl View for PlanIn {
    type V = SpecPlanIn;

    open spec fn view(&self) -> SpecPlanIn {
        match self {
            PlanIn::Outer => SpecPlanIn::Outer,
            PlanIn::File(p) => SpecPlanIn::File(p@),
            PlanIn::PipeRead(k) => SpecPlanIn::PipeRead(*k as int),
        }
    }
}

impl View for PlanOut {
    type V = SpecPlanOut;

    open spec fn view(&self) -> SpecPlanOut {
        match self {
            PlanOut::Outer => SpecPlanOut::Outer,
            PlanOut::File(p) => SpecPlanOut::File(p@),
            PlanOut::PipeWrite(k) => SpecPlanOut::PipeWrite(*k as int),
        }
    }
}

impl View for Step {
    type V = SpecStep;

    open spec fn view(&self) -> SpecStep {
        match self {
            Step::MakePipe => SpecStep::MakePipe,
            Step::Spawn(ws, i, o) => SpecStep::Spawn(words_view(ws@), i@, o@),
            Step::ReleaseIn(i) => SpecStep::ReleaseIn(i@),
            Step::ReleaseOut(o) => SpecStep::ReleaseOut(o@),
            Step::WaitOne => SpecStep::WaitOne,
            Step::Exit(c) => SpecStep::Exit(*c),
            Step::ExitBadArg => SpecStep::ExitBadArg,
            Step::Chdir(p) => SpecStep::Chdir(p@),
            Step::Reap => SpecStep::Reap,
        }
    }
}

/// The models of a sequence of steps.
pub open spec fn steps_view(s: Seq<Step>) -> Seq<SpecStep> {
    s.map_values(|t: Step| t@)
}

/// `n` reaping steps: what a pipeline of `n` stages ends with.
pub open spec fn spec_waits(n: int) -> Seq<SpecStep> {
    Seq::new(if n >= 0 {
        n as nat
    } else {
        0nat
    }, |i: int| SpecStep::WaitOne)
}

/// The plan of one command with the given words and background flag: a
/// built-in becomes its own effect step, an empty command becomes nothing,
/// and anything else becomes a spawn, the release of the two pipe ends the
/// shell still holds for the child, and a blocking wait unless the command
/// is backgrounded or the evaluation is non-blocking.
pub open spec fn spec_eval_cmd(
    ws: Seq<Seq<char>>,
    bg: bool,
    inp: SpecPlanIn,
    out: SpecPlanOut,
    non_block: bool,
) -> Seq<SpecStep> {
    if ws.len() == 0 {
        Seq::empty()
    } else if ws[0] == "exit"@ && ws.len() <= 2 {
        if ws.len() == 1 {
            seq![SpecStep::Exit(0)]
        } else {
            match crate::num::spec_parse_i32(ws[1]) {
                Some(c) => seq![SpecStep::Exit(c)],
                None => seq![SpecStep::ExitBadArg],
            }
        }
    } else if ws[0] == "exit"@ {
        seq![SpecStep::ExitBadArg]
    } else if ws[0] == "cd"@ && ws.len() <= 2 {
        if ws.len() == 1 {
            Seq::empty()
        } else {
            seq![SpecStep::Chdir(ws[1])]
        }
    } else if ws[0] == "cz"@ {
        seq![SpecStep::Reap]
    } else {
        let spawn = seq![
            SpecStep::Spawn(ws, inp, out),
            SpecStep::ReleaseIn(inp),
            SpecStep::ReleaseOut(out),
        ];
        if !bg && !non_block {
            spawn + seq![SpecStep::WaitOne]
        } else {
            spawn
        }
    }
}

/// The plan of a tree, given the pipe-creation index the evaluation starts
/// at: the steps, and the next free pipe index. A pipeline makes a pipe
/// before each stage but the last, hands each stage the read end of the pipe
/// before it and the write end of the pipe after it, spawns every stage
/// without waiting, and then reaps one child per stage.
pub open spec fn spec_eval(
    p: SpecProc,
    inp: SpecPlanIn,
    out: SpecPlanOut,
    non_block: bool,
    base: int,
) -> (Seq<SpecStep>, int)
    decreases p, 0int,
{
    match p {
        SpecProc::Sub(ws, bg) => (spec_eval_cmd(ws, bg, inp, out, non_block), base),
        SpecProc::ROut(sub, path) => spec_eval(
            *sub,
            inp,
            SpecPlanOut::File(path),
            non_block,
            base,
        ),
        SpecProc::RIn(sub, path) => spec_eval(*sub, SpecPlanIn::File(path), out, non_block, base),
        SpecProc::Pipeline(ps) => {
            if ps.len() < 2 {
                (Seq::empty(), base)
            } else {
                let first = spec_eval(ps[0], inp, SpecPlanOut::PipeWrite(base), true, base + 1);
                let rest = spec_eval_stages(ps, 1, base, first.1, out);
                (
                    seq![SpecStep::MakePipe] + first.0 + rest.0 + spec_waits(ps.len() as int),
                    rest.1,
                )
            }
        },
    }
}

/// The plans of pipeline stages from index `i` on: each reads the pipe with
/// index `rp`, the last writes the pipeline's own output, and every other
/// stage writes a freshly made pipe. `c` is the next free pipe index.
pub open spec fn spec_eval_stages(
    ps: Seq<SpecProc>,
    i: int,
    rp: int,
    c: int,
    out: SpecPlanOut,
) -> (Seq<SpecStep>, int)
    decreases ps, ps.len() - i,
{
    if !(1 <= i < ps.len()) {
        (Seq::empty(), c)
    } else if i == ps.len() - 1 {
        spec_eval(ps[i], SpecPlanIn::PipeRead(rp), out, true, c)
    } else {
        let stage = spec_eval(ps[i], SpecPlanIn::PipeRead(rp), SpecPlanOut::PipeWrite(c), true, c + 1);
        let rest = spec_eval_stages(ps, i + 1, c, stage.1, out);
        (seq![SpecStep::MakePipe] + stage.0 + rest.0, rest.1)
    }
}

proof fn lemma_steps_view_add(a: Seq<Step>, b: Seq<Step>)
    ensures
        steps_view(a + b) == steps_view(a) + steps_view(b),
{
    assert(steps_view(a + b) =~= steps_view(a) + steps_view(b));
}

proof fn lemma_steps_view_push(s: Seq<Step>, x: Step)
    ensures
        steps_view(s.push(x)) == steps_view(s).push(x@),
{
    assert(steps_view(s.push(x)) =~= steps_view(s).push(x@));
}

/// After a push, the view of the suffix from `m` gains the new element.
proof fn lemma_skip_after_push(s: Seq<Step>, m: int, x: Step)
    requires
        0 <= m <= s.len(),
    ensures
        steps_view(s.push(x).skip(m)) == steps_view(s.skip(m)).push(x@),
        s.push(x).subrange(0, m) == s.subrange(0, m),
{
    assert(s.push(x).skip(m) =~= s.skip(m).push(x));
    lemma_steps_view_push(s.skip(m), x);
    assert(s.push(x).subrange(0, m) =~= s.subrange(0, m));
}

/// When `b` extends `a`, the suffix of `b` from `p` is the suffix of `a`
/// from `p` followed by what was appended.
proof fn lemma_view_grow(a: Seq<Step>, b: Seq<Step>, p: int)
    requires
        0 <= p <= a.len(),
        a.len() <= b.len(),
        b.subrange(0, a.len() as int) == a,
    ensures
        steps_view(b.skip(p)) == steps_view(a.skip(p)) + steps_view(b.skip(a.len() as int)),
        b.subrange(0, p) == a.subrange(0, p),
{
    assert forall|j: int| 0 <= j < a.len() implies b[j] == a[j] by {
        assert(b.subrange(0, a.len() as int)[j] == b[j]);
    }
    assert(b.skip(p) =~= a.skip(p) + b.skip(a.len() as int));
    lemma_steps_view_add(a.skip(p), b.skip(a.len() as int));
    assert(b.subrange(0, p) =~= a.subrange(0, p));
}

/// Compares a word with a literal.
fn word_is(w: &String, lit: &str) -> (r: bool)
    ensures
        r == (w@ == lit@),
{
    let l = lit.to_owned();
    *w == l
}

/// Copies a word list.
pub(crate) fn clone_words(ws: &Vec<String>) -> (r: Vec<String>)
    ensures
        r@ == ws@,
{
    let mut r: Vec<String> = Vec::new();
    let mut k: usize = 0;
    while k < ws.len()
        invariant
            k <= ws@.len(),
            r@ == ws@.subrange(0, k as int),
        decreases ws@.len() - k,
    {
        r.push(ws[k].clone());
        proof {
            assert(ws@.subrange(0, k as int + 1) =~= ws@.subrange(0, k as int).push(ws@[k as int]));
        }
        k = k + 1;
    }
    proof {
        assert(ws@.subrange(0, ws@.len() as int) =~= ws@);
    }
    r
}

/// Lowers a tree into plan steps, appended to `steps`. `np` is the next
/// free pipe-creation index; it advances by one for each `MakePipe` emitted.
fn eval_into(
    cmd: &Proc,
    input: &PlanIn,
    output: &PlanOut,
    non_block: bool,
    np: &mut usize,
    steps: &mut Vec<Step>,
)
    requires
        spec_wf(proc_view(*cmd)),
        *old(np) <= old(steps)@.len(),
    ensures
        old(steps)@.len() <= final(steps)@.len(),
        final(steps)@.subrange(0, old(steps)@.len() as int) == old(steps)@,
        ({
            let r = spec_eval(
                proc_view(*cmd),
                input@,
                output@,
                non_block,
                *old(np) as int,
            );
            &&& steps_view(final(steps)@.skip(old(steps)@.len() as int)) == r.0
            &&& *final(np) as int == r.1
        }),
        *final(np) <= final(steps)@.len(),
    decreases *cmd,
{
    let ghost pre = steps@;
    let ghost base = *np as int;
    match cmd {
        Proc::SubProc(cmd0) => {
            let ws: &Vec<String> = &cmd0.0;
            let bg = cmd0.1;
            let ghost wsv = words_view(ws@);
            proof {
                assert(steps@.subrange(0, pre.len() as int) =~= pre);
                assert(steps@.skip(pre.len() as int) =~= Seq::<Step>::empty());
                assert(steps_view(Seq::<Step>::empty()) =~= Seq::<SpecStep>::empty());
            }
            if ws.len() == 0 {
                // an empty command is a no-op
            } else if word_is(&ws[0], "exit") {
                if ws.len() <= 2 {
                    if ws.len() == 1 {
                        proof {
                            lemma_skip_after_push(steps@, pre.len() as int, Step::Exit(0));
                        }
                        steps.push(Step::Exit(0));
                        proof {
                            assert(steps_view(steps@.skip(pre.len() as int)) =~= seq![
                                SpecStep::Exit(0),
                            ]);
                        }
                    } else {
                        match crate::num::parse_i32(&ws[1]) {
                            Some(code) => {
                                proof {
                                    lemma_skip_after_push(steps@, pre.len() as int, Step::Exit(code));
                                }
                                steps.push(Step::Exit(code));
                                proof {
                                    assert(steps_view(steps@.skip(pre.len() as int)) =~= seq![
                                        SpecStep::Exit(code),
                                    ]);
                                }
                            },
                            None => {
                                proof {
                                    lemma_skip_after_push(steps@, pre.len() as int, Step::ExitBadArg);
                                }
                                steps.push(Step::ExitBadArg);
                                proof {
                                    assert(steps_view(steps@.skip(pre.len() as int)) =~= seq![
                                        SpecStep::ExitBadArg,
                                    ]);
                                }
                            },
                        }
                    }
                } else {
                    proof {
                        lemma_skip_after_push(steps@, pre.len() as int, Step::ExitBadArg);
                    }
                    steps.push(Step::ExitBadArg);
                    proof {
                        assert(steps_view(steps@.skip(pre.len() as int)) =~= seq![
                            SpecStep::ExitBadArg,
                        ]);
                    }
                }
            } else if word_is(&ws[0], "cd") && ws.len() <= 2 {
                if ws.len() == 2 {
                    let path = ws[1].clone();
                    proof {
                        lemma_skip_after_push(steps@, pre.len() as int, Step::Chdir(path));
                    }
                    steps.push(Step::Chdir(path));
                    proof {
                        assert(steps_view(steps@.skip(pre.len() as int)) =~= seq![
                            SpecStep::Chdir(wsv[1]),
                        ]);
                    }
                }
                // `cd` with no argument does nothing
            } else if word_is(&ws[0], "cz") {
                proof {
                    lemma_skip_after_push(steps@, pre.len() as int, Step::Reap);
                }
                steps.push(Step::Reap);
                proof {
                    assert(steps_view(steps@.skip(pre.len() as int)) =~= seq![SpecStep::Reap]);
                }
            } else {
                let args = clone_words(ws);
                let s0 = Step::Spawn(args, input.clone(), output.clone());
                proof {
                    lemma_skip_after_push(steps@, pre.len() as int, s0);
                }
                steps.push(s0);
                let s1 = Step::ReleaseIn(input.clone());
                proof {
                    lemma_skip_after_push(steps@, pre.len() as int, s1);
                }
                steps.push(s1);
                let s2 = Step::ReleaseOut(output.clone());
                proof {
                    lemma_skip_after_push(steps@, pre.len() as int, s2);
                }
                steps.push(s2);
                if !bg && !non_block {
                    proof {
                        lemma_skip_after_push(steps@, pre.len() as int, Step::WaitOne);
                    }
                    steps.push(Step::WaitOne);
                    proof {
                        assert(steps_view(steps@.skip(pre.len() as int)) =~= seq![
                            SpecStep::Spawn(wsv, input@, output@),
                            SpecStep::ReleaseIn(input@),
                            SpecStep::ReleaseOut(output@),
                        ] + seq![SpecStep::WaitOne]);
                    }
                } else {
                    proof {
                        assert(steps_view(steps@.skip(pre.len() as int)) =~= seq![
                            SpecStep::Spawn(wsv, input@, output@),
                            SpecStep::ReleaseIn(input@),
                            SpecStep::ReleaseOut(output@),
                        ]);
                    }
                }
            }
        },
        Proc::RRed(sub, path) => {
            let out2 = PlanOut::File(path.clone());
            proof {
                assert(decreases_to!(*cmd => cmd->RRed_0));
            }
            eval_into(sub, input, &out2, non_block, np, steps);
        },
        Proc::LRed(sub, path) => {
            let in2 = PlanIn::File(path.clone());
            proof {
                assert(decreases_to!(*cmd => cmd->LRed_0));
            }
            eval_into(sub, &in2, output, non_block, np, steps);
        },
        Proc::Pipe(ps) => {
            let ghost psv = procs_view(ps@);
            proof {
                crate::ast::lemma_procs_view(ps@);
                assert(proc_view(*cmd) == SpecProc::Pipeline(psv));
            }
            let n = ps.len();
            proof {
                assert(psv.len() >= 2);
            }
            // the pipe feeding stage 1
            proof {
                lemma_skip_after_push(steps@, pre.len() as int, Step::MakePipe);
            }
            steps.push(Step::MakePipe);
            let cap = steps.len();
            let mut rp: usize = *np;
            proof {
                assert(*np < cap);
            }
            *np = *np + 1;
            let ghost first = spec_eval(psv[0], input@, SpecPlanOut::PipeWrite(base), true, base + 1);
            let ghost mid0 = steps@;
            proof {
                assert(decreases_to!(*cmd => cmd->Pipe_0));
                assert(decreases_to!(*ps => ps@));
                assert(decreases_to!(ps@ => ps@[0int]));
                assert(decreases_to!(*cmd => ps@[0int]));
                assert(spec_wf(psv[0]));
            }
            eval_into(&ps[0], input, &PlanOut::PipeWrite(rp), true, np, steps);
            proof {
                lemma_view_grow(mid0, steps@, pre.len() as int);
                assert(steps_view(steps@.skip(pre.len() as int)) == seq![SpecStep::MakePipe]
                    + first.0);
                assert(*np as int == first.1);
            }
            let ghost target = spec_eval_stages(psv, 1, base, first.1, output@);
            let mut id: usize = 1;
            while id < n - 1
                invariant
                    *cmd == Proc::Pipe(*ps),
                    psv == procs_view(ps@),
                    psv.len() == ps@.len(),
                    forall|j: int| 0 <= j < ps@.len() ==> psv[j] == proc_view(ps@[j]),
                    spec_wf(proc_view(*cmd)),
                    n == ps@.len(),
                    2 <= n,
                    1 <= id <= n - 1,
                    pre.len() <= steps@.len(),
                    steps@.subrange(0, pre.len() as int) == pre,
                    *np <= steps@.len(),
                    target == spec_eval_stages(psv, 1, base, first.1, output@),
                    ({
                        let rem = spec_eval_stages(psv, id as int, rp as int, *np as int, output@);
                        &&& steps_view(steps@.skip(pre.len() as int)) + rem.0 == seq![
                            SpecStep::MakePipe,
                        ] + first.0 + target.0
                        &&& rem.1 == target.1
                    }),
                decreases n - id,
            {
                let ghost v_pre = steps_view(steps@.skip(pre.len() as int));
                proof {
                    lemma_skip_after_push(steps@, pre.len() as int, Step::MakePipe);
                }
                let ghost stage = spec_eval(
                    psv[id as int],
                    SpecPlanIn::PipeRead(rp as int),
                    SpecPlanOut::PipeWrite(*np as int),
                    true,
                    *np as int + 1,
                );
                steps.push(Step::MakePipe);
                let cap2 = steps.len();
                let npp = *np;
                proof {
                    assert(*np < cap2);
                }
                *np = *np + 1;
                let ghost mid = steps@;
                proof {
                    assert(decreases_to!(*cmd => cmd->Pipe_0));
                    assert(cmd->Pipe_0 == *ps);
                    assert(decreases_to!(*ps => ps@));
                    assert(decreases_to!(ps@ => ps@[id as int]));
                    assert(decreases_to!(*cmd => ps@[id as int]));
                    assert(spec_wf(psv[id as int]));
                }
                eval_into(&ps[id], &PlanIn::PipeRead(rp), &PlanOut::PipeWrite(npp), true, np, steps);
                proof {
                    lemma_view_grow(mid, steps@, pre.len() as int);
                    assert(steps_view(mid.skip(pre.len() as int)) == v_pre.push(
                        SpecStep::MakePipe,
                    ));
                    assert(steps_view(steps@.skip(pre.len() as int)) == v_pre.push(
                        SpecStep::MakePipe,
                    ) + stage.0);
                    let rem_new = spec_eval_stages(psv, id as int + 1, npp as int, *np as int, output@);
                    assert(spec_eval_stages(psv, id as int, rp as int, npp as int, output@) == (
                        seq![SpecStep::MakePipe] + stage.0 + rem_new.0,
                        rem_new.1,
                    ));
                    assert(v_pre + (seq![SpecStep::MakePipe] + stage.0 + rem_new.0) =~= (v_pre.push(
                        SpecStep::MakePipe,
                    ) + stage.0) + rem_new.0);
                }
                rp = npp;
                id = id + 1;
            }
            // last stage writes the pipeline's own output
            let ghost mid2 = steps@;
            let ghost last = spec_eval(
                psv[n - 1],
                SpecPlanIn::PipeRead(rp as int),
                output@,
                true,
                *np as int,
            );
            proof {
                assert(decreases_to!(*cmd => cmd->Pipe_0));
                assert(cmd->Pipe_0 == *ps);
                assert(decreases_to!(*ps => ps@));
                assert(decreases_to!(ps@ => ps@[n - 1]));
                assert(decreases_to!(*cmd => ps@[n - 1]));
                assert(spec_wf(psv[n - 1]));
                assert(spec_eval_stages(psv, n - 1, rp as int, *np as int, output@) == last);
            }
            eval_into(&ps[n - 1], &PlanIn::PipeRead(rp), output, true, np, steps);
            proof {
                lemma_view_grow(mid2, steps@, pre.len() as int);
                assert(steps_view(steps@.skip(pre.len() as int)) =~= seq![SpecStep::MakePipe]
                    + first.0 + target.0);
            }
            // reap one child per stage
            let mut w: usize = 0;
            while w < n
                invariant
                    n == ps@.len(),
                    pre.len() <= steps@.len(),
                    steps@.subrange(0, pre.len() as int) == pre,
                    *np <= steps@.len(),
                    w <= n,
                    steps_view(steps@.skip(pre.len() as int)) == seq![SpecStep::MakePipe] + first.0
                        + target.0 + spec_waits(w as int),
                    *np as int == target.1,
                decreases n - w,
            {
                proof {
                    lemma_skip_after_push(steps@, pre.len() as int, Step::WaitOne);
                    assert(spec_waits(w as int + 1) =~= spec_waits(w as int).push(
                        SpecStep::WaitOne,
                    ));
                }
                steps.push(Step::WaitOne);
                proof {
                    assert(steps_view(steps@.skip(pre.len() as int)) =~= seq![SpecStep::MakePipe]
                        + first.0 + target.0 + spec_waits(w as int + 1));
                }
                w = w + 1;
            }
            proof {
                let r = spec_eval(proc_view(*cmd), input@, output@, non_block, base);
                assert(r.0 == seq![SpecStep::MakePipe] + first.0 + target.0 + spec_waits(n as int));
                assert(r.1 == target.1);
            }
        },
    }
}

/// Lowers a tree into its execution plan: the ordered steps that evaluating
/// the tree performs, with the evaluation's own input and output as the
/// `Outer` channels and pipe indices counted from zero.
pub fn eval(cmd: &Proc, input: &PlanIn, output: &PlanOut, non_block: bool) -> (r: Vec<Step>)
    requires
        spec_wf(cmd@),
    ensures
        steps_view(r@) == spec_eval(cmd@, input@, output@, non_block, 0).0,
{
    let mut steps: Vec<Step> = Vec::new();
    let mut np: usize = 0;
    eval_into(cmd, input, output, non_block, &mut np, &mut steps);
    proof {
        assert(steps@.skip(0) =~= steps@);
    }
    steps
}

/// A plain external command: a stage the executor spawns, neither empty nor
/// a built-in.
pub open spec fn spec_external_cmd(p: SpecProc) -> bool {
    &&& p matches SpecProc::Sub(ws, _)
    &&& ws.len() > 0
    &&& ws[0] != "exit"@
    &&& ws[0] != "cd"@
    &&& ws[0] != "cz"@
}

/// The words of a pipeline stage.
pub open spec fn spec_stage_words(p: SpecProc) -> Seq<Seq<char>> {
    match p {
        SpecProc::Sub(ws, _) => ws,
        _ => Seq::empty(),
    }
}

/// Where, in the plan of an `m`-stage chain, the pipe before stage `t` is
/// made: each stage block is four steps long (its pipe, the spawn, and the
/// two releases), except the last, which makes no pipe.
pub open spec fn spec_pipe_pos(t: int) -> int {
    4 * t
}

/// Where, in the plan of an `m`-stage chain, stage `t` is spawned.
pub open spec fn spec_spawn_pos(t: int, m: int) -> int {
    if t < m - 1 {
        4 * t + 1
    } else {
        4 * t
    }
}

/// An external command spawned inside a pipeline (never waited for at its
/// own step) plans as exactly its spawn and the two releases.
proof fn lemma_external_stage(p: SpecProc, inp: SpecPlanIn, out: SpecPlanOut, c: int)
    requires
        spec_external_cmd(p),
    ensures
        spec_eval(p, inp, out, true, c) == (
            seq![
                SpecStep::Spawn(spec_stage_words(p), inp, out),
                SpecStep::ReleaseIn(inp),
                SpecStep::ReleaseOut(out),
            ],
            c,
        ),
{
}

proof fn lemma_stages_plan(ps: Seq<SpecProc>, i: int, rp: int, c: int, out: SpecPlanOut)
    requires
        1 <= i < ps.len(),
        forall|k: int| i <= k < ps.len() ==> spec_external_cmd(#[trigger] ps[k]),
    ensures
        ({
            let r = spec_eval_stages(ps, i, rp, c, out);
            let m = ps.len() - i;
            &&& r.1 == c + m - 1
            &&& r.0.len() == 4 * m - 1
            &&& (forall|t: int|
                0 <= t < m - 1 ==> r.0[#[trigger] spec_pipe_pos(t)] == SpecStep::MakePipe)
            &&& (forall|t: int|
                #![trigger spec_spawn_pos(t, m)]
                0 <= t < m ==> ({
                    let pos = spec_spawn_pos(t, m);
                    let win = if t == 0 {
                        SpecPlanIn::PipeRead(rp)
                    } else {
                        SpecPlanIn::PipeRead(c + t - 1)
                    };
                    let wout = if t < m - 1 {
                        SpecPlanOut::PipeWrite(c + t)
                    } else {
                        out
                    };
                    &&& r.0[pos] == SpecStep::Spawn(spec_stage_words(ps[i + t]), win, wout)
                    &&& r.0[pos + 1] == SpecStep::ReleaseIn(win)
                    &&& r.0[pos + 2] == SpecStep::ReleaseOut(wout)
                }))
        }),
    decreases ps.len() - i,
{
    let r = spec_eval_stages(ps, i, rp, c, out);
    let m = ps.len() - i;
    if i == ps.len() - 1 {
        assert(spec_external_cmd(ps[i]));
        lemma_external_stage(ps[i], SpecPlanIn::PipeRead(rp), out, c);
        assert(r.0.len() == 3);
        assert forall|t: int| #![trigger spec_spawn_pos(t, m)] 0 <= t < m implies ({
            let pos = spec_spawn_pos(t, m);
            let win = if t == 0 {
                SpecPlanIn::PipeRead(rp)
            } else {
                SpecPlanIn::PipeRead(c + t - 1)
            };
            let wout = if t < m - 1 {
                SpecPlanOut::PipeWrite(c + t)
            } else {
                out
            };
            &&& r.0[pos] == SpecStep::Spawn(spec_stage_words(ps[i + t]), win, wout)
            &&& r.0[pos + 1] == SpecStep::ReleaseIn(win)
            &&& r.0[pos + 2] == SpecStep::ReleaseOut(wout)
        }) by {
            assert(t == 0);
            assert(spec_spawn_pos(0, 1) == 0);
        }
    } else {
        let stage = spec_eval(ps[i], SpecPlanIn::PipeRead(rp), SpecPlanOut::PipeWrite(c), true, c + 1);
        assert(spec_external_cmd(ps[i]));
        lemma_external_stage(ps[i], SpecPlanIn::PipeRead(rp), SpecPlanOut::PipeWrite(c), c + 1);
        assert(stage.1 == c + 1);
        assert(stage.0.len() == 3);
        lemma_stages_plan(ps, i + 1, c, c + 1, out);
        let rest = spec_eval_stages(ps, i + 1, c, c + 1, out);
        assert(r.0 == seq![SpecStep::MakePipe] + stage.0 + rest.0);
        assert(r.0.len() == 4 + rest.0.len());
        assert forall|t: int| 0 <= t < m - 1 implies r.0[#[trigger] spec_pipe_pos(t)]
            == SpecStep::MakePipe by {
            if t == 0 {
                assert(r.0[0] == SpecStep::MakePipe);
            } else {
                assert(spec_pipe_pos(t - 1) == 4 * (t - 1));
                assert(r.0[4 * t] == rest.0[4 * (t - 1)]);
            }
        }
        assert forall|t: int| #![trigger spec_spawn_pos(t, m)] 0 <= t < m implies ({
            let pos = spec_spawn_pos(t, m);
            let win = if t == 0 {
                SpecPlanIn::PipeRead(rp)
            } else {
                SpecPlanIn::PipeRead(c + t - 1)
            };
            let wout = if t < m - 1 {
                SpecPlanOut::PipeWrite(c + t)
            } else {
                out
            };
            &&& r.0[pos] == SpecStep::Spawn(spec_stage_words(ps[i + t]), win, wout)
            &&& r.0[pos + 1] == SpecStep::ReleaseIn(win)
            &&& r.0[pos + 2] == SpecStep::ReleaseOut(wout)
        }) by {
            if t == 0 {
                assert(r.0[1] == stage.0[0]);
                assert(r.0[2] == stage.0[1]);
                assert(r.0[3] == stage.0[2]);
            } else {
                let t2 = t - 1;
                let m2 = m - 1;
                let pos2 = spec_spawn_pos(t2, m2);
                assert(spec_spawn_pos(t, m) == pos2 + 4);
                assert(r.0[pos2 + 4] == rest.0[pos2]);
                assert(r.0[pos2 + 5] == rest.0[pos2 + 1]);
                assert(r.0[pos2 + 6] == rest.0[pos2 + 2]);
            }
        }
    }
}

/// Law: the plan of a pure pipeline of external commands wires the stages as
/// a chain and leaves no pipe end open in the shell. For `n` stages it makes
/// exactly `n - 1` pipes, one before each stage but the last; stage `i` is
/// spawned reading the read end of pipe `i - 1` (stage 0 reads the
/// pipeline's own input) and writing the write end of pipe `i` (the last
/// stage writes the pipeline's own output); right after each spawn the shell
/// releases the two ends it still held for that child, so each pipe's write
/// end is released exactly once, after its writer, and each read end exactly
/// once, after its reader; no stage is waited for when spawned, and the plan
/// ends with exactly `n` reaping steps.
pub proof fn lemma_pipeline_plan(
    ps: Seq<SpecProc>,
    inp: SpecPlanIn,
    out: SpecPlanOut,
    non_block: bool,
    base: int,
)
    requires
        ps.len() >= 2,
        forall|k: int| 0 <= k < ps.len() ==> spec_external_cmd(#[trigger] ps[k]),
    ensures
        ({
            let r = spec_eval(SpecProc::Pipeline(ps), inp, out, non_block, base);
            let n = ps.len() as int;
            &&& r.1 == base + n - 1
            &&& r.0.len() == 5 * n - 1
            &&& (forall|i: int|
                0 <= i < n - 1 ==> r.0[#[trigger] spec_pipe_pos(i)] == SpecStep::MakePipe)
            &&& (forall|i: int|
                #![trigger spec_spawn_pos(i, n)]
                0 <= i < n ==> ({
                    let pos = spec_spawn_pos(i, n);
                    let win = if i == 0 {
                        inp
                    } else {
                        SpecPlanIn::PipeRead(base + i - 1)
                    };
                    let wout = if i < n - 1 {
                        SpecPlanOut::PipeWrite(base + i)
                    } else {
                        out
                    };
                    &&& r.0[pos] == SpecStep::Spawn(spec_stage_words(ps[i]), win, wout)
                    &&& r.0[pos + 1] == SpecStep::ReleaseIn(win)
                    &&& r.0[pos + 2] == SpecStep::ReleaseOut(wout)
                }))
            &&& (forall|j: int| 4 * n - 1 <= j < 5 * n - 1 ==> #[trigger] r.0[j] == SpecStep::WaitOne)
        }),
{
    let r = spec_eval(SpecProc::Pipeline(ps), inp, out, non_block, base);
    let n = ps.len() as int;
    let first = spec_eval(ps[0], inp, SpecPlanOut::PipeWrite(base), true, base + 1);
    assert(spec_external_cmd(ps[0]));
    lemma_external_stage(ps[0], inp, SpecPlanOut::PipeWrite(base), base + 1);
    assert(first.0.len() == 3);
    assert(first.1 == base + 1);
    lemma_stages_plan(ps, 1, base, base + 1, out);
    let rest = spec_eval_stages(ps, 1, base, base + 1, out);
    assert(r.0 == seq![SpecStep::MakePipe] + first.0 + rest.0 + spec_waits(n));
    assert(rest.0.len() == 4 * (n - 1) - 1);
    assert(spec_waits(n).len() == n);
    assert(r.0.len() == 5 * n - 1);
    assert forall|i: int| 0 <= i < n - 1 implies r.0[#[trigger] spec_pipe_pos(i)]
        == SpecStep::MakePipe by {
        if i == 0 {
            assert(r.0[0] == SpecStep::MakePipe);
        } else {
            assert(spec_pipe_pos(i - 1) == 4 * (i - 1));
            assert(r.0[4 * i] == rest.0[4 * (i - 1)]);
        }
    }
    assert forall|i: int| #![trigger spec_spawn_pos(i, n)] 0 <= i < n implies ({
        let pos = spec_spawn_pos(i, n);
        let win = if i == 0 {
            inp
        } else {
            SpecPlanIn::PipeRead(base + i - 1)
        };
        let wout = if i < n - 1 {
            SpecPlanOut::PipeWrite(base + i)
        } else {
            out
        };
        &&& r.0[pos] == SpecStep::Spawn(spec_stage_words(ps[i]), win, wout)
        &&& r.0[pos + 1] == SpecStep::ReleaseIn(win)
        &&& r.0[pos + 2] == SpecStep::ReleaseOut(wout)
    }) by {
        if i == 0 {
            assert(r.0[1] == first.0[0]);
            assert(r.0[2] == first.0[1]);
            assert(r.0[3] == first.0[2]);
        } else {
            let t = i - 1;
            let m = n - 1;
            let pos2 = spec_spawn_pos(t, m);
            assert(spec_spawn_pos(i, n) == pos2 + 4);
            assert(r.0[pos2 + 4] == rest.0[pos2]);
            assert(r.0[pos2 + 5] == rest.0[pos2 + 1]);
            assert(r.0[pos2 + 6] == rest.0[pos2 + 2]);
        }
    }
    assert forall|j: int| 4 * n - 1 <= j < 5 * n - 1 implies #[trigger] r.0[j]
        == SpecStep::WaitOne by {
        assert(r.0[j] == spec_waits(n)[j - (4 * n - 1)]);
    }
}

/// Checks the structural validity rule on a parsed tree: accepts a program
/// with no pipeline and at most one redirect per direction, or a pure
/// pipeline with no redirect at all and no empty stage; rejects any mixture,
/// a duplicate redirect direction, and an empty pipeline stage.
pub fn check_prog(cmd: &Proc) -> (r: Result<(), Interrupt>)
    ensures
        r is Ok <==> spec_valid(cmd@),
        r is Err ==> r->Err_0 is SyntaxError,
{
    let (pipes, routs, rins, ok) = scan_prog(cmd);
    if !ok || (pipes > 0 && (routs > 0 || rins > 0)) || routs > 1 || rins > 1 {
        Err(Interrupt::SyntaxError("Syntax error".to_owned()))
    } else {
        Ok(())
    }
}

} // verus!
