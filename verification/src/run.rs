//! Plan runtime: performs a plan's steps in order, in the shell's own
//! process, through the operating system — all but the forking of children,
//! which it hands to its caller as explicit spawn requests.
//!
//! The runtime stops at the first failing step, exactly as the recursive
//! evaluator stops at the first failing call.

use vstd::prelude::*;

use crate::ast::{words_view, SpecProc};
use crate::eval::{clone_words, steps_view, Input, Interrupt, Output, PlanIn, PlanOut, SpecPlanIn, SpecPlanOut, SpecStep, Step};

verus! {

/// Model of an `Input`.
pub enum SpecInput {
    Stdin,
    File(Seq<char>),
    Pipe((i32, i32)),
}

/// Model of an `Output`.
pub enum SpecOutput {
    Stdout,
    File(Seq<char>),
    Pipe((i32, i32)),
}

impl View for Input {
    type V = SpecInput;

    open spec fn view(&self) -> SpecInput {
        match self {
            Input::Stdin => SpecInput::Stdin,
            Input::File(p) => SpecInput::File(p@),
            Input::Pipefile(fd) => SpecInput::Pipe(*fd),
        }
    }
}

impl View for Output {
    type V = SpecOutput;

    open spec fn view(&self) -> SpecOutput {
        match self {
            Output::Stdout => SpecOutput::Stdout,
            Output::File(p) => SpecOutput::File(p@),
            Output::Pipefile(fd) => SpecOutput::Pipe(*fd),
        }
    }
}

/// What a planned input denotes once the plan runs: the outer input, a
/// file, or the read side of the pipe the plan created under that index.
pub open spec fn spec_resolve_in(
    pin: SpecPlanIn,
    outer: SpecInput,
    pipes: Seq<(i32, i32)>,
) -> SpecInput {
    match pin {
        SpecPlanIn::Outer => outer,
        SpecPlanIn::File(p) => SpecInput::File(p),
        SpecPlanIn::PipeRead(k) => SpecInput::Pipe(pipes[k]),
    }
}

/// What a planned output denotes once the plan runs.
pub open spec fn spec_resolve_out(
    pout: SpecPlanOut,
    outer: SpecOutput,
    pipes: Seq<(i32, i32)>,
) -> SpecOutput {
    match pout {
        SpecPlanOut::Outer => outer,
        SpecPlanOut::File(p) => SpecOutput::File(p),
        SpecPlanOut::PipeWrite(k) => SpecOutput::Pipe(pipes[k]),
    }
}

/// The shell-side descriptor a release-input step closes: the read end of
/// the pipe with the given index, the outer input's read end where that is
/// a pipe, and nothing for a file or the standard stream.
pub open spec fn spec_release_in_fd(
    pin: SpecPlanIn,
    outer: SpecInput,
    pipes: Seq<(i32, i32)>,
) -> Option<i32> {
    match pin {
        SpecPlanIn::Outer => match outer {
            SpecInput::Pipe(fd) => Some(fd.0),
            _ => None,
        },
        SpecPlanIn::File(_) => None,
        SpecPlanIn::PipeRead(k) => Some(pipes[k].0),
    }
}

/// The shell-side descriptor a release-output step closes: the write end of
/// the pipe with the given index, the outer output's write end where that
/// is a pipe, and nothing for a file or the standard stream.
pub open spec fn spec_release_out_fd(
    pout: SpecPlanOut,
    outer: SpecOutput,
    pipes: Seq<(i32, i32)>,
) -> Option<i32> {
    match pout {
        SpecPlanOut::Outer => match outer {
            SpecOutput::Pipe(fd) => Some(fd.1),
            _ => None,
        },
        SpecPlanOut::File(_) => None,
        SpecPlanOut::PipeWrite(k) => Some(pipes[k].1),
    }
}

/// Picks the descriptor a release-input step must close, if any.
fn release_in_fd(pin: &PlanIn, outer: &Input, pipes: &Vec<(i32, i32)>) -> (r: Option<i32>)
    requires
        pin matches PlanIn::PipeRead(k) ==> k < pipes@.len(),
    ensures
        r == spec_release_in_fd(pin@, outer@, pipes@),
{
    match pin {
        PlanIn::Outer => match outer {
            Input::Pipefile(fd) => Some(fd.0),
            _ => None,
        },
        PlanIn::File(_) => None,
        PlanIn::PipeRead(k) => Some(pipes[*k].0),
    }
}

/// Picks the descriptor a release-output step must close, if any.
fn release_out_fd(pout: &PlanOut, outer: &Output, pipes: &Vec<(i32, i32)>) -> (r: Option<i32>)
    requires
        pout matches PlanOut::PipeWrite(k) ==> k < pipes@.len(),
    ensures
        r == spec_release_out_fd(pout@, outer@, pipes@),
{
    match pout {
        PlanOut::Outer => match outer {
            Output::Pipefile(fd) => Some(fd.1),
            _ => None,
        },
        PlanOut::File(_) => None,
        PlanOut::PipeWrite(k) => Some(pipes[*k].1),
    }
}

/// How many pipes the first `steps` make.
pub open spec fn count_pipes_made(s: Seq<SpecStep>) -> int
    decreases s.len(),
{
    if s.len() == 0 {
        0
    } else {
        count_pipes_made(s.drop_last()) + if s.last() is MakePipe {
            1int
        } else {
            0int
        }
    }
}

/// Does a planned input only name pipes that exist yet?
pub open spec fn plan_in_ok(pin: SpecPlanIn, avail: int) -> bool {
    match pin {
        SpecPlanIn::PipeRead(k) => 0 <= k < avail,
        _ => true,
    }
}

/// Does a planned output only name pipes that exist yet?
pub open spec fn plan_out_ok(pout: SpecPlanOut, avail: int) -> bool {
    match pout {
        SpecPlanOut::PipeWrite(k) => 0 <= k < avail,
        _ => true,
    }
}

/// Does one step only name pipes that exist yet?
pub open spec fn step_ok(st: SpecStep, avail: int) -> bool {
    match st {
        SpecStep::Spawn(_, i, o) => plan_in_ok(i, avail) && plan_out_ok(o, avail),
        SpecStep::ReleaseIn(i) => plan_in_ok(i, avail),
        SpecStep::ReleaseOut(o) => plan_out_ok(o, avail),
        _ => true,
    }
}

/// Every step of the plan names only pipes made before it, counting the
/// `base` pipes that exist when the plan starts.
pub open spec fn plan_ok_from(s: Seq<SpecStep>, base: int) -> bool {
    forall|j: int| 0 <= j < s.len() ==> step_ok(#[trigger] s[j], base + count_pipes_made(s.take(j)))
}

/// A plan is coherent when every step names only pipes made before it.
pub open spec fn plan_ok(s: Seq<SpecStep>) -> bool {
    plan_ok_from(s, 0)
}

proof fn lemma_count_take_step(s: Seq<SpecStep>, j: int)
    requires
        0 <= j < s.len(),
    ensures
        count_pipes_made(s.take(j + 1)) == count_pipes_made(s.take(j)) + if s[j] is MakePipe {
            1int
        } else {
            0int
        },
{
    let t = s.take(j + 1);
    assert(t.drop_last() =~= s.take(j));
    assert(t.last() == s[j]);
}

proof fn lemma_count_add(a: Seq<SpecStep>, b: Seq<SpecStep>)
    ensures
        count_pipes_made(a + b) == count_pipes_made(a) + count_pipes_made(b),
    decreases b.len(),
{
    if b.len() == 0 {
        assert(a + b =~= a);
    } else {
        lemma_count_add(a, b.drop_last());
        assert((a + b).drop_last() =~= a + b.drop_last());
        assert((a + b).last() == b.last());
    }
}

proof fn lemma_count_no_pipes(s: Seq<SpecStep>)
    requires
        forall|j: int| 0 <= j < s.len() ==> !(#[trigger] s[j] is MakePipe),
    ensures
        count_pipes_made(s) == 0,
    decreases s.len(),
{
    if s.len() > 0 {
        lemma_count_no_pipes(s.drop_last());
    }
}

/// Plans compose: a coherent plan followed by one coherent over the pipes
/// both have made is coherent.
proof fn lemma_plan_ok_concat(a: Seq<SpecStep>, b: Seq<SpecStep>, base: int)
    requires
        plan_ok_from(a, base),
        plan_ok_from(b, base + count_pipes_made(a)),
    ensures
        plan_ok_from(a + b, base),
{
    assert forall|j: int| 0 <= j < (a + b).len() implies step_ok(
        #[trigger] (a + b)[j],
        base + count_pipes_made((a + b).take(j)),
    ) by {
        if j < a.len() {
            assert((a + b).take(j) =~= a.take(j));
            assert((a + b)[j] == a[j]);
        } else {
            let t = j - a.len();
            assert((a + b).take(j) =~= a + b.take(t));
            lemma_count_add(a, b.take(t));
            assert((a + b)[j] == b[t]);
        }
    }
}

/// The plan of one command makes no pipe and names only pipes that already
/// exist, wherever its own channels do.
proof fn lemma_cmd_plan_ok(
    ws: Seq<Seq<char>>,
    bg: bool,
    inp: SpecPlanIn,
    out: SpecPlanOut,
    non_block: bool,
    base: int,
)
    requires
        plan_in_ok(inp, base),
        plan_out_ok(out, base),
    ensures
        count_pipes_made(crate::eval::spec_eval_cmd(ws, bg, inp, out, non_block)) == 0,
        plan_ok_from(crate::eval::spec_eval_cmd(ws, bg, inp, out, non_block), base),
{
    let s = crate::eval::spec_eval_cmd(ws, bg, inp, out, non_block);
    assert(forall|j: int| 0 <= j < s.len() ==> !(#[trigger] s[j] is MakePipe));
    lemma_count_no_pipes(s);
    assert forall|j: int| 0 <= j < s.len() implies step_ok(
        #[trigger] s[j],
        base + count_pipes_made(s.take(j)),
    ) by {
        let t = s.take(j);
        assert(forall|m: int| 0 <= m < t.len() ==> !(#[trigger] t[m] is MakePipe));
        lemma_count_no_pipes(t);
    }
}

/// Law: every plan the evaluator emits is coherent — each step names only
/// pipes the plan has made before it — and the pipe counter it returns is
/// the starting counter plus the number of pipes the plan makes.
pub proof fn lemma_eval_plan_ok(
    p: SpecProc,
    inp: SpecPlanIn,
    out: SpecPlanOut,
    non_block: bool,
    base: int,
)
    requires
        plan_in_ok(inp, base),
        plan_out_ok(out, base),
        0 <= base,
    ensures
        ({
            let r = crate::eval::spec_eval(p, inp, out, non_block, base);
            &&& r.1 >= base
            &&& count_pipes_made(r.0) == r.1 - base
            &&& plan_ok_from(r.0, base)
        }),
    decreases p, 0int,
{
    let r = crate::eval::spec_eval(p, inp, out, non_block, base);
    match p {
        SpecProc::Sub(ws, bg) => {
            lemma_cmd_plan_ok(ws, bg, inp, out, non_block, base);
        },
        SpecProc::ROut(sub, path) => {
            lemma_eval_plan_ok(*sub, inp, SpecPlanOut::File(path), non_block, base);
        },
        SpecProc::RIn(sub, path) => {
            lemma_eval_plan_ok(*sub, SpecPlanIn::File(path), out, non_block, base);
        },
        SpecProc::Pipeline(ps) => {
            if ps.len() < 2 {
                assert(r.0 =~= Seq::<SpecStep>::empty());
                assert(plan_ok_from(r.0, base));
            } else {
                let mp = seq![SpecStep::MakePipe];
                let first = crate::eval::spec_eval(
                    ps[0],
                    inp,
                    SpecPlanOut::PipeWrite(base),
                    true,
                    base + 1,
                );
                lemma_eval_plan_ok(ps[0], inp, SpecPlanOut::PipeWrite(base), true, base + 1);
                let rest = crate::eval::spec_eval_stages(ps, 1, base, first.1, out);
                lemma_stages_plan_ok(ps, 1, base, first.1, out);
                assert(mp.len() == 1 && mp.last() == SpecStep::MakePipe);
                assert(mp.drop_last() =~= Seq::<SpecStep>::empty());
                assert(count_pipes_made(Seq::<SpecStep>::empty()) == 0);
                assert(count_pipes_made(mp) == 1);
                assert(plan_ok_from(mp, base)) by {
                    assert forall|j: int| 0 <= j < mp.len() implies step_ok(
                        #[trigger] mp[j],
                        base + count_pipes_made(mp.take(j)),
                    ) by {}
                }
                lemma_plan_ok_concat(mp, first.0, base);
                lemma_count_add(mp, first.0);
                lemma_plan_ok_concat(mp + first.0, rest.0, base);
                lemma_count_add(mp + first.0, rest.0);
                let w = crate::eval::spec_waits(ps.len() as int);
                assert(forall|j: int| 0 <= j < w.len() ==> #[trigger] w[j] == SpecStep::WaitOne);
                assert(plan_ok_from(w, base + count_pipes_made(mp + first.0 + rest.0)));
                lemma_plan_ok_concat(mp + first.0 + rest.0, w, base);
                lemma_count_no_pipes(w);
                lemma_count_add(mp + first.0 + rest.0, w);
                assert(r.0 == mp + first.0 + rest.0 + w);
            }
        },
    }
}

proof fn lemma_stages_plan_ok(ps: Seq<SpecProc>, i: int, rp: int, c: int, out: SpecPlanOut)
    requires
        1 <= i < ps.len(),
        0 <= rp < c,
        plan_out_ok(out, c),
    ensures
        ({
            let r = crate::eval::spec_eval_stages(ps, i, rp, c, out);
            &&& r.1 >= c
            &&& count_pipes_made(r.0) == r.1 - c
            &&& plan_ok_from(r.0, c)
        }),
    decreases ps, ps.len() - i,
{
    let r = crate::eval::spec_eval_stages(ps, i, rp, c, out);
    if i == ps.len() - 1 {
        lemma_eval_plan_ok(ps[i], SpecPlanIn::PipeRead(rp), out, true, c);
    } else {
        let mp = seq![SpecStep::MakePipe];
        let stage = crate::eval::spec_eval(
            ps[i],
            SpecPlanIn::PipeRead(rp),
            SpecPlanOut::PipeWrite(c),
            true,
            c + 1,
        );
        lemma_eval_plan_ok(ps[i], SpecPlanIn::PipeRead(rp), SpecPlanOut::PipeWrite(c), true, c + 1);
        let rest = crate::eval::spec_eval_stages(ps, i + 1, c, stage.1, out);
        lemma_stages_plan_ok(ps, i + 1, c, stage.1, out);
        assert(mp.len() == 1 && mp.last() == SpecStep::MakePipe);
        assert(mp.drop_last() =~= Seq::<SpecStep>::empty());
        assert(count_pipes_made(Seq::<SpecStep>::empty()) == 0);
        assert(count_pipes_made(mp) == 1);
        assert(plan_ok_from(mp, c)) by {
            assert forall|j: int| 0 <= j < mp.len() implies step_ok(
                #[trigger] mp[j],
                c + count_pipes_made(mp.take(j)),
            ) by {}
        }
        lemma_plan_ok_concat(mp, stage.0, c);
        lemma_count_add(mp, stage.0);
        lemma_plan_ok_concat(mp + stage.0, rest.0, c);
        lemma_count_add(mp + stage.0, rest.0);
        assert(r.0 == mp + stage.0 + rest.0);
    }
}

/// Relies on `nix::unistd::pipe`: creates a pipe and returns its
/// `(read, write)` descriptor pair, or reports the failure.
#[verifier::external_body]
fn pipe_wrap() -> (r: Result<(i32, i32), Interrupt>)
    ensures
        r is Err ==> r->Err_0 is ExecError,
{
    nix::unistd::pipe().map_err(
        |e: nix::errno::Errno| Interrupt::ExecError(format!("Cannot create pipe, {}", e.desc())),
    )
}

/// Relies on `nix::unistd::close`: closes one file descriptor, or reports
/// the failure.
#[verifier::external_body]
fn close_wrap(fd: i32) -> (r: Result<(), Interrupt>)
    ensures
        r is Err ==> r->Err_0 is ExecError,
{
    nix::unistd::close(fd).map_err(
        |e: nix::errno::Errno| Interrupt::ExecError(format!("Cannot close pipe, {}", e.desc())),
    )
}

/// Relies on `nix::sys::wait::wait`: blocks until one child changes state
/// and reaps it, or reports the failure (for one, that no child exists).
#[verifier::external_body]
fn wait_wrap() -> (r: Result<(), Interrupt>)
    ensures
        r is Err ==> r->Err_0 is ExecError,
{
    match nix::sys::wait::wait() {
        Ok(_) => Ok(()),
        Err(e) => Err(Interrupt::ExecError(format!("Cannot wait, {}", e.desc()))),
    }
}

/// Relies on `nix::unistd::chdir`: changes the working directory to the
/// named path, or reports the failure and leaves the directory unchanged.
#[verifier::external_body]
fn chdir_wrap(path: &String) -> (r: Result<(), Interrupt>)
    ensures
        r is Err ==> r->Err_0 is ExecError,
{
    nix::unistd::chdir(path.as_str()).map_err(
        |_: nix::errno::Errno| Interrupt::ExecError(format!("Cannot cd such file or directory")),
    )
}

/// Relies on `nix::sys::wait::waitpid` with `WNOHANG`: reaps every child
/// that has already terminated, without blocking, and tells whether at
/// least one was reaped.
#[verifier::external_body]
fn reap_all() -> (r: bool) {
    let mut got = false;
    loop {
        match nix::sys::wait::waitpid(None, Some(nix::sys::wait::WaitPidFlag::WNOHANG)) {
            Ok(nix::sys::wait::WaitStatus::StillAlive) => break,
            Ok(_) => got = true,
            Err(_) => break,
        }
    }
    got
}

/// A request to fork one child: its words, and the already-resolved input
/// and output it must wire onto its standard descriptors.
#[derive(Debug)]
pub struct SpawnReq {
    pub args: Vec<String>,
    pub input: Input,
    pub output: Output,
}

/// What one runtime step asks of the caller.
#[derive(Debug)]
pub enum StepResult {
    /// A step was performed; call `step` again.
    Running,
    /// The plan asks for a child: fork as requested, then call `step` again.
    Spawn(SpawnReq),
    /// The plan is complete.
    Done,
    /// The plan stopped early: an error, or the `exit` built-in.
    Stopped(Interrupt),
}

/// The state of one plan run: the steps, the position reached, the pipes
/// made so far in creation order, and the outer channels.
pub struct Runtime {
    steps: Vec<Step>,
    pc: usize,
    pipes: Vec<(i32, i32)>,
    input: Input,
    output: Output,
}

impl Runtime {
    #[verifier::type_invariant]
    closed spec fn inv(self) -> bool {
        &&& self.pc <= self.steps@.len()
        &&& plan_ok(steps_view(self.steps@))
        &&& self.pipes@.len() >= count_pipes_made(steps_view(self.steps@).take(self.pc as int))
    }

    /// The plan being run.
    pub closed spec fn steps_v(self) -> Seq<SpecStep> {
        steps_view(self.steps@)
    }

    /// The position reached: all steps before it were performed.
    pub closed spec fn pc_v(self) -> int {
        self.pc as int
    }

    /// The pipes made so far, in creation order.
    pub closed spec fn pipes_v(self) -> Seq<(i32, i32)> {
        self.pipes@
    }

    /// The outer input.
    pub closed spec fn in_v(self) -> SpecInput {
        self.input@
    }

    /// The outer output.
    pub closed spec fn out_v(self) -> SpecOutput {
        self.output@
    }

    /// Accepts a plan whose steps name only pipes made before them — every
    /// plan the evaluator emits is such — and readies it to run on the
    /// given outer channels.
    pub fn new(steps: Vec<Step>, input: Input, output: Output) -> (r: Option<Runtime>)
        ensures
            match r {
                Some(rt) => {
                    &&& rt.steps_v() == steps_view(steps@)
                    &&& rt.pc_v() == 0
                    &&& rt.pipes_v() == Seq::<(i32, i32)>::empty()
                    &&& rt.in_v() == input@
                    &&& rt.out_v() == output@
                    &&& plan_ok(steps_view(steps@))
                },
                None => !plan_ok(steps_view(steps@)),
            },
    {
        if !plan_refs_ok(&steps) {
            return None;
        }
        proof {
            assert(steps_view(steps@).take(0) =~= Seq::<SpecStep>::empty());
        }
        let rt = Runtime { steps, pc: 0, pipes: Vec::new(), input, output };
        Some(rt)
    }

    /// Performs the next step of the plan, or yields what the caller must
    /// do. Every failure is reported as `Stopped`, with the same error the
    /// recursive evaluator reported.
    pub fn step(&mut self) -> (r: StepResult)
        ensures
            final(self).steps_v() == old(self).steps_v(),
            final(self).in_v() == old(self).in_v(),
            final(self).out_v() == old(self).out_v(),
            old(self).pc_v() >= old(self).steps_v().len() ==> r is Done && final(self).pc_v()
                == old(self).pc_v() && final(self).pipes_v() == old(self).pipes_v(),
            old(self).pc_v() < old(self).steps_v().len() ==> ({
                let st = old(self).steps_v()[old(self).pc_v()];
                &&& !(r is Done)
                &&& (r is Running || r is Spawn ==> final(self).pc_v() == old(self).pc_v() + 1)
                &&& (!(st is MakePipe) && (r is Running || r is Spawn) ==> final(self).pipes_v()
                    == old(self).pipes_v())
                &&& (st is MakePipe ==> (r is Running || (r matches StepResult::Stopped(e) && e
                    is ExecError)) && (r is Running
                    ==> final(self).pipes_v().len() == old(self).pipes_v().len() + 1
                        && final(self).pipes_v().drop_last() == old(self).pipes_v()))
                &&& (st matches SpecStep::Spawn(ws, pin, pout) ==> (r matches StepResult::Spawn(
                    req,
                ) && words_view(req.args@) == ws && req.input@ == spec_resolve_in(
                    pin,
                    old(self).in_v(),
                    old(self).pipes_v(),
                ) && req.output@ == spec_resolve_out(pout, old(self).out_v(), old(self).pipes_v())))
                &&& (st is ReleaseIn || st is ReleaseOut || st is WaitOne || st is Chdir || st
                    is Reap ==> (r is Running || (r matches StepResult::Stopped(e) && e
                        is ExecError)))
                &&& (st matches SpecStep::ReleaseIn(pin) ==> (spec_release_in_fd(
                    pin,
                    old(self).in_v(),
                    old(self).pipes_v(),
                ) is None ==> r is Running))
                &&& (st matches SpecStep::ReleaseOut(pout) ==> (spec_release_out_fd(
                    pout,
                    old(self).out_v(),
                    old(self).pipes_v(),
                ) is None ==> r is Running))
                &&& (st matches SpecStep::Exit(c) ==> (r matches StepResult::Stopped(e) && e
                    == Interrupt::Exit(c)))
                &&& (st is ExitBadArg ==> (r matches StepResult::Stopped(e) && e is SyntaxError))
            }),
    {
        proof {
            use_type_invariant(&*self);
        }
        let ghost s = steps_view(self.steps@);
        if self.pc >= self.steps.len() {
            return StepResult::Done;
        }
        let pc = self.pc;
        proof {
            assert(step_ok(s[pc as int], count_pipes_made(s.take(pc as int))));
            assert(s[pc as int] == self.steps@[pc as int]@);
            lemma_count_take_step(s, pc as int);
        }
        match &self.steps[pc] {
            Step::MakePipe => {
                match pipe_wrap() {
                    Ok(fd) => {
                        // take the state apart, so that the new pipe and the
                        // new position appear together
                        let mut tmp = Runtime {
                            steps: Vec::new(),
                            pc: 0,
                            pipes: Vec::new(),
                            input: Input::Stdin,
                            output: Output::Stdout,
                        };
                        core::mem::swap(&mut tmp, self);
                        let Runtime { steps, pc: _, mut pipes, input, output } = tmp;
                        pipes.push(fd);
                        let rt = Runtime { steps, pc: pc + 1, pipes, input, output };
                        *self = rt;
                        StepResult::Running
                    },
                    Err(e) => StepResult::Stopped(e),
                }
            },
            Step::Spawn(args, pin, pout) => {
                let a = clone_words(args);
                let ri: Input = match pin {
                    PlanIn::Outer => self.input.clone(),
                    PlanIn::File(p) => Input::File(p.clone()),
                    PlanIn::PipeRead(k) => Input::Pipefile(self.pipes[*k]),
                };
                let ro: Output = match pout {
                    PlanOut::Outer => self.output.clone(),
                    PlanOut::File(p) => Output::File(p.clone()),
                    PlanOut::PipeWrite(k) => Output::Pipefile(self.pipes[*k]),
                };
                self.pc = pc + 1;
                StepResult::Spawn(SpawnReq { args: a, input: ri, output: ro })
            },
            Step::ReleaseIn(pin) => {
                let res: Result<(), Interrupt> = match release_in_fd(pin, &self.input, &self.pipes) {
                    Some(fd) => close_wrap(fd),
                    None => Ok(()),
                };
                match res {
                    Ok(_) => {
                        self.pc = pc + 1;
                        StepResult::Running
                    },
                    Err(e) => StepResult::Stopped(e),
                }
            },
            Step::ReleaseOut(pout) => {
                let res: Result<(), Interrupt> = match release_out_fd(
                    pout,
                    &self.output,
                    &self.pipes,
                ) {
                    Some(fd) => close_wrap(fd),
                    None => Ok(()),
                };
                match res {
                    Ok(_) => {
                        self.pc = pc + 1;
                        StepResult::Running
                    },
                    Err(e) => StepResult::Stopped(e),
                }
            },
            Step::WaitOne => {
                match wait_wrap() {
                    Ok(_) => {
                        self.pc = pc + 1;
                        StepResult::Running
                    },
                    Err(e) => StepResult::Stopped(e),
                }
            },
            Step::Exit(code) => StepResult::Stopped(Interrupt::Exit(*code)),
            Step::ExitBadArg => StepResult::Stopped(
                Interrupt::SyntaxError("Syntax error".to_owned()),
            ),
            Step::Chdir(path) => {
                match chdir_wrap(path) {
                    Ok(_) => {
                        self.pc = pc + 1;
                        StepResult::Running
                    },
                    Err(e) => StepResult::Stopped(e),
                }
            },
            Step::Reap => {
                if reap_all() {
                    self.pc = pc + 1;
                    StepResult::Running
                } else {
                    StepResult::Stopped(Interrupt::ExecError("No child process found".to_owned()))
                }
            },
        }
    }
}

/// One descriptor action a spawned child performs, in order, before it
/// replaces its process image.
#[derive(Debug, PartialEq)]
pub enum FdAction {
    /// Open the named file truncate-create-write and duplicate it onto
    /// standard output.
    OpenOutput(String),
    /// Open the named file read-only and duplicate it onto standard input.
    OpenInput(String),
    /// Close this descriptor.
    Close(i32),
    /// Duplicate this descriptor onto standard output.
    DupToStdout(i32),
    /// Duplicate this descriptor onto standard input.
    DupToStdin(i32),
}

/// The descriptor actions of a child: the output is wired first, then the
/// input. A child writing a pipe first closes the read end it inherited; a
/// child reading a pipe keeps no write end of it (the shell closes its own
/// copies through the plan's release steps).
pub open spec fn spec_child_actions(input: Input, output: Output) -> Seq<FdAction> {
    (match output {
        Output::Stdout => Seq::<FdAction>::empty(),
        Output::File(p) => seq![FdAction::OpenOutput(p)],
        Output::Pipefile(fd) => seq![FdAction::Close(fd.0), FdAction::DupToStdout(fd.1)],
    }) + (match input {
        Input::Stdin => Seq::<FdAction>::empty(),
        Input::File(p) => seq![FdAction::OpenInput(p)],
        Input::Pipefile(fd) => seq![FdAction::DupToStdin(fd.0)],
    })
}

/// Lists the descriptor actions a spawned child must perform for a resolved
/// input and output, in order.
pub fn child_actions(input: &Input, output: &Output) -> (r: Vec<FdAction>)
    ensures
        r@ == spec_child_actions(*input, *output),
{
    let mut r: Vec<FdAction> = Vec::new();
    match output {
        Output::Stdout => {},
        Output::File(p) => {
            r.push(FdAction::OpenOutput(p.clone()));
        },
        Output::Pipefile(fd) => {
            r.push(FdAction::Close(fd.0));
            r.push(FdAction::DupToStdout(fd.1));
        },
    }
    match input {
        Input::Stdin => {},
        Input::File(p) => {
            r.push(FdAction::OpenInput(p.clone()));
        },
        Input::Pipefile(fd) => {
            r.push(FdAction::DupToStdin(fd.0));
        },
    }
    proof {
        assert(r@ =~= spec_child_actions(*input, *output));
    }
    r
}

/// Checks that every step of a plan names only pipes made before it.
fn plan_refs_ok(steps: &Vec<Step>) -> (r: bool)
    ensures
        r == plan_ok(steps_view(steps@)),
{
    let ghost s = steps_view(steps@);
    let mut made: usize = 0;
    let mut j: usize = 0;
    while j < steps.len()
        invariant
            j <= steps@.len(),
            s == steps_view(steps@),
            s.len() == steps@.len(),
            made as int == count_pipes_made(s.take(j as int)),
            made <= j,
            forall|m: int| 0 <= m < j ==> step_ok(#[trigger] s[m], count_pipes_made(s.take(m))),
        decreases steps@.len() - j,
    {
        proof {
            assert(s[j as int] == steps@[j as int]@);
            lemma_count_take_step(s, j as int);
        }
        let ok = match &steps[j] {
            Step::MakePipe => true,
            Step::Spawn(_, pin, pout) => {
                let iok = match pin {
                    PlanIn::PipeRead(k) => *k < made,
                    _ => true,
                };
                let ook = match pout {
                    PlanOut::PipeWrite(k) => *k < made,
                    _ => true,
                };
                iok && ook
            },
            Step::ReleaseIn(pin) => {
                match pin {
                    PlanIn::PipeRead(k) => *k < made,
                    _ => true,
                }
            },
            Step::ReleaseOut(pout) => {
                match pout {
                    PlanOut::PipeWrite(k) => *k < made,
                    _ => true,
                }
            },
            _ => true,
        };
        if !ok {
            return false;
        }
        let is_pipe = match &steps[j] {
            Step::MakePipe => true,
            _ => false,
        };
        if is_pipe {
            made = made + 1;
        }
        j = j + 1;
    }
    proof {
        assert(s.take(s.len() as int) =~= s);
    }
    true
}

} // verus!
