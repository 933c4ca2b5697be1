use vstd::prelude::*;

use crate::args_parser::{lemma_strings_view_push, strings_view};
use crate::interpreter::{
    builtin_of, find_builtin, find_shell_command, same_text, shell_command_of, Builtin, ShellCommand,
};

verus! {

/// The token that separates the stages of a pipeline.
pub open spec fn is_pipe(t: Seq<char>) -> bool {
    t == "|"@
}

/// The arguments split at each `|` token; `n` separators give `n + 1` stages, some possibly empty.
pub open spec fn split_on_pipes(argv: Seq<Seq<char>>) -> Seq<Seq<Seq<char>>>
    decreases argv.len(),
{
    if argv.len() == 0 {
        seq![Seq::empty()]
    } else {
        let r = split_on_pipes(argv.drop_last());
        if is_pipe(argv.last()) {
            r.push(Seq::empty())
        } else {
            r.update(r.len() - 1, r.last().push(argv.last()))
        }
    }
}

pub proof fn lemma_split_nonempty(argv: Seq<Seq<char>>)
    ensures
        split_on_pipes(argv).len() >= 1,
    decreases argv.len(),
{
    if argv.len() > 0 {
        lemma_split_nonempty(argv.drop_last());
    }
}

/// The views of a vector of argument vectors.
pub open spec fn stages_view(v: Seq<Vec<String>>) -> Seq<Seq<Seq<char>>> {
    v.map_values(|st: Vec<String>| strings_view(st@))
}

/// A copy of a vector of strings.
pub fn copy_strings(v: &Vec<String>) -> (r: Vec<String>)
    ensures
        strings_view(r@) == strings_view(v@),
{
    let mut r: Vec<String> = Vec::new();
    let mut i: usize = 0;
    while i < v.len()
        invariant
            i <= v@.len(),
            strings_view(r@) == strings_view(v@).take(i as int),
        decreases v@.len() - i,
    {
        let ghost before = r@;
        r.push(v[i].clone());
        proof {
            lemma_strings_view_push(before, v@[i as int]);
            assert(strings_view(r@) =~= strings_view(v@).take(i + 1));
        }
        i = i + 1;
    }
    assert(strings_view(v@).take(i as int) =~= strings_view(v@));
    r
}

/// The stages of a command line, or `None` when a stage is empty (as around two adjacent `|`).
pub fn split_stages(argv: &Vec<String>) -> (r: Option<Vec<Vec<String>>>)
    ensures
        r is None <==> exists|k: int|
            0 <= k < split_on_pipes(strings_view(argv@)).len()
                && #[trigger] split_on_pipes(strings_view(argv@))[k].len() == 0,
        r matches Some(st) ==> stages_view(st@) == split_on_pipes(strings_view(argv@)),
{
    let ghost args = strings_view(argv@);
    let mut stages: Vec<Vec<String>> = Vec::new();
    let mut current: Vec<String> = Vec::new();
    let mut i: usize = 0;
    assert(args.take(0) =~= Seq::<Seq<char>>::empty());
    assert(strings_view(current@) =~= Seq::<Seq<char>>::empty());
    assert(stages_view(stages@).push(strings_view(current@)) =~= split_on_pipes(args.take(0)));
    while i < argv.len()
        invariant
            args == strings_view(argv@),
            i <= argv@.len(),
            stages_view(stages@).push(strings_view(current@)) == split_on_pipes(args.take(i as int)),
        decreases argv@.len() - i,
    {
        proof {
            assert(args.take(i + 1).drop_last() =~= args.take(i as int));
            lemma_split_nonempty(args.take(i as int));
            assert(args.take(i + 1).last() == argv@[i as int]@);
        }
        let ghost old_stages = stages@;
        let ghost old_current = current@;
        if same_text(argv[i].as_str(), "|") {
            let done = current;
            stages.push(done);
            current = Vec::new();
            proof {
                assert(stages_view(stages@) =~= stages_view(old_stages).push(strings_view(old_current)));
                assert(strings_view(current@) =~= Seq::<Seq<char>>::empty());
                assert(stages_view(stages@).push(strings_view(current@)) =~= split_on_pipes(
                    args.take(i + 1),
                ));
            }
        } else {
            current.push(argv[i].clone());
            proof {
                lemma_strings_view_push(old_current, argv@[i as int]);
                assert(stages_view(stages@).push(strings_view(current@)) =~= split_on_pipes(
                    args.take(i + 1),
                ));
            }
        }
        i = i + 1;
    }
    let ghost old_stages = stages@;
    let ghost old_current = current@;
    stages.push(current);
    proof {
        assert(args.take(i as int) =~= args);
        assert(stages_view(stages@) =~= stages_view(old_stages).push(strings_view(old_current)));
    }
    let ghost all = split_on_pipes(args);
    let mut k: usize = 0;
    while k < stages.len()
        invariant
            stages_view(stages@) == all,
            all == split_on_pipes(strings_view(argv@)),
            k <= stages@.len(),
            forall|a: int| 0 <= a < k ==> #[trigger] all[a].len() > 0,
        decreases stages@.len() - k,
    {
        assert(stages_view(stages@)[k as int] == strings_view(stages@[k as int]@));
        if stages[k].len() == 0 {
            assert(split_on_pipes(strings_view(argv@))[k as int].len() == 0);
            return None;
        }
        k = k + 1;
    }
    Some(stages)
}

/// What a stage runs: an executable found on the search path, or a builtin.
#[derive(PartialEq, Eq, Debug)]
pub enum Program {
    External(String),
    Builtin(Builtin),
}

/// How a stage's command resolves: the executable found for it first, else a builtin of that name.
pub open spec fn resolution(exe: Option<String>, name: Seq<char>) -> Option<Program> {
    match exe {
        Some(p) => Some(Program::External(p)),
        None => match builtin_of(name) {
            Some(b) => Some(Program::Builtin(b)),
            None => None,
        },
    }
}

/// One child to spawn: what it runs, its arguments, and the pipes wired to its standard input
/// (the read end) and standard output (the write end).
pub struct StagePlan {
    pub program: Program,
    pub argv: Vec<String>,
    pub stdin_pipe: Option<usize>,
    pub stdout_pipe: Option<usize>,
}

/// The children of one command line. `stage_count - 1` pipes connect its stages; the first
/// `stages.len()` stages resolved and are spawned. `complete` is false when a later stage did not
/// resolve: the line then counts as not handled.
pub struct SpawnPlan {
    pub stage_count: usize,
    pub stages: Vec<StagePlan>,
    pub complete: bool,
}

/// What to do with a command line.
pub enum Plan {
    /// Nothing runs; the command is reported as not found.
    NotFound,
    /// The shell command runs in the shell process with these arguments.
    InParent(ShellCommand, Vec<String>),
    /// Children are spawned.
    Spawn(SpawnPlan),
}

/// Stage `i` of `k` reads from pipe `i - 1` unless it is the first.
pub open spec fn stdin_pipe_of(i: int) -> Option<usize> {
    if i > 0 {
        Some((i - 1) as usize)
    } else {
        None
    }
}

/// Stage `i` of `k` writes to pipe `i` unless it is the last.
pub open spec fn stdout_pipe_of(i: int, k: int) -> Option<usize> {
    if i < k - 1 {
        Some(i as usize)
    } else {
        None
    }
}

/// `plan` spawns the stages of `stages` in order, each resolved by `exes`, up to the first one that
/// does not resolve.
pub open spec fn spawns_stages(plan: SpawnPlan, stages: Seq<Seq<Seq<char>>>, exes: Seq<Option<String>>) -> bool {
    let m = plan.stages@.len();
    &&& plan.stage_count == stages.len()
    &&& m <= stages.len()
    &&& plan.complete == (m == stages.len())
    &&& forall|i: int| 0 <= i < m ==> {
        let st = #[trigger] plan.stages@[i];
        &&& resolution(exes[i], stages[i][0]) == Some(st.program)
        &&& strings_view(st.argv@) == stages[i]
        &&& st.stdin_pipe == stdin_pipe_of(i)
        &&& st.stdout_pipe == stdout_pipe_of(i, stages.len() as int)
    }
    &&& m < stages.len() ==> resolution(exes[m as int], stages[m as int][0]) is None
}

fn resolve(exe: &Option<String>, name: &str) -> (r: Option<Program>)
    ensures
        r == resolution(*exe, name@),
{
    match exe {
        Some(p) => Some(Program::External(p.clone())),
        None => match find_builtin(name) {
            Some(b) => Some(Program::Builtin(b)),
            None => None,
        },
    }
}

/// Decides how to run the command line whose stages are `stages`, `cmd` being its first word and
/// `exes[i]` the executable that the search path gives for the first word of stage `i`. One stage
/// runs as a shell command, else as an executable, else as a builtin; several stages are
/// connected by pipes and resolve as executables or builtins.
pub fn plan_command(cmd: &str, stages: &Vec<Vec<String>>, exes: &Vec<Option<String>>) -> (r: Plan)
    requires
        stages@.len() >= 1,
        exes@.len() == stages@.len(),
        forall|i: int| 0 <= i < stages@.len() ==> #[trigger] stages@[i]@.len() > 0,
    ensures
        stages@.len() == 1 ==> match shell_command_of(cmd@) {
            Some(sc) => (r matches Plan::InParent(c, args) && c == sc && strings_view(args@)
                == strings_view(stages@[0]@).skip(1)),
            None => match resolution(exes@[0], cmd@) {
                None => r is NotFound,
                Some(p) => (r matches Plan::Spawn(sp) && sp.complete && sp.stage_count == 1
                    && sp.stages@.len() == 1 && sp.stages@[0].program == p && strings_view(
                    sp.stages@[0].argv@,
                ) == strings_view(stages@[0]@) && sp.stages@[0].stdin_pipe is None
                    && sp.stages@[0].stdout_pipe is None),
            },
        },
        stages@.len() > 1 ==> (r matches Plan::Spawn(sp) && spawns_stages(
            sp,
            stages_view(stages@),
            exes@,
        )),
{
    let k = stages.len();
    if k == 1 {
        match find_shell_command(cmd) {
            Some(sc) => {
                let all = &stages[0];
                let mut args: Vec<String> = Vec::new();
                let mut i: usize = 1;
                while i < all.len()
                    invariant
                        1 <= i <= all@.len(),
                        strings_view(args@) == strings_view(all@).subrange(1, i as int),
                    decreases all@.len() - i,
                {
                    let ghost before = args@;
                    args.push(all[i].clone());
                    proof {
                        lemma_strings_view_push(before, all@[i as int]);
                    }
                    assert(strings_view(args@) =~= strings_view(all@).subrange(1, i + 1));
                    i = i + 1;
                }
                assert(strings_view(all@).subrange(1, i as int) =~= strings_view(all@).skip(1));
                return Plan::InParent(sc, args);
            },
            None => {},
        }
        match resolve(&exes[0], cmd) {
            None => {
                return Plan::NotFound;
            },
            Some(p) => {
                let st = StagePlan {
                    program: p,
                    argv: copy_strings(&stages[0]),
                    stdin_pipe: None,
                    stdout_pipe: None,
                };
                let mut v: Vec<StagePlan> = Vec::new();
                v.push(st);
                return Plan::Spawn(SpawnPlan { stage_count: 1, stages: v, complete: true });
            },
        }
    }
    let ghost sv = stages_view(stages@);
    let mut planned: Vec<StagePlan> = Vec::new();
    let mut i: usize = 0;
    while i < k
        invariant
            k == stages@.len(),
            k > 1,
            exes@.len() == k,
            sv == stages_view(stages@),
            forall|a: int| 0 <= a < k ==> #[trigger] stages@[a]@.len() > 0,
            i <= k,
            planned@.len() == i,
            forall|a: int| 0 <= a < i ==> {
                let st = #[trigger] planned@[a];
                &&& resolution(exes@[a], sv[a][0]) == Some(st.program)
                &&& strings_view(st.argv@) == sv[a]
                &&& st.stdin_pipe == stdin_pipe_of(a)
                &&& st.stdout_pipe == stdout_pipe_of(a, k as int)
            },
        decreases k - i,
    {
        let stage = &stages[i];
        assert(stage@.len() > 0);
        match resolve(&exes[i], stage[0].as_str()) {
            None => {
                let sp = SpawnPlan { stage_count: k, stages: planned, complete: false };
                return Plan::Spawn(sp);
            },
            Some(p) => {
                let stdin_pipe = if i > 0 {
                    Some(i - 1)
                } else {
                    None
                };
                let stdout_pipe = if i < k - 1 {
                    Some(i)
                } else {
                    None
                };
                let st = StagePlan { program: p, argv: copy_strings(stage), stdin_pipe, stdout_pipe };
                planned.push(st);
            },
        }
        i = i + 1;
    }
    Plan::Spawn(SpawnPlan { stage_count: k, stages: planned, complete: true })
}


/// One step of the shell process while it runs a plan. Pipes are numbered in creation order.
#[derive(PartialEq, Eq, Structural, Clone, Copy, Debug)]
pub enum ParentOp {
    CreatePipe,
    /// Spawn the child of the stage with this index.
    Spawn(usize),
    CloseRead(usize),
    CloseWrite(usize),
    /// Wait for the child of the stage with this index, if it was spawned.
    Wait(usize),
}

/// The steps of the shell process: create all pipes, spawn the planned children in order, close
/// both ends of every pipe, then, when every stage was spawned, wait for each child in spawn order.
pub open spec fn parent_ops_spec(pipes: nat, spawned: nat, complete: bool) -> Seq<ParentOp> {
    let creates = Seq::new(pipes, |i: int| ParentOp::CreatePipe);
    let spawns = Seq::new(spawned, |i: int| ParentOp::Spawn(i as usize));
    let closes = Seq::new(
        2 * pipes,
        |i: int|
            if i % 2 == 0 {
                ParentOp::CloseRead((i / 2) as usize)
            } else {
                ParentOp::CloseWrite((i / 2) as usize)
            },
    );
    let waits = if complete {
        Seq::new(spawned, |i: int| ParentOp::Wait(i as usize))
    } else {
        Seq::empty()
    };
    creates + spawns + closes + waits
}

impl SpawnPlan {
    /// The steps the shell process takes to run this plan; the line is handled when `complete`.
    pub fn parent_ops(&self) -> (ops: Vec<ParentOp>)
        requires
            self.stage_count >= 1,
            self.stages@.len() <= self.stage_count,
        ensures
            ops@ == parent_ops_spec(
                (self.stage_count - 1) as nat,
                self.stages@.len(),
                self.complete,
            ),
    {
        let pipes = self.stage_count - 1;
        let m = self.stages.len();
        let ghost target = parent_ops_spec(pipes as nat, m as nat, self.complete);
        let mut ops: Vec<ParentOp> = Vec::new();
        let mut i: usize = 0;
        while i < pipes
            invariant
                i <= pipes,
                ops@ == target.take(i as int),
                target == parent_ops_spec(pipes as nat, m as nat, self.complete),
            decreases pipes - i,
        {
            ops.push(ParentOp::CreatePipe);
            assert(ops@ =~= target.take(i + 1));
            i = i + 1;
        }
        let mut j: usize = 0;
        while j < m
            invariant
                j <= m,
                ops@ == target.take(pipes + j),
                target == parent_ops_spec(pipes as nat, m as nat, self.complete),
            decreases m - j,
        {
            ops.push(ParentOp::Spawn(j));
            assert(ops@ =~= target.take(pipes + j + 1));
            j = j + 1;
        }
        let mut p: usize = 0;
        while p < pipes
            invariant
                p <= pipes,
                pipes < usize::MAX,
                ops@ == target.take(pipes + m + 2 * p),
                target == parent_ops_spec(pipes as nat, m as nat, self.complete),
            decreases pipes - p,
        {
            ops.push(ParentOp::CloseRead(p));
            ops.push(ParentOp::CloseWrite(p));
            assert(ops@ =~= target.take(pipes + m + 2 * p + 2)) by {
                assert((2 * p) % 2 == 0 && (2 * p) / 2 == p) by (nonlinear_arith);
                assert((2 * p + 1) % 2 == 1 && (2 * p + 1) / 2 == p) by (nonlinear_arith);
            }
            p = p + 1;
        }
        if self.complete {
            let mut w: usize = 0;
            while w < m
                invariant
                    w <= m,
                    self.complete,
                    ops@ == target.take(pipes + m + 2 * pipes + w),
                    target == parent_ops_spec(pipes as nat, m as nat, self.complete),
                decreases m - w,
            {
                ops.push(ParentOp::Wait(w));
                assert(ops@ =~= target.take(pipes + m + 2 * pipes + w + 1));
                w = w + 1;
            }
        }
        assert(ops@ =~= target);
        ops
    }
}

/// Step `i` of `ops` closes the read end of pipe `p`.
pub open spec fn closes_read(ops: Seq<ParentOp>, i: int, p: int) -> bool {
    0 <= i < ops.len() && ops[i] == ParentOp::CloseRead(p as usize)
}

/// Step `i` of `ops` closes the write end of pipe `p`.
pub open spec fn closes_write(ops: Seq<ParentOp>, i: int, p: int) -> bool {
    0 <= i < ops.len() && ops[i] == ParentOp::CloseWrite(p as usize)
}

/// Some step of `ops` closes the read end of pipe `p`.
pub open spec fn read_end_closed(ops: Seq<ParentOp>, p: int) -> bool {
    exists|i: int| #[trigger] closes_read(ops, i, p)
}

/// Some step of `ops` closes the write end of pipe `p`.
pub open spec fn write_end_closed(ops: Seq<ParentOp>, p: int) -> bool {
    exists|i: int| #[trigger] closes_write(ops, i, p)
}

pub open spec fn is_close(op: ParentOp) -> bool {
    op is CloseRead || op is CloseWrite
}

/// For a line of `k` stages of which `m` were spawned (all of them when the line is complete), the
/// shell process creates exactly `k - 1` pipes, before anything else, and closes each end of each
/// of them exactly once, after every pipe is created and every child spawned, whether the line
/// completed or was cut short; it waits for children only after that.
pub proof fn lemma_every_pipe_closed(k: nat, m: nat, complete: bool)
    requires
        1 <= k <= usize::MAX,
        m <= k,
        complete ==> m == k,
    ensures
        ({
            let ops = parent_ops_spec((k - 1) as nat, m, complete);
            &&& forall|i: int| 0 <= i < ops.len() ==> ((#[trigger] ops[i] == ParentOp::CreatePipe) <==> i < k - 1)
            &&& forall|p: int| 0 <= p < k - 1 ==> #[trigger] read_end_closed(ops, p)
            &&& forall|p: int| 0 <= p < k - 1 ==> #[trigger] write_end_closed(ops, p)
            &&& forall|i: int, j: int|
                #![trigger ops[i], ops[j]]
                0 <= i < ops.len() && 0 <= j < ops.len() && ops[i] == ops[j] && is_close(ops[i]) ==> i == j
            &&& forall|i: int|
                0 <= i < ops.len() ==> (#[trigger] ops[i] matches ParentOp::CloseRead(p) ==> p < k - 1)
            &&& forall|i: int|
                0 <= i < ops.len() ==> (#[trigger] ops[i] matches ParentOp::CloseWrite(p) ==> p < k - 1)
            &&& forall|i: int, j: int|
                #![trigger ops[i], ops[j]]
                0 <= i < ops.len() && 0 <= j < ops.len() && (ops[i] is CreatePipe || ops[i] is Spawn)
                    && is_close(ops[j]) ==> i < j
            &&& forall|i: int, j: int|
                #![trigger ops[i], ops[j]]
                0 <= i < ops.len() && 0 <= j < ops.len() && ops[i] is Wait && is_close(ops[j]) ==> j < i
        }),
{
    let n = (k - 1) as nat;
    let ops = parent_ops_spec(n, m, complete);
    let c0 = n + m;
    assert forall|i: int| 0 <= i < ops.len() implies is_close(#[trigger] ops[i]) <==> (c0 <= i < c0 + 2 * n) by {
    }
    assert forall|p: int| 0 <= p < k - 1 implies #[trigger] read_end_closed(ops, p) by {
        assert((2 * p) % 2 == 0 && (2 * p) / 2 == p) by (nonlinear_arith);
        assert(closes_read(ops, c0 + 2 * p, p));
    }
    assert forall|p: int| 0 <= p < k - 1 implies #[trigger] write_end_closed(ops, p) by {
        assert((2 * p + 1) % 2 == 1 && (2 * p + 1) / 2 == p) by (nonlinear_arith);
        assert(closes_write(ops, c0 + 2 * p + 1, p));
    }
    assert forall|i: int, j: int|
        #![trigger ops[i], ops[j]]
        0 <= i < ops.len() && 0 <= j < ops.len() && ops[i] == ops[j] && is_close(ops[i]) implies i == j by {
        let a = i - c0;
        let b = j - c0;
        assert(c0 <= j < c0 + 2 * n);
        assert(0 <= a / 2 < n && 0 <= b / 2 < n);
        let ca = if a % 2 == 0 {
            ParentOp::CloseRead((a / 2) as usize)
        } else {
            ParentOp::CloseWrite((a / 2) as usize)
        };
        let cb = if b % 2 == 0 {
            ParentOp::CloseRead((b / 2) as usize)
        } else {
            ParentOp::CloseWrite((b / 2) as usize)
        };
        assert(ops[i] == ca);
        assert(ops[j] == cb);
        assert(a % 2 == b % 2);
        assert(a / 2 == b / 2);
        assert(a == 2 * (a / 2) + a % 2 && b == 2 * (b / 2) + b % 2);
    }
    assert forall|i: int| 0 <= i < ops.len() implies (#[trigger] ops[i] matches ParentOp::CloseRead(p) ==> p < k - 1) by {
        if c0 <= i < c0 + 2 * n {
            assert(0 <= (i - c0) / 2 < n);
        }
    }
    assert forall|i: int| 0 <= i < ops.len() implies (#[trigger] ops[i] matches ParentOp::CloseWrite(p) ==> p < k - 1) by {
        if c0 <= i < c0 + 2 * n {
            assert(0 <= (i - c0) / 2 < n);
        }
    }
}


/// One end of a pipe to put in place of a standard stream of a child: `fd_t` is the stream (0 or
/// 1) and `fds` the pipe's read and write descriptors.
#[derive(Clone, Copy, Debug)]
pub struct PipeLine {
    pub fd_t: i32,
    pub fds: [i32; 2],
}

impl StagePlan {
    /// The pipe ends of this stage, given the descriptors of every pipe in creation order: its
    /// input pipe on stream 0, then its output pipe on stream 1.
    pub fn wiring(&self, all_fds: &Vec<[i32; 2]>) -> (r: Vec<PipeLine>)
        requires
            self.stdin_pipe matches Some(p) ==> p < all_fds@.len(),
            self.stdout_pipe matches Some(p) ==> p < all_fds@.len(),
        ensures
            r@.len() == (if self.stdin_pipe is Some { 1int } else { 0 }) + (if self.stdout_pipe is Some {
                1int
            } else {
                0
            }),
            self.stdin_pipe matches Some(p) ==> r@[0].fd_t == 0 && r@[0].fds == all_fds@[p as int],
            self.stdout_pipe matches Some(p) ==> r@.last().fd_t == 1 && r@.last().fds == all_fds@[p as int],
    {
        let mut r: Vec<PipeLine> = Vec::new();
        match self.stdin_pipe {
            Some(p) => r.push(PipeLine { fd_t: 0, fds: all_fds[p] }),
            None => {},
        }
        match self.stdout_pipe {
            Some(p) => r.push(PipeLine { fd_t: 1, fds: all_fds[p] }),
            None => {},
        }
        r
    }
}

} // verus!
