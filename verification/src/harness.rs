//! The exercise ladder: what the harness does for each rung, given its
//! kind and status.
use vstd::prelude::*;

verus! {

/// The difficulty tier of a rung.
#[derive(Debug, Clone, Copy, PartialEq, Eq, Structural)]
pub enum Tier {
    /// Tier A.
    A,
    /// Tier B.
    B,
    /// Tier C.
    C,
    /// Tier D.
    D,
}

/// Where a rung stands.
#[derive(Debug, Clone, Copy, PartialEq, Eq, Structural)]
pub enum Status {
    /// Built, unsolved: the harness compiles it and nothing more.
    Todo,
    /// Solved: the harness runs its full verification.
    Solved,
    /// Not built yet; listed so the ladder shape is visible.
    Planned,
}

/// What a rung is.
#[derive(Debug, Clone, Copy, PartialEq, Eq, Structural)]
pub enum Kind {
    /// A spec crate: `cargo test` (or `--no-run` while todo).
    Crate,
    /// A kernel crate: `cargo check`, plus the convergence gate once
    /// solved.
    Kernel,
    /// A written exercise: solved means a substantial ANSWER.md exists.
    Written,
}

/// One rung of the ladder.
#[derive(Debug)]
pub struct Exercise {
    /// Short identifier.
    pub id: String,
    /// Human-readable name.
    pub name: String,
    /// Difficulty tier.
    pub tier: Tier,
    /// What the rung costs to run.
    pub cost: String,
    /// The tools that gate the rung.
    pub tools: Vec<String>,
    /// Where the rung stands.
    pub status: Status,
    /// Directory relative to the repository root; absent while planned.
    pub path: Option<String>,
    /// What the rung is.
    pub kind: Kind,
}

/// The manifest: one entry per rung, in ladder order.
#[derive(Debug)]
pub struct Manifest {
    /// The rungs.
    pub exercises: Vec<Exercise>,
}

/// A `cargo` invocation the harness runs in a rung's directory.
#[derive(Debug, Clone, Copy, PartialEq, Eq, Structural)]
pub enum Command {
    /// `cargo test --no-run`
    TestNoRun,
    /// `cargo test`
    Test,
    /// `cargo check`
    Check,
    /// `cargo reconverge check --strict`
    ReconvergeStrict,
}

/// The arguments `cargo` receives for a command.
pub open spec fn command_args(c: Command) -> Seq<Seq<char>> {
    match c {
        Command::TestNoRun => seq!["test"@, "--no-run"@],
        Command::Test => seq!["test"@],
        Command::Check => seq!["check"@],
        Command::ReconvergeStrict => seq!["reconverge"@, "check"@, "--strict"@],
    }
}

impl Command {
    /// The arguments `cargo` receives for this command.
    pub fn args(self) -> (r: Vec<&'static str>)
        ensures
            r@.len() == command_args(self).len(),
            forall|i: int| 0 <= i < r@.len() ==> #[trigger] r@[i]@ == command_args(self)[i],
    {
        let mut r: Vec<&'static str> = Vec::new();
        match self {
            Command::TestNoRun => {
                r.push("test");
                r.push("--no-run");
            },
            Command::Test => {
                r.push("test");
            },
            Command::Check => {
                r.push("check");
            },
            Command::ReconvergeStrict => {
                r.push("reconverge");
                r.push("check");
                r.push("--strict");
            },
        }
        r
    }
}

/// What the harness does for one rung.
#[derive(Debug, PartialEq, Eq, Structural)]
pub enum Plan {
    /// The rung has no directory yet: nothing to run.
    NotBuilt,
    /// The rung is planned: nothing to run.
    Planned,
    /// Run these `cargo` commands in order, stopping at the first failure.
    Run { first: Command, after: Option<Command> },
    /// A written rung still awaiting its answer: nothing to run.
    AwaitAnswer,
    /// A solved written rung: its ANSWER.md must be long enough.
    CheckAnswer,
}

/// The plan for a rung from its directory, kind and status.
pub open spec fn plan_spec(has_path: bool, kind: Kind, status: Status) -> Plan {
    if !has_path {
        Plan::NotBuilt
    } else if status is Planned {
        Plan::Planned
    } else {
        match (kind, status) {
            (Kind::Crate, Status::Todo) => Plan::Run { first: Command::TestNoRun, after: None },
            (Kind::Crate, _) => Plan::Run { first: Command::Test, after: None },
            (Kind::Kernel, Status::Todo) => Plan::Run { first: Command::Check, after: None },
            (Kind::Kernel, _) => Plan::Run {
                first: Command::Check,
                after: Some(Command::ReconvergeStrict),
            },
            (Kind::Written, Status::Todo) => Plan::AwaitAnswer,
            (Kind::Written, _) => Plan::CheckAnswer,
        }
    }
}

/// What the harness does for a rung: a todo rung is only compiled, a
/// solved rung is verified, and a planned or unbuilt rung runs nothing.
pub fn plan_exercise(has_path: bool, kind: Kind, status: Status) -> (r: Plan)
    ensures
        r == plan_spec(has_path, kind, status),
{
    if !has_path {
        return Plan::NotBuilt;
    }
    match (kind, status) {
        (_, Status::Planned) => Plan::Planned,
        (Kind::Crate, Status::Todo) => Plan::Run { first: Command::TestNoRun, after: None },
        (Kind::Crate, Status::Solved) => Plan::Run { first: Command::Test, after: None },
        (Kind::Kernel, Status::Todo) => Plan::Run { first: Command::Check, after: None },
        (Kind::Kernel, Status::Solved) => Plan::Run {
            first: Command::Check,
            after: Some(Command::ReconvergeStrict),
        },
        (Kind::Written, Status::Todo) => Plan::AwaitAnswer,
        (Kind::Written, Status::Solved) => Plan::CheckAnswer,
    }
}

/// The shortest trimmed ANSWER.md that counts as an explanation.
pub const MIN_ANSWER_BYTES: usize = 80;

/// Whether a trimmed answer of `trimmed_len` bytes is long enough.
pub fn answer_is_long_enough(trimmed_len: usize) -> (r: bool)
    ensures
        r == (trimmed_len >= MIN_ANSWER_BYTES),
{
    trimmed_len >= MIN_ANSWER_BYTES
}

/// A todo rung never runs its specs, and only a solved kernel rung runs
/// the convergence gate.
pub proof fn law_todo_rungs_only_compile(kind: Kind)
    ensures
        match plan_spec(true, kind, Status::Todo) {
            Plan::Run { first, after } => after is None && (first is TestNoRun || first is Check),
            Plan::AwaitAnswer => kind is Written,
            _ => false,
        },
        forall|s: Status|
            #![trigger plan_spec(true, kind, s)]
            plan_spec(true, kind, s) matches Plan::Run { after: Some(c), .. } ==> c is ReconvergeStrict
                && kind is Kernel && s is Solved,
{
}

/// A solved rung runs what its todo form only compiles: a cargo rung's
/// solved command is its todo command without `--no-run` (so a spec
/// crate's tests run), no solved command holds `--no-run`, only a solved
/// kernel adds a second step, and a written rung's answer is checked
/// once solved.
pub proof fn law_solved_rungs_run_what_todo_compiles(kind: Kind)
    ensures
        match (plan_spec(true, kind, Status::Todo), plan_spec(true, kind, Status::Solved)) {
            (Plan::Run { first: t, .. }, Plan::Run { first: s, .. }) => command_args(t) == command_args(
                s,
            ) || command_args(t) == command_args(s).push("--no-run"@),
            (Plan::AwaitAnswer, Plan::CheckAnswer) => true,
            _ => false,
        },
        plan_spec(true, kind, Status::Solved) matches Plan::Run { first: s, after } ==> !command_args(
            s,
        ).contains("--no-run"@) && (after is Some <==> kind is Kernel),
        plan_spec(true, kind, Status::Todo) matches Plan::Run { first: t, .. } ==> (command_args(
            t,
        ).contains("--no-run"@) <==> kind is Crate),
{
    reveal_strlit("test");
    reveal_strlit("--no-run");
    reveal_strlit("check");
    let test = "test"@;
    let norun = "--no-run"@;
    let check = "check"@;
    assert(test != norun && check != norun && test != check) by {
        assert(test[0] != norun[0]);
        assert(check[0] != norun[0]);
        assert(test[0] != check[0]);
    }
    assert(seq![test, norun] == seq![test].push(norun));
    assert(seq![test, norun].contains(norun)) by {
        assert(seq![test, norun][1] == norun);
    }
    assert(!seq![test].contains(norun)) by {
        if seq![test].contains(norun) {
            let i = choose|i: int| 0 <= i < 1 && seq![test][i] == norun;
        }
    }
    assert(!seq![check].contains(norun)) by {
        if seq![check].contains(norun) {
            let i = choose|i: int| 0 <= i < 1 && seq![check][i] == norun;
        }
    }
}

} // verus!
