use vstd::prelude::*;

verus! {

/// The pipeline's stages, in the order they run.
#[derive(Clone, Copy, Debug, PartialEq, Eq, Structural)]
pub enum Stage {
    Build,
    Entrances,
    TeleportEntrances,
    Intra,
    IntraTrim,
    Inter,
    TeleportEdges,
    Jps,
}

/// The position of a stage in the pipeline.
pub open spec fn stage_index(s: Stage) -> int {
    match s {
        Stage::Build => 0,
        Stage::Entrances => 1,
        Stage::TeleportEntrances => 2,
        Stage::Intra => 3,
        Stage::IntraTrim => 4,
        Stage::Inter => 5,
        Stage::TeleportEdges => 6,
        Stage::Jps => 7,
    }
}

pub const STAGE_COUNT: usize = 8;

impl Stage {
    /// The stage's state key.
    pub fn key(self) -> (r: &'static str)
        ensures
            self == Stage::Build ==> r@ == "cluster_stage_build"@,
            self == Stage::Entrances ==> r@ == "cluster_stage_entrances"@,
            self == Stage::TeleportEntrances ==> r@ == "cluster_stage_teleport_entrances"@,
            self == Stage::Intra ==> r@ == "cluster_stage_intra"@,
            self == Stage::IntraTrim ==> r@ == "cluster_stage_intra_trim"@,
            self == Stage::Inter ==> r@ == "cluster_stage_inter"@,
            self == Stage::TeleportEdges ==> r@ == "cluster_stage_teleport_edges"@,
            self == Stage::Jps ==> r@ == "cluster_stage_jps"@,
    {
        match self {
            Stage::Build => "cluster_stage_build",
            Stage::Entrances => "cluster_stage_entrances",
            Stage::TeleportEntrances => "cluster_stage_teleport_entrances",
            Stage::Intra => "cluster_stage_intra",
            Stage::IntraTrim => "cluster_stage_intra_trim",
            Stage::Inter => "cluster_stage_inter",
            Stage::TeleportEdges => "cluster_stage_teleport_edges",
            Stage::Jps => "cluster_stage_jps",
        }
    }

    /// Every stage, in pipeline order.
    pub fn all() -> (r: Vec<Stage>)
        ensures
            r@.len() == STAGE_COUNT,
            forall|i: int| 0 <= i < STAGE_COUNT ==> stage_index(#[trigger] r@[i]) == i,
    {
        vec![
            Stage::Build,
            Stage::Entrances,
            Stage::TeleportEntrances,
            Stage::Intra,
            Stage::IntraTrim,
            Stage::Inter,
            Stage::TeleportEdges,
            Stage::Jps,
        ]
    }
}

#[derive(Clone, Copy, Debug, Default)]
pub struct ExecOptions {
    pub resume: bool,
    pub force: bool,
}

/// Which stages ran.
#[derive(Clone, Copy, Debug, Default)]
pub struct ExecStats {
    pub ran_build: bool,
    pub ran_entrances: bool,
    pub ran_teleport_entrances: bool,
    pub ran_intra: bool,
    pub ran_intra_trim: bool,
    pub ran_inter: bool,
    pub ran_teleport_edges: bool,
    pub ran_jps: bool,
}

impl ExecStats {
    pub open spec fn ran(self, s: Stage) -> bool {
        match s {
            Stage::Build => self.ran_build,
            Stage::Entrances => self.ran_entrances,
            Stage::TeleportEntrances => self.ran_teleport_entrances,
            Stage::Intra => self.ran_intra,
            Stage::IntraTrim => self.ran_intra_trim,
            Stage::Inter => self.ran_inter,
            Stage::TeleportEdges => self.ran_teleport_edges,
            Stage::Jps => self.ran_jps,
        }
    }

    /// Notes that `s` ran; the other flags stay.
    pub fn record(&mut self, s: Stage)
        ensures
            final(self).ran(s),
            forall|t: Stage| t != s ==> final(self).ran(t) == old(self).ran(t),
    {
        match s {
            Stage::Build => self.ran_build = true,
            Stage::Entrances => self.ran_entrances = true,
            Stage::TeleportEntrances => self.ran_teleport_entrances = true,
            Stage::Intra => self.ran_intra = true,
            Stage::IntraTrim => self.ran_intra_trim = true,
            Stage::Inter => self.ran_inter = true,
            Stage::TeleportEdges => self.ran_teleport_edges = true,
            Stage::Jps => self.ran_jps = true,
        }
    }
}

/// Where a run starts: with `resume` and without `force`, after the longest
/// prefix of stages that report completion; otherwise at the first stage.
pub open spec fn start_of(opts: ExecOptions, done: Seq<bool>) -> int {
    if opts.resume && !opts.force {
        choose_prefix(done)
    } else {
        0
    }
}

/// The length of the longest prefix of `true`.
pub open spec fn choose_prefix(done: Seq<bool>) -> int
    decreases done.len(),
{
    if done.len() == 0 || !done[0] {
        0
    } else {
        1 + choose_prefix(done.drop_first())
    }
}

/// The stage at position `i` runs exactly when it is at or after the start:
/// a resumed run skips the completed prefix and executes the remainder.
pub open spec fn runs(opts: ExecOptions, done: Seq<bool>, i: int) -> bool {
    start_of(opts, done) <= i < done.len()
}

proof fn lemma_prefix_bounds(done: Seq<bool>)
    ensures
        0 <= choose_prefix(done) <= done.len(),
        forall|i: int| 0 <= i < choose_prefix(done) ==> #[trigger] done[i],
        choose_prefix(done) < done.len() ==> !done[choose_prefix(done)],
    decreases done.len(),
{
    if done.len() > 0 && done[0] {
        lemma_prefix_bounds(done.drop_first());
        assert forall|i: int| 0 <= i < choose_prefix(done) implies #[trigger] done[i] by {
            if i > 0 {
                assert(done[i] == done.drop_first()[i - 1]);
            }
        }
    }
}

/// The index of the first stage to consider.
pub fn first_stage(opts: ExecOptions, done: &Vec<bool>) -> (r: usize)
    ensures
        r == start_of(opts, done@),
        r <= done@.len(),
{
    proof {
        lemma_prefix_bounds(done@);
    }
    if !(opts.resume && !opts.force) {
        return 0;
    }
    let mut i: usize = 0;
    while i < done.len() && done[i]
        invariant
            0 <= i <= done@.len(),
            forall|k: int| 0 <= k < i ==> #[trigger] done@[k],
            0 <= choose_prefix(done@) <= done@.len(),
            forall|k: int| 0 <= k < choose_prefix(done@) ==> #[trigger] done@[k],
            choose_prefix(done@) < done@.len() ==> !done@[choose_prefix(done@)],
        decreases done.len() - i,
    {
        i = i + 1;
    }
    i
}

/// The stages to run, in pipeline order: every stage from the start on.
pub fn stages_to_run(opts: ExecOptions, done: &Vec<bool>) -> (r: Vec<Stage>)
    requires
        done@.len() == STAGE_COUNT,
    ensures
        r@.len() == STAGE_COUNT - start_of(opts, done@),
        opts.force || !opts.resume ==> r@.len() == STAGE_COUNT,
        forall|k: int| 0 <= k < r@.len() ==> stage_index(#[trigger] r@[k]) == start_of(opts, done@) + k,
        forall|i: int| 0 <= i < STAGE_COUNT ==> (runs(opts, done@, i) <==> exists|k: int| 0 <= k < r@.len() && stage_index(#[trigger] r@[k]) == i),
{
    let all = Stage::all();
    let start = first_stage(opts, done);
    let mut r: Vec<Stage> = Vec::new();
    let mut i: usize = start;
    while i < all.len()
        invariant
            all@.len() == STAGE_COUNT,
            forall|k: int| 0 <= k < STAGE_COUNT ==> stage_index(#[trigger] all@[k]) == k,
            start == start_of(opts, done@),
            start <= i <= STAGE_COUNT,
            r@.len() == i - start,
            forall|k: int| 0 <= k < r@.len() ==> stage_index(#[trigger] r@[k]) == start + k,
        decreases all.len() - i,
    {
        r.push(all[i]);
        i = i + 1;
    }
    proof {
        assert forall|i: int| 0 <= i < STAGE_COUNT implies (runs(opts, done@, i) <==> exists|k: int| 0 <= k < r@.len() && stage_index(#[trigger] r@[k]) == i) by {
            if runs(opts, done@, i) {
                assert(stage_index(r@[i - start]) == i);
            }
        }
    }
    r
}

/// Under `force` a stage clears its own state before it runs.
pub fn clears_first(opts: ExecOptions) -> (r: bool)
    ensures
        r == opts.force,
{
    opts.force
}

/// A second run with `resume` after a run that left every stage reporting
/// completion starts past the last stage, and no stage runs: it writes nothing.
pub proof fn lemma_resume_after_complete_is_idle(opts: ExecOptions, done: Seq<bool>)
    requires
        opts.resume,
        !opts.force,
        forall|i: int| 0 <= i < done.len() ==> #[trigger] done[i],
    ensures
        start_of(opts, done) == done.len(),
        forall|i: int| 0 <= i < done.len() ==> !#[trigger] runs(opts, done, i),
{
    lemma_prefix_bounds(done);
}

} // verus!
