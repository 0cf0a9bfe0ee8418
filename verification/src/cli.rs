//! The options of a run, and the steps of the pipeline that they select.
use vstd::prelude::*;

verus! {

/// The options of a run of the pipeline.
pub struct Cli {
    /// Skip the conversion of the C code with c2rust.
    pub skip_c2rust: bool,
    /// Skip the application of the TXL rules.
    pub skip_txl_rules: bool,
    /// Skip the rewriting with crown.
    pub skip_crown: bool,
    /// Skip the inlay hints.
    pub skip_inlay_hints: bool,
    /// A TXL rule of the user's own, to apply after the standard ones.
    pub custom_txl: Option<String>,
    /// Keep the intermediate sources and their metrics.
    pub metrics: bool,
    /// Remove the `unsafe` keywords that the curs model finds unneeded.
    pub auto_curs: bool,
}

/// The points of the pipeline at which metrics are taken.
#[derive(PartialEq, Eq, Structural, Clone, Copy, Debug)]
pub enum Checkpoint {
    /// Before any transformation.
    Start,
    /// After the conversion with c2rust.
    C2Rust,
    /// After the TXL rules.
    Txl,
}

impl Checkpoint {
    /// The name of the folder that keeps the metrics of the checkpoint.
    pub open spec fn folder_name(self) -> Seq<char> {
        match self {
            Checkpoint::Start => "original"@,
            Checkpoint::C2Rust => "c2rust"@,
            Checkpoint::Txl => "txl"@,
        }
    }

    /// The name of the folder that keeps the metrics of the checkpoint.
    pub fn name(&self) -> (r: &'static str)
        ensures
            r@ == self.folder_name(),
    {
        match self {
            Checkpoint::Start => "original",
            Checkpoint::C2Rust => "c2rust",
            Checkpoint::Txl => "txl",
        }
    }
}

/// One step of the pipeline.
#[derive(PartialEq, Eq, Structural, Clone, Copy, Debug)]
pub enum PipelineStep {
    /// Keep the sources and their metrics at a checkpoint.
    CollectMetrics(Checkpoint),
    /// Convert the C code to Rust with c2rust.
    ConvertC,
    /// Apply the TXL rules.
    ApplyRules,
}

/// The metrics step at `point`, where metrics are asked for.
pub open spec fn metrics_at(metrics: bool, point: Checkpoint) -> Seq<PipelineStep> {
    if metrics {
        seq![PipelineStep::CollectMetrics(point)]
    } else {
        seq![]
    }
}

/// The steps of a run with the options `cli`: metrics of the untouched
/// sources, the conversion and the rules unless skipped, each followed by
/// its metrics, the metrics being taken only where asked for.
pub open spec fn pipeline_steps(cli: Cli) -> Seq<PipelineStep> {
    metrics_at(cli.metrics, Checkpoint::Start) + (if cli.skip_c2rust {
        seq![]
    } else {
        seq![PipelineStep::ConvertC] + metrics_at(cli.metrics, Checkpoint::C2Rust)
    }) + (if cli.skip_txl_rules {
        seq![]
    } else {
        seq![PipelineStep::ApplyRules] + metrics_at(cli.metrics, Checkpoint::Txl)
    })
}

/// The steps of a run with the options `cli`, in order.
pub fn pipeline(cli: &Cli) -> (r: Vec<PipelineStep>)
    ensures
        r@ == pipeline_steps(*cli),
{
    let mut r: Vec<PipelineStep> = Vec::new();
    if cli.metrics {
        r.push(PipelineStep::CollectMetrics(Checkpoint::Start));
    }
    let ghost first = r@;
    if !cli.skip_c2rust {
        r.push(PipelineStep::ConvertC);
        if cli.metrics {
            r.push(PipelineStep::CollectMetrics(Checkpoint::C2Rust));
        }
    }
    let ghost second = r@;
    if !cli.skip_txl_rules {
        r.push(PipelineStep::ApplyRules);
        if cli.metrics {
            r.push(PipelineStep::CollectMetrics(Checkpoint::Txl));
        }
    }
    assert(first =~= metrics_at(cli.metrics, Checkpoint::Start));
    assert(second =~= first + (if cli.skip_c2rust {
        seq![]
    } else {
        seq![PipelineStep::ConvertC] + metrics_at(cli.metrics, Checkpoint::C2Rust)
    }));
    assert(r@ =~= second + (if cli.skip_txl_rules {
        seq![]
    } else {
        seq![PipelineStep::ApplyRules] + metrics_at(cli.metrics, Checkpoint::Txl)
    }));
    r
}

/// The conversion comes before the rules: wherever both run, whatever the
/// metrics option, c2rust converts the C code before the TXL rules rewrite
/// the Rust code, and each of the two runs at most once.
#[verifier::rlimit(30)]
pub proof fn lemma_conversion_before_rules(cli: Cli)
    ensures
        forall|i: int, j: int|
            0 <= i < pipeline_steps(cli).len() && 0 <= j < pipeline_steps(cli).len()
                && #[trigger] pipeline_steps(cli)[i] == PipelineStep::ConvertC
                && #[trigger] pipeline_steps(cli)[j] == PipelineStep::ApplyRules ==> i < j,
        forall|i: int, j: int|
            0 <= i < j < pipeline_steps(cli).len() && #[trigger] pipeline_steps(cli)[i]
                == PipelineStep::ConvertC ==> #[trigger] pipeline_steps(cli)[j]
                != PipelineStep::ConvertC,
        forall|i: int, j: int|
            0 <= i < j < pipeline_steps(cli).len() && #[trigger] pipeline_steps(cli)[i]
                == PipelineStep::ApplyRules ==> #[trigger] pipeline_steps(cli)[j]
                != PipelineStep::ApplyRules,
{
    let s = pipeline_steps(cli);
    let m = |p: Checkpoint| PipelineStep::CollectMetrics(p);
    let c = PipelineStep::ConvertC;
    let a = PipelineStep::ApplyRules;
    let expected = if cli.metrics {
        if !cli.skip_c2rust && !cli.skip_txl_rules {
            seq![m(Checkpoint::Start), c, m(Checkpoint::C2Rust), a, m(Checkpoint::Txl)]
        } else if !cli.skip_c2rust {
            seq![m(Checkpoint::Start), c, m(Checkpoint::C2Rust)]
        } else if !cli.skip_txl_rules {
            seq![m(Checkpoint::Start), a, m(Checkpoint::Txl)]
        } else {
            seq![m(Checkpoint::Start)]
        }
    } else {
        if !cli.skip_c2rust && !cli.skip_txl_rules {
            seq![c, a]
        } else if !cli.skip_c2rust {
            seq![c]
        } else if !cli.skip_txl_rules {
            seq![a]
        } else {
            seq![]
        }
    };
    assert(s =~= expected);
    let ci: int = if cli.metrics { 1 } else { 0 };
    let ai: int = if cli.metrics {
        if cli.skip_c2rust { 1 } else { 3 }
    } else {
        if cli.skip_c2rust { 0 } else { 1 }
    };
    assert forall|i: int| 0 <= i < s.len() && s[i] == c implies i == ci by {}
    assert forall|j: int| 0 <= j < s.len() && s[j] == a implies j == ai by {}
}

/// The options decide the steps: the conversion runs unless skipped, the
/// rules run unless skipped, metrics are taken only where asked for, and
/// then first of all, and right after each step that changes the sources.
#[verifier::rlimit(30)]
pub proof fn lemma_pipeline_respects_options(cli: Cli)
    ensures
        pipeline_steps(cli).contains(PipelineStep::ConvertC) <==> !cli.skip_c2rust,
        pipeline_steps(cli).contains(PipelineStep::ApplyRules) <==> !cli.skip_txl_rules,
        (exists|i: int| 0 <= i < pipeline_steps(cli).len() && #[trigger] pipeline_steps(cli)[i] is CollectMetrics)
            <==> cli.metrics,
        cli.metrics ==> pipeline_steps(cli)[0] == PipelineStep::CollectMetrics(Checkpoint::Start),
        cli.metrics ==> forall|i: int| 0 <= i < pipeline_steps(cli).len() && !(
        #[trigger] pipeline_steps(cli)[i] is CollectMetrics) ==> i + 1 < pipeline_steps(cli).len()
            && pipeline_steps(cli)[i + 1] is CollectMetrics,
{
    let s = pipeline_steps(cli);
    let m = |p: Checkpoint| PipelineStep::CollectMetrics(p);
    let expected = if cli.metrics {
        if !cli.skip_c2rust && !cli.skip_txl_rules {
            seq![m(Checkpoint::Start), PipelineStep::ConvertC, m(Checkpoint::C2Rust), PipelineStep::ApplyRules, m(Checkpoint::Txl)]
        } else if !cli.skip_c2rust {
            seq![m(Checkpoint::Start), PipelineStep::ConvertC, m(Checkpoint::C2Rust)]
        } else if !cli.skip_txl_rules {
            seq![m(Checkpoint::Start), PipelineStep::ApplyRules, m(Checkpoint::Txl)]
        } else {
            seq![m(Checkpoint::Start)]
        }
    } else {
        if !cli.skip_c2rust && !cli.skip_txl_rules {
            seq![PipelineStep::ConvertC, PipelineStep::ApplyRules]
        } else if !cli.skip_c2rust {
            seq![PipelineStep::ConvertC]
        } else if !cli.skip_txl_rules {
            seq![PipelineStep::ApplyRules]
        } else {
            seq![]
        }
    };
    assert(s =~= expected);
    if !cli.skip_c2rust {
        assert(s[if cli.metrics { 1int } else { 0int }] == PipelineStep::ConvertC);
    }
    if !cli.skip_txl_rules {
        assert(s[s.len() - if cli.metrics { 2int } else { 1int }] == PipelineStep::ApplyRules);
    }
    if cli.metrics {
        assert(s[0] is CollectMetrics);
    }
}

} // verus!
