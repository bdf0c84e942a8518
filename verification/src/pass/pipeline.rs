//! The order in which the passes run.
use vstd::prelude::*;

use crate::ir::{Module, ModuleView};
use crate::pass::pointer_recurrence_coalesce;
use crate::pass::pointer_recurrence_coalesce::laws as coalesce_laws;
use crate::pass::pointer_recurrence_coalesce::PointerRecurrenceCoalescePass;
use crate::pass::range_integer;
use crate::pass::range_integer::RangeIntegerSimplifyPass;
use crate::pass::recursive_inline;
use crate::pass::recursive_inline::laws as inline_laws;
use crate::pass::recursive_inline::{CfgInlinePass, RecursiveInlinePass};
use crate::pass::reduction_jam;
use crate::pass::reduction_jam::laws as jam_laws;
use crate::pass::reduction_jam::ReductionJamPass;
use crate::pass::regional_global_scalar;
use crate::pass::regional_global_scalar::RegionalGlobalScalarPass;
use crate::pass::repeat_reduction;
use crate::pass::repeat_reduction::RepeatReductionPass;
use crate::pass::scalar_promote;
use crate::pass::scalar_promote::ScalarPromotePass;
use crate::pass::simple_loop_unroll;
use crate::pass::simple_loop_unroll::SimpleLoopUnrollPass;
use crate::pass::simplify_cfg;
use crate::pass::simplify_cfg::SimplifyCfgPass;
use crate::verify;

verus! {

/// How much to optimize.
#[derive(Clone, Copy, PartialEq, Eq, Structural, Debug)]
pub enum OptLevel {
    O0,
    O1,
}

/// What the pipeline of level `O1` is made of.
#[derive(Clone, Copy, PartialEq, Eq, Structural, Debug)]
pub struct PassOptions {
    pub enable_simple_loop_unroll: bool,
    pub small_expr_inline_rounds: usize,
    pub cfg_inline_rounds: usize,
    pub cfg_inline_global_loads: bool,
    pub recursive_inline_rounds: usize,
    pub enable_constant_address_count_reduction: bool,
    pub enable_recursive_const_specialization: bool,
    pub enable_initialized_global_propagation: bool,
    pub enable_uniform_constant_arguments: bool,
    pub enable_loop_call_memoize: bool,
    pub enable_loop_invariant_call_memoize: bool,
    pub enable_regional_global_scalar_promotion: bool,
    pub enable_write_only_alloca_cleanup_before_inline: bool,
}

/// A stage of the pipeline.
#[derive(Clone, Copy, PartialEq, Eq, Structural, Debug)]
pub enum Stage {
    GlobalConstProp { initialized: bool },
    ConstFold,
    Dce { keep_write_only_allocas: bool },
    SimplifyCfg { preserve_loop_preheaders: bool },
    TailRecursion,
    GlobalScalarLocalize { across_no_memory_calls: bool },
    ScalarPromote,
    ConstSpecialize { recursive: bool, uniform_arguments: bool },
    SmallLoopFullUnroll,
    RecursiveInline { rounds: usize },
    InlineSmallExpr,
    CfgInline { global_loads: bool },
    RangeInteger,
    AdjacentLoopFusion,
    LocalForward,
    Cse,
    Licm,
    InvariantLoad,
    InstCombine { divisibility_only: bool },
    ReductionJam { factor: usize },
    RepeatReduction,
    LoopCallMemoize { invariant_calls: bool },
    RegionalGlobalScalar,
    ConstantAddressReduction,
    SimpleLoopUnroll { factor: usize },
    GepInduction,
    PointerRecurrenceCoalesce,
    LocalMemzeroSink,
}

// ---------------------------------------------------------------------------
// The schedule
// ---------------------------------------------------------------------------

pub open spec fn repeated(stage: Stage, n: nat) -> Seq<Stage> {
    Seq::new(n, |i: int| stage)
}

pub open spec fn when(enabled: bool, stage: Stage) -> Seq<Stage> {
    if enabled {
        seq![stage]
    } else {
        Seq::empty()
    }
}

/// Level `O0`: values leave memory, and repeated reductions are recognized.
pub open spec fn basic_schedule() -> Seq<Stage> {
    seq![
        Stage::ScalarPromote,
        Stage::LocalForward,
        Stage::Dce { keep_write_only_allocas: false },
        Stage::RepeatReduction,
        Stage::Dce { keep_write_only_allocas: false },
    ]
}

/// Constants are propagated, code is cleaned and values leave memory.
pub open spec fn preparation(options: PassOptions) -> Seq<Stage> {
    let keep = !options.enable_write_only_alloca_cleanup_before_inline;
    seq![
        Stage::GlobalConstProp { initialized: options.enable_initialized_global_propagation },
        Stage::ConstFold,
        Stage::Dce { keep_write_only_allocas: keep },
        Stage::SimplifyCfg { preserve_loop_preheaders: true },
        Stage::TailRecursion,
        Stage::GlobalScalarLocalize { across_no_memory_calls: false },
        Stage::ScalarPromote,
        Stage::GlobalScalarLocalize { across_no_memory_calls: true },
        Stage::ScalarPromote,
        Stage::ConstSpecialize {
            recursive: options.enable_recursive_const_specialization,
            uniform_arguments: options.enable_uniform_constant_arguments,
        },
        Stage::ConstFold,
        Stage::SmallLoopFullUnroll,
        Stage::ConstFold,
        Stage::SimplifyCfg { preserve_loop_preheaders: true },
        Stage::Dce { keep_write_only_allocas: keep },
    ]
}

/// Calls are inlined.
pub open spec fn inlining(options: PassOptions) -> Seq<Stage> {
    seq![Stage::RecursiveInline { rounds: options.recursive_inline_rounds }] + repeated(
        Stage::InlineSmallExpr,
        options.small_expr_inline_rounds as nat,
    ) + repeated(
        Stage::CfgInline { global_loads: options.cfg_inline_global_loads },
        options.cfg_inline_rounds as nat,
    )
}

/// Loops are restructured.
pub open spec fn loop_transforms(factor: usize) -> Seq<Stage> {
    seq![
        Stage::SimplifyCfg { preserve_loop_preheaders: true },
        Stage::RangeInteger,
        Stage::Dce { keep_write_only_allocas: false },
        Stage::AdjacentLoopFusion,
        Stage::LocalForward,
        Stage::Cse,
        Stage::Licm,
        Stage::InvariantLoad,
        Stage::InstCombine { divisibility_only: true },
        Stage::ConstFold,
        Stage::Dce { keep_write_only_allocas: false },
        Stage::ReductionJam { factor },
        Stage::Cse,
        Stage::LocalForward,
        Stage::Cse,
        Stage::InvariantLoad,
        Stage::Dce { keep_write_only_allocas: false },
        Stage::RepeatReduction,
    ]
}

/// Stages that the options choose.
pub open spec fn optional_transforms(options: PassOptions, factor: usize) -> Seq<Stage> {
    when(
        options.enable_loop_call_memoize,
        Stage::LoopCallMemoize { invariant_calls: false },
    ) + when(
        options.enable_loop_invariant_call_memoize,
        Stage::LoopCallMemoize { invariant_calls: true },
    ) + when(options.enable_regional_global_scalar_promotion, Stage::RegionalGlobalScalar) + when(
        options.enable_constant_address_count_reduction,
        Stage::ConstantAddressReduction,
    ) + when(options.enable_simple_loop_unroll, Stage::SimpleLoopUnroll { factor })
}

/// Addresses are strength-reduced and the result is cleaned. This comes after
/// the transforms that look for the phis of the source loops.
pub open spec fn finish(options: PassOptions) -> Seq<Stage> {
    seq![
        Stage::InstCombine { divisibility_only: false },
        Stage::ConstFold,
        Stage::GepInduction,
        Stage::PointerRecurrenceCoalesce,
    ] + when(options.enable_regional_global_scalar_promotion, Stage::RegionalGlobalScalar) + seq![
        Stage::Dce { keep_write_only_allocas: false },
        Stage::Cse,
        Stage::LocalForward,
        Stage::InstCombine { divisibility_only: false },
        Stage::Cse,
        Stage::Dce { keep_write_only_allocas: false },
        Stage::LocalMemzeroSink,
        Stage::SimplifyCfg { preserve_loop_preheaders: false },
        Stage::Dce { keep_write_only_allocas: false },
    ]
}

/// The stages of a pipeline, in order.
pub open spec fn schedule(level: OptLevel, options: PassOptions, factor: usize) -> Seq<Stage> {
    match level {
        OptLevel::O0 => basic_schedule(),
        OptLevel::O1 => preparation(options) + inlining(options) + loop_transforms(factor)
            + optional_transforms(options, factor) + finish(options),
    }
}

/// Appends a list of stages.
fn add_all(pipeline: &mut Vec<Stage>, more: Vec<Stage>)
    ensures
        final(pipeline)@ == old(pipeline)@ + more@,
{
    let n = more.len();
    let ghost before = pipeline@;
    for i in 0..n
        invariant
            n == more.len(),
            pipeline@ == before + more@.take(i as int),
    {
        pipeline.push(more[i]);
        assert(pipeline@ =~= before + more@.take(i + 1));
    }
    assert(more@.take(n as int) =~= more@);
}

/// Appends a stage if it is enabled.
fn add_when(pipeline: &mut Vec<Stage>, enabled: bool, stage: Stage)
    ensures
        final(pipeline)@ == old(pipeline)@ + when(enabled, stage),
{
    let ghost before = pipeline@;
    if enabled {
        pipeline.push(stage);
    }
    assert(pipeline@ =~= before + when(enabled, stage));
}

/// Appends a stage several times.
fn add_repeated(pipeline: &mut Vec<Stage>, stage: Stage, times: usize)
    ensures
        final(pipeline)@ == old(pipeline)@ + repeated(stage, times as nat),
{
    let ghost before = pipeline@;
    for i in 0..times
        invariant
            pipeline@ == before + repeated(stage, i as nat),
    {
        pipeline.push(stage);
        assert(pipeline@ =~= before + repeated(stage, (i + 1) as nat));
    }
}

fn build_basic() -> (r: Vec<Stage>)
    ensures
        r@ == basic_schedule(),
{
    vec![
        Stage::ScalarPromote,
        Stage::LocalForward,
        Stage::Dce { keep_write_only_allocas: false },
        Stage::RepeatReduction,
        Stage::Dce { keep_write_only_allocas: false },
    ]
}

fn build_preparation(options: PassOptions) -> (r: Vec<Stage>)
    ensures
        r@ == preparation(options),
{
    let keep = !options.enable_write_only_alloca_cleanup_before_inline;
    vec![
        Stage::GlobalConstProp {
            initialized: options.enable_initialized_global_propagation,
        },
        Stage::ConstFold,
        Stage::Dce { keep_write_only_allocas: keep },
        Stage::SimplifyCfg { preserve_loop_preheaders: true },
        Stage::TailRecursion,
        Stage::GlobalScalarLocalize { across_no_memory_calls: false },
        Stage::ScalarPromote,
        Stage::GlobalScalarLocalize { across_no_memory_calls: true },
        Stage::ScalarPromote,
        Stage::ConstSpecialize {
            recursive: options.enable_recursive_const_specialization,
            uniform_arguments: options.enable_uniform_constant_arguments,
        },
        Stage::ConstFold,
        Stage::SmallLoopFullUnroll,
        Stage::ConstFold,
        Stage::SimplifyCfg { preserve_loop_preheaders: true },
        Stage::Dce { keep_write_only_allocas: keep },
    ]
}

fn build_inlining(options: PassOptions) -> (r: Vec<Stage>)
    ensures
        r@ == inlining(options),
{
    let mut stages: Vec<Stage> = vec![
        Stage::RecursiveInline { rounds: options.recursive_inline_rounds },
    ];
    add_repeated(&mut stages, Stage::InlineSmallExpr, options.small_expr_inline_rounds);
    add_repeated(
        &mut stages,
        Stage::CfgInline { global_loads: options.cfg_inline_global_loads },
        options.cfg_inline_rounds,
    );
    stages
}

fn build_loop_transforms(factor: usize) -> (r: Vec<Stage>)
    ensures
        r@ == loop_transforms(factor),
{
    vec![
        Stage::SimplifyCfg { preserve_loop_preheaders: true },
        Stage::RangeInteger,
        Stage::Dce { keep_write_only_allocas: false },
        Stage::AdjacentLoopFusion,
        Stage::LocalForward,
        Stage::Cse,
        Stage::Licm,
        Stage::InvariantLoad,
        Stage::InstCombine { divisibility_only: true },
        Stage::ConstFold,
        Stage::Dce { keep_write_only_allocas: false },
        Stage::ReductionJam { factor },
        Stage::Cse,
        Stage::LocalForward,
        Stage::Cse,
        Stage::InvariantLoad,
        Stage::Dce { keep_write_only_allocas: false },
        Stage::RepeatReduction,
    ]
}

fn build_optional_transforms(options: PassOptions, factor: usize) -> (r: Vec<Stage>)
    ensures
        r@ == optional_transforms(options, factor),
{
    let mut stages: Vec<Stage> = Vec::new();
    add_when(
        &mut stages,
        options.enable_loop_call_memoize,
        Stage::LoopCallMemoize { invariant_calls: false },
    );
    assert(stages@ =~= when(
        options.enable_loop_call_memoize,
        Stage::LoopCallMemoize { invariant_calls: false },
    ));
    add_when(
        &mut stages,
        options.enable_loop_invariant_call_memoize,
        Stage::LoopCallMemoize { invariant_calls: true },
    );
    add_when(
        &mut stages,
        options.enable_regional_global_scalar_promotion,
        Stage::RegionalGlobalScalar,
    );
    add_when(
        &mut stages,
        options.enable_constant_address_count_reduction,
        Stage::ConstantAddressReduction,
    );
    add_when(
        &mut stages,
        options.enable_simple_loop_unroll,
        Stage::SimpleLoopUnroll { factor },
    );
    stages
}

fn build_finish(options: PassOptions) -> (r: Vec<Stage>)
    ensures
        r@ == finish(options),
{
    let mut stages: Vec<Stage> = vec![
        Stage::InstCombine { divisibility_only: false },
        Stage::ConstFold,
        Stage::GepInduction,
        Stage::PointerRecurrenceCoalesce,
    ];
    add_when(
        &mut stages,
        options.enable_regional_global_scalar_promotion,
        Stage::RegionalGlobalScalar,
    );
    let tail: Vec<Stage> = vec![
        Stage::Dce { keep_write_only_allocas: false },
        Stage::Cse,
        Stage::LocalForward,
        Stage::InstCombine { divisibility_only: false },
        Stage::Cse,
        Stage::Dce { keep_write_only_allocas: false },
        Stage::LocalMemzeroSink,
        Stage::SimplifyCfg { preserve_loop_preheaders: false },
        Stage::Dce { keep_write_only_allocas: false },
    ];
    add_all(&mut stages, tail);
    stages
}

/// Lists the stages of a pipeline.
pub fn build_schedule(level: OptLevel, options: PassOptions, factor: usize) -> (r: Vec<Stage>)
    ensures
        r@ == schedule(level, options, factor),
{
    match level {
        OptLevel::O0 => build_basic(),
        OptLevel::O1 => {
            let mut stages = build_preparation(options);
            add_all(&mut stages, build_inlining(options));
            add_all(&mut stages, build_loop_transforms(factor));
            add_all(&mut stages, build_optional_transforms(options, factor));
            add_all(&mut stages, build_finish(options));
            stages
        },
    }
}

// ---------------------------------------------------------------------------
// Running the stages
// ---------------------------------------------------------------------------

/// The effect of one stage. A stage that this crate does not carry leaves the
/// module as it is.
pub open spec fn after_stage(m: ModuleView, stage: Stage) -> ModuleView {
    match stage {
        Stage::SimplifyCfg { preserve_loop_preheaders } => simplify_cfg::simplified_module(
            m,
            preserve_loop_preheaders,
        ),
        Stage::RecursiveInline { rounds } => recursive_inline::expanded(m, rounds as nat),
        Stage::CfgInline { global_loads } => recursive_inline::cfg_inlined(m, global_loads),
        Stage::ScalarPromote => scalar_promote::promoted_module(m),
        Stage::RangeInteger => range_integer::simplified_module(m),
        Stage::ReductionJam { factor } => reduction_jam::jammed_module(m, factor as int),
        Stage::RepeatReduction => repeat_reduction::collapsed_module(m),
        Stage::RegionalGlobalScalar => regional_global_scalar::promoted_module(m),
        Stage::SimpleLoopUnroll { .. } => simple_loop_unroll::unrolled_module(m),
        Stage::PointerRecurrenceCoalesce => pointer_recurrence_coalesce::coalesced_module(m),
        _ => m,
    }
}

/// The effect of the first `n` stages.
pub open spec fn after_stages(m: ModuleView, stages: Seq<Stage>, n: int) -> ModuleView
    decreases n,
{
    if n <= 0 {
        m
    } else {
        after_stage(after_stages(m, stages, n - 1), stages[n - 1])
    }
}

/// The effect of a pipeline.
pub open spec fn optimized(
    m: ModuleView,
    level: OptLevel,
    options: PassOptions,
    factor: usize,
) -> ModuleView {
    let stages = schedule(level, options, factor);
    after_stages(m, stages, stages.len() as int)
}

proof fn lemma_stage_valid(m: ModuleView, stage: Stage)
    requires
        verify::all_valid(m),
    ensures
        verify::all_valid(after_stage(m, stage)),
{
    let n = after_stage(m, stage);
    match stage {
        Stage::RecursiveInline { rounds } => {
            inline_laws::inlining_keeps_validity(m, rounds as nat, false);
        },
        Stage::CfgInline { global_loads } => {
            inline_laws::inlining_keeps_validity(m, 0, global_loads);
        },
        _ => {
            assert forall|k: int| 0 <= k < n.funcs.len() implies verify::valid(
                #[trigger] n.funcs[k],
            ) by {
                let f = m.funcs[k];
                assert(verify::valid(f));
                match stage {
                    Stage::SimplifyCfg { preserve_loop_preheaders } => {
                        simplify_cfg::simplification_keeps_validity(f, preserve_loop_preheaders);
                    },
                    Stage::ScalarPromote => {
                        scalar_promote::promotion_keeps_validity(f);
                    },
                    Stage::RangeInteger => {
                        range_integer::simplifying_keeps_validity(f);
                    },
                    Stage::ReductionJam { factor } => {
                        jam_laws::jamming_keeps_validity(f, factor as int);
                    },
                    Stage::RepeatReduction => {
                        repeat_reduction::collapsing_keeps_validity(f);
                    },
                    Stage::RegionalGlobalScalar => {
                        regional_global_scalar::regional_passes_keep_validity(f);
                    },
                    Stage::SimpleLoopUnroll { .. } => {
                        simple_loop_unroll::unrolling_keeps_validity(f);
                    },
                    Stage::PointerRecurrenceCoalesce => {
                        coalesce_laws::coalescing_keeps_validity(
                            f,
                            pointer_recurrence_coalesce::unique_names(m),
                        );
                    },
                    _ => {},
                }
            }
        },
    }
}

proof fn lemma_stages_valid(m: ModuleView, stages: Seq<Stage>, n: int)
    requires
        verify::all_valid(m),
    ensures
        verify::all_valid(after_stages(m, stages, n)),
    decreases n,
{
    if n > 0 {
        lemma_stages_valid(m, stages, n - 1);
        lemma_stage_valid(after_stages(m, stages, n - 1), stages[n - 1]);
    }
}

proof fn lemma_first_stages(m: ModuleView, a: Seq<Stage>, b: Seq<Stage>, n: int)
    requires
        n <= a.len(),
        n <= b.len(),
        forall|k: int| 0 <= k < n ==> #[trigger] a[k] == b[k],
    ensures
        after_stages(m, a, n) == after_stages(m, b, n),
    decreases n,
{
    if n > 0 {
        lemma_first_stages(m, a, b, n - 1);
        assert(a[n - 1] == b[n - 1]);
    }
}

/// The stages of any list run in order: an empty list leaves the module as it
/// is, a list of one stage has the effect of the stage, and of two lists that
/// are run as one, the second starts from the module that the first left.
pub proof fn stages_run_in_order(m: ModuleView, a: Seq<Stage>, b: Seq<Stage>, stage: Stage)
    ensures
        after_stages(m, Seq::empty(), 0) == m,
        after_stages(m, seq![stage], 1) == after_stage(m, stage),
        after_stages(m, a + b, (a + b).len() as int) == after_stages(
            after_stages(m, a, a.len() as int),
            b,
            b.len() as int,
        ),
    decreases b.len(),
{
    reveal_with_fuel(after_stages, 2);
    if b.len() == 0 {
        assert(a + b =~= a);
    } else {
        let c = b.drop_last();
        let n = (a + b).len() as int;
        stages_run_in_order(m, a, c, stage);
        lemma_first_stages(m, a + b, a + c, n - 1);
        lemma_first_stages(after_stages(m, a, a.len() as int), b, c, b.len() - 1);
        assert((a + b)[n - 1] == b[b.len() - 1]);
    }
}

/// The pipeline turns valid functions into valid functions, at every level and
/// under every choice of options.
pub proof fn optimizing_keeps_validity(
    m: ModuleView,
    level: OptLevel,
    options: PassOptions,
    factor: usize,
)
    requires
        verify::all_valid(m),
    ensures
        verify::all_valid(optimized(m, level, options, factor)),
{
    let stages = schedule(level, options, factor);
    lemma_stages_valid(m, stages, stages.len() as int);
}

fn run_stage(module: &mut Module, stage: Stage)
    requires
        old(module)@.wf(),
    ensures
        final(module)@ == after_stage(old(module)@, stage),
        final(module)@.wf(),
{
    match stage {
        Stage::SimplifyCfg { preserve_loop_preheaders } => {
            SimplifyCfgPass { preserve_loop_preheaders }.run(module);
        },
        Stage::RecursiveInline { rounds } => {
            RecursiveInlinePass { expansion_rounds: rounds }.run(module);
        },
        Stage::CfgInline { global_loads } => {
            CfgInlinePass::new(global_loads).run(module);
        },
        Stage::ScalarPromote => {
            ScalarPromotePass::new().run(module);
        },
        Stage::RangeInteger => {
            RangeIntegerSimplifyPass::new().run(module);
        },
        Stage::ReductionJam { factor } => {
            ReductionJamPass { max_factor: factor }.run(module);
        },
        Stage::RepeatReduction => {
            RepeatReductionPass::new().run(module);
        },
        Stage::RegionalGlobalScalar => {
            RegionalGlobalScalarPass::new().run(module);
        },
        Stage::SimpleLoopUnroll { .. } => {
            SimpleLoopUnrollPass::new().run(module);
        },
        Stage::PointerRecurrenceCoalesce => {
            PointerRecurrenceCoalescePass::new().run(module);
        },
        _ => {},
    }
}

/// Runs the stages of a list, each once, in order, on the module that the stage
/// before it left.
pub fn run_stages(module: &mut Module, stages: &Vec<Stage>)
    requires
        old(module)@.wf(),
    ensures
        final(module)@ == after_stages(old(module)@, stages@, stages@.len() as int),
        final(module)@.wf(),
{
    let ghost m = module@;
    let n = stages.len();
    for i in 0..n
        invariant
            n == stages.len(),
            module@ == after_stages(m, stages@, i as int),
            module@.wf(),
    {
        run_stage(module, stages[i]);
    }
}

/// Optimizes a module.
pub fn run_pipeline(module: &mut Module, opt_level: OptLevel, options: PassOptions)
    requires
        old(module)@.wf(),
        opt_level == OptLevel::O1 ==> options.recursive_inline_rounds > 0,
    ensures
        final(module)@ == optimized(old(module)@, opt_level, options, 2),
        final(module)@.wf(),
{
    run_pipeline_with_reduction_jam_factor(module, opt_level, options, 2);
}

/// Optimizes a module; reductions are jammed by at most the given factor.
pub fn run_pipeline_with_reduction_jam_factor(
    module: &mut Module,
    opt_level: OptLevel,
    options: PassOptions,
    max_reduction_jam_factor: usize,
)
    requires
        old(module)@.wf(),
        opt_level == OptLevel::O1 ==> options.recursive_inline_rounds > 0,
        max_reduction_jam_factor == 2 || max_reduction_jam_factor == 4,
    ensures
        final(module)@ == optimized(old(module)@, opt_level, options, max_reduction_jam_factor),
        final(module)@.wf(),
{
    let stages = build_schedule(opt_level, options, max_reduction_jam_factor);
    run_stages(module, &stages);
}

} // verus!
