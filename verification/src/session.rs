//! Inference-session options and the plan the session is built from.
//!
//! Registering `TensorRT -> CUDA -> CPU` lets the runtime fall back operator
//! by operator; the CPU provider always closes the chain.
use vstd::prelude::*;

verus! {

/// Which execution providers to try.
#[derive(Debug, Clone, Copy, PartialEq, Eq, Structural)]
pub enum ExecutionProviderPreference {
    /// Every accelerator compiled in, then the CPU.
    Auto,
    /// The CPU only.
    CpuOnly,
}

impl Default for ExecutionProviderPreference {
    fn default() -> (r: Self)
        ensures
            r == ExecutionProviderPreference::Auto,
    {
        ExecutionProviderPreference::Auto
    }
}

/// cuDNN convolution-algorithm search.
#[derive(Debug, Clone, Copy, PartialEq, Eq, Structural)]
pub enum ConvAlgorithmSearchPref {
    Heuristic,
    /// Benchmarks every algorithm on the first inference. Slow first run,
    /// fastest subsequent runs.
    Exhaustive,
    /// Leave the runtime's default.
    OrtDefault,
}

impl Default for ConvAlgorithmSearchPref {
    fn default() -> (r: Self)
        ensures
            r == ConvAlgorithmSearchPref::Heuristic,
    {
        ConvAlgorithmSearchPref::Heuristic
    }
}

/// Graph optimisation level of the runtime.
#[derive(Debug, Clone, Copy, PartialEq, Eq, Structural)]
pub enum OptimizationLevel {
    Disable,
    Level1,
    Level2,
    Level3,
    All,
}

/// Options for building the inference session.
#[derive(Debug, Clone, Copy, PartialEq, Eq, Structural)]
pub struct SessionOptions {
    pub optimization: OptimizationLevel,
    /// `0` = let the runtime decide.
    pub intra_threads: usize,
    /// `0` = let the runtime decide.
    pub inter_threads: usize,
    pub device_id: i32,
    pub provider_preference: ExecutionProviderPreference,
    /// CUDA Graphs reduce kernel-launch overhead but require static input
    /// shapes. Safe to leave on for fixed-size YOLO inputs.
    pub cuda_graphs: bool,
    pub tensorrt_fp16: bool,
    pub cuda_conv_search: ConvAlgorithmSearchPref,
    pub cuda_tf32: bool,
    /// NHWC convolution layout (faster on Tensor-Core GPUs, may regress on
    /// older hardware).
    pub cuda_prefer_nhwc: bool,
    pub use_io_binding: bool,
}

impl Default for SessionOptions {
    fn default() -> (r: Self)
        ensures
            r == (SessionOptions {
                optimization: OptimizationLevel::Level3,
                intra_threads: 0,
                inter_threads: 0,
                device_id: 0,
                provider_preference: ExecutionProviderPreference::Auto,
                cuda_graphs: true,
                tensorrt_fp16: true,
                cuda_conv_search: ConvAlgorithmSearchPref::Heuristic,
                cuda_tf32: true,
                cuda_prefer_nhwc: false,
                use_io_binding: true,
            }),
    {
        SessionOptions {
            optimization: OptimizationLevel::Level3,
            intra_threads: 0,
            inter_threads: 0,
            device_id: 0,
            provider_preference: ExecutionProviderPreference::Auto,
            cuda_graphs: true,
            tensorrt_fp16: true,
            cuda_conv_search: ConvAlgorithmSearchPref::Heuristic,
            cuda_tf32: true,
            cuda_prefer_nhwc: false,
            use_io_binding: true,
        }
    }
}

/// An explicit convolution-algorithm search to request from CUDA.
#[derive(Debug, Clone, Copy, PartialEq, Eq, Structural)]
pub enum ConvSearch {
    Heuristic,
    Exhaustive,
}

/// One execution provider to register, with the settings to switch on.
#[derive(Debug, Clone, Copy, PartialEq, Eq, Structural)]
pub enum ProviderPlan {
    /// TensorRT with engine and timing caches.
    TensorRt { device_id: i32, fp16: bool, cuda_graph: bool },
    /// CUDA.
    Cuda {
        device_id: i32,
        conv_search: Option<ConvSearch>,
        tf32: bool,
        prefer_nhwc: bool,
        cuda_graph: bool,
    },
    /// The CPU.
    Cpu,
}

/// TensorRT settings derived from the options.
pub open spec fn tensorrt_plan(options: SessionOptions) -> ProviderPlan {
    ProviderPlan::TensorRt {
        device_id: options.device_id,
        fp16: options.tensorrt_fp16,
        cuda_graph: options.cuda_graphs,
    }
}

/// The explicit search a preference asks for, if any.
pub open spec fn conv_search_of(pref: ConvAlgorithmSearchPref) -> Option<ConvSearch> {
    match pref {
        ConvAlgorithmSearchPref::Heuristic => Some(ConvSearch::Heuristic),
        ConvAlgorithmSearchPref::Exhaustive => Some(ConvSearch::Exhaustive),
        ConvAlgorithmSearchPref::OrtDefault => None,
    }
}

/// CUDA settings derived from the options.
pub open spec fn cuda_plan(options: SessionOptions) -> ProviderPlan {
    ProviderPlan::Cuda {
        device_id: options.device_id,
        conv_search: conv_search_of(options.cuda_conv_search),
        tf32: options.cuda_tf32,
        prefer_nhwc: options.cuda_prefer_nhwc,
        cuda_graph: options.cuda_graphs,
    }
}

/// The provider chain: with `Auto`, TensorRT then CUDA where compiled in;
/// the CPU last in every case.
pub open spec fn provider_chain_spec(
    options: SessionOptions,
    tensorrt_available: bool,
    cuda_available: bool,
) -> Seq<ProviderPlan> {
    let auto = options.provider_preference == ExecutionProviderPreference::Auto;
    let trt: Seq<ProviderPlan> = if auto && tensorrt_available {
        seq![tensorrt_plan(options)]
    } else {
        Seq::empty()
    };
    let cuda: Seq<ProviderPlan> = if auto && cuda_available {
        seq![cuda_plan(options)]
    } else {
        Seq::empty()
    };
    trt + cuda + seq![ProviderPlan::Cpu]
}

/// Maps the convolution-search preference to an explicit request.
pub fn conv_search(pref: ConvAlgorithmSearchPref) -> (r: Option<ConvSearch>)
    ensures
        r == conv_search_of(pref),
{
    match pref {
        ConvAlgorithmSearchPref::Heuristic => Some(ConvSearch::Heuristic),
        ConvAlgorithmSearchPref::Exhaustive => Some(ConvSearch::Exhaustive),
        ConvAlgorithmSearchPref::OrtDefault => None,
    }
}

/// Every accelerator in the chain carries the requested settings: the
/// requested device, and TensorRT's FP16 and CUDA's convolution search, TF32,
/// NHWC and CUDA-graph choices as the options give them.
pub proof fn lemma_chain_carries_options(
    options: SessionOptions,
    tensorrt_available: bool,
    cuda_available: bool,
)
    ensures
        forall|k: int|
            0 <= k < provider_chain_spec(options, tensorrt_available, cuda_available).len() ==> match
                #[trigger] provider_chain_spec(options, tensorrt_available, cuda_available)[k] {
                ProviderPlan::TensorRt { device_id, fp16, cuda_graph } => {
                    &&& device_id == options.device_id
                    &&& fp16 == options.tensorrt_fp16
                    &&& cuda_graph == options.cuda_graphs
                },
                ProviderPlan::Cuda { device_id, conv_search, tf32, prefer_nhwc, cuda_graph } => {
                    &&& device_id == options.device_id
                    &&& tf32 == options.cuda_tf32
                    &&& prefer_nhwc == options.cuda_prefer_nhwc
                    &&& cuda_graph == options.cuda_graphs
                    &&& (options.cuda_conv_search == ConvAlgorithmSearchPref::Heuristic
                        ==> conv_search == Some(ConvSearch::Heuristic))
                    &&& (options.cuda_conv_search == ConvAlgorithmSearchPref::Exhaustive
                        ==> conv_search == Some(ConvSearch::Exhaustive))
                    &&& (options.cuda_conv_search == ConvAlgorithmSearchPref::OrtDefault
                        ==> conv_search is None)
                },
                ProviderPlan::Cpu => true,
            },
{
}

/// The chain is TensorRT, then CUDA, then the CPU: an accelerator is in it
/// exactly when the preference is `Auto` and the build supports it, it
/// appears once, and the CPU closes the chain and appears nowhere else.
pub proof fn lemma_chain_order(
    options: SessionOptions,
    tensorrt_available: bool,
    cuda_available: bool,
)
    ensures
        ({
            let chain = provider_chain_spec(options, tensorrt_available, cuda_available);
            let auto = options.provider_preference == ExecutionProviderPreference::Auto;
            &&& chain.len() == 1 + (if auto && tensorrt_available { 1int } else { 0 }) + (
            if auto && cuda_available {
                1int
            } else {
                0
            })
            &&& chain.last() is Cpu
            &&& forall|k: int| 0 <= k < chain.len() - 1 ==> !(#[trigger] chain[k] is Cpu)
            &&& (exists|k: int| 0 <= k < chain.len() && #[trigger] chain[k] is TensorRt) <==> (auto
                && tensorrt_available)
            &&& (exists|k: int| 0 <= k < chain.len() && #[trigger] chain[k] is Cuda) <==> (auto
                && cuda_available)
            &&& forall|a: int, b: int|
                0 <= a < chain.len() && 0 <= b < chain.len() && #[trigger] chain[a] is Cuda
                    && #[trigger] chain[b] is TensorRt ==> b < a
        }),
{
    let chain = provider_chain_spec(options, tensorrt_available, cuda_available);
    let auto = options.provider_preference == ExecutionProviderPreference::Auto;
    if auto && tensorrt_available {
        assert(chain[0] is TensorRt);
    }
    if auto && cuda_available {
        if tensorrt_available {
            assert(chain[1] is Cuda);
        } else {
            assert(chain[0] is Cuda);
        }
    }
}

/// Builds the execution-provider chain. `tensorrt_available` and
/// `cuda_available` say which accelerators the build supports.
pub fn build_provider_chain(
    options: &SessionOptions,
    tensorrt_available: bool,
    cuda_available: bool,
) -> (chain: Vec<ProviderPlan>)
    ensures
        chain@ == provider_chain_spec(*options, tensorrt_available, cuda_available),
        chain.len() > 0,
        chain@.last() == ProviderPlan::Cpu,
{
    let mut chain: Vec<ProviderPlan> = Vec::new();
    if options.provider_preference == ExecutionProviderPreference::Auto {
        if tensorrt_available {
            chain.push(
                ProviderPlan::TensorRt {
                    device_id: options.device_id,
                    fp16: options.tensorrt_fp16,
                    cuda_graph: options.cuda_graphs,
                },
            );
        }
        if cuda_available {
            chain.push(
                ProviderPlan::Cuda {
                    device_id: options.device_id,
                    conv_search: conv_search(options.cuda_conv_search),
                    tf32: options.cuda_tf32,
                    prefer_nhwc: options.cuda_prefer_nhwc,
                    cuda_graph: options.cuda_graphs,
                },
            );
        }
    }
    chain.push(ProviderPlan::Cpu);
    proof {
        assert(chain@ =~= provider_chain_spec(*options, tensorrt_available, cuda_available));
    }
    chain
}

/// How to configure the session builder.
#[derive(Debug, PartialEq, Eq)]
pub struct SessionPlan {
    pub optimization: OptimizationLevel,
    /// Intra-op threads to request, if any.
    pub intra_threads: Option<usize>,
    /// Inter-op threads to request, if any.
    pub inter_threads: Option<usize>,
    /// Execution providers to register, in order.
    pub providers: Vec<ProviderPlan>,
}

/// A thread count to request: only a non-zero one.
pub open spec fn thread_request(n: usize) -> Option<usize> {
    if n > 0 {
        Some(n)
    } else {
        None
    }
}

/// Zero threads leaves the choice to the runtime; any other count is
/// requested as it is.
pub proof fn lemma_thread_request(n: usize)
    ensures
        thread_request(n) is None <==> n == 0,
        n > 0 ==> thread_request(n) == Some(n),
{
}

/// Plans the session: optimisation level, thread counts (zero leaves the
/// runtime's choice) and the provider chain.
pub fn plan_session(options: &SessionOptions, tensorrt_available: bool, cuda_available: bool) -> (plan: SessionPlan)
    ensures
        plan.optimization == options.optimization,
        plan.intra_threads == thread_request(options.intra_threads),
        plan.inter_threads == thread_request(options.inter_threads),
        plan.providers@ == provider_chain_spec(*options, tensorrt_available, cuda_available),
{
    let intra_threads = if options.intra_threads > 0 {
        Some(options.intra_threads)
    } else {
        None
    };
    let inter_threads = if options.inter_threads > 0 {
        Some(options.inter_threads)
    } else {
        None
    };
    SessionPlan {
        optimization: options.optimization,
        intra_threads,
        inter_threads,
        providers: build_provider_chain(options, tensorrt_available, cuda_available),
    }
}

/// The name to bind: the first listed, or `fallback` when there is none.
pub fn first_name_or(names: &Vec<String>, fallback: &str) -> (r: String)
    ensures
        r@ == if names.len() > 0 {
            names[0]@
        } else {
            fallback@
        },
{
    if names.len() > 0 {
        names[0].clone()
    } else {
        fallback.to_owned()
    }
}

} // verus!
