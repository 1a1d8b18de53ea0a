use yolo_ort::{
    build_provider_chain, conv_search, plan_session, ConvAlgorithmSearchPref, ConvSearch,
    ExecutionProviderPreference, ModelVariant, OptimizationLevel, ProviderPlan, SessionOptions,
};

#[test]
fn variant_names_and_nms() {
    assert_eq!(ModelVariant::V5.as_str(), "YOLOv5");
    assert_eq!(ModelVariant::V11.as_str(), "YOLOv11");
    assert_eq!(ModelVariant::V26.as_str(), "YOLOv26");
    assert!(!ModelVariant::V5.skips_nms());
    assert!(!ModelVariant::V11.skips_nms());
    assert!(ModelVariant::V26.skips_nms());
}

#[test]
fn session_option_defaults() {
    let o = SessionOptions::default();
    assert_eq!(o.optimization, OptimizationLevel::Level3);
    assert_eq!((o.intra_threads, o.inter_threads, o.device_id), (0, 0, 0));
    assert_eq!(o.provider_preference, ExecutionProviderPreference::Auto);
    assert!(o.cuda_graphs && o.tensorrt_fp16 && o.cuda_tf32 && o.use_io_binding);
    assert!(!o.cuda_prefer_nhwc);
    assert_eq!(o.cuda_conv_search, ConvAlgorithmSearchPref::Heuristic);
    assert_eq!(ExecutionProviderPreference::default(), ExecutionProviderPreference::Auto);
    assert_eq!(ConvAlgorithmSearchPref::default(), ConvAlgorithmSearchPref::Heuristic);
}

#[test]
fn provider_chain_falls_back_to_cpu() {
    let o = SessionOptions::default();
    assert_eq!(
        build_provider_chain(&o, true, true),
        vec![
            ProviderPlan::TensorRt { device_id: 0, fp16: true, cuda_graph: true },
            ProviderPlan::Cuda {
                device_id: 0,
                conv_search: Some(ConvSearch::Heuristic),
                tf32: true,
                prefer_nhwc: false,
                cuda_graph: true,
            },
            ProviderPlan::Cpu,
        ]
    );
    assert_eq!(build_provider_chain(&o, false, false), vec![ProviderPlan::Cpu]);
    let cpu = SessionOptions { provider_preference: ExecutionProviderPreference::CpuOnly, ..o };
    assert_eq!(build_provider_chain(&cpu, true, true), vec![ProviderPlan::Cpu]);
}

#[test]
fn session_plan_requests_only_nonzero_thread_counts() {
    let o = SessionOptions { intra_threads: 4, cuda_conv_search: ConvAlgorithmSearchPref::OrtDefault, ..SessionOptions::default() };
    let plan = plan_session(&o, false, true);
    assert_eq!(plan.intra_threads, Some(4));
    assert_eq!(plan.inter_threads, None);
    assert_eq!(plan.optimization, OptimizationLevel::Level3);
    assert!(matches!(plan.providers[0], ProviderPlan::Cuda { conv_search: None, .. }));
    assert_eq!(conv_search(ConvAlgorithmSearchPref::Exhaustive), Some(ConvSearch::Exhaustive));
}
