use tpt_aura::detector::{
    default_detector, detector_for, Backend, CoreMlDetector, Detector, StubDetector,
    TensorRtDetector,
};
use tpt_aura::error::AuraError;
use tpt_aura::neural::RgbImage;

#[test]
fn stub_detector_produces_nonempty_dag() {
    let img = RgbImage::new(16, 16);
    let dag = StubDetector.detect(&img).unwrap();
    assert!(!dag.nodes.is_empty());
    assert!(!dag.has_cycle());
}

#[test]
fn stub_detector_masks_split_the_frame() {
    let img = RgbImage::new(2, 3);
    let dag = StubDetector.detect(&img).unwrap();
    assert_eq!(dag.nodes[0].label, "Sky");
    assert_eq!(dag.nodes[0].bitmask().unwrap(), vec![1, 1, 0, 0, 0, 0]);
    assert_eq!(dag.nodes[1].label, "Ground");
    assert_eq!(dag.nodes[1].bitmask().unwrap(), vec![0, 0, 1, 1, 1, 1]);
    assert_eq!(f32::from_bits(dag.nodes[0].confidence_bits), 0.95);
    assert_eq!(f32::from_bits(dag.nodes[1].confidence_bits), 0.90);
    assert_eq!((dag.edges[0].source, dag.edges[0].target), (2, 1));
    assert_eq!(dag.edges[0].relationship, "below");
    let empty = StubDetector.detect(&RgbImage::new(0, 5)).unwrap();
    assert!(empty.nodes.is_empty() && empty.edges.is_empty());
}

#[test]
fn backends_and_names() {
    assert_eq!(detector_for(Backend::Stub).unwrap().name(), "stub");
    assert!(matches!(detector_for(Backend::Ort), Err(AuraError::Unsupported(_))));
    assert!(matches!(detector_for(Backend::CoreMl), Err(AuraError::Unsupported(_))));
    assert!(matches!(detector_for(Backend::TensorRt), Err(AuraError::Unsupported(_))));
    assert_eq!(default_detector().name(), "stub");
    assert_eq!(CoreMlDetector.name(), "coreml");
    assert_eq!(TensorRtDetector.name(), "tensorrt");
    assert!(CoreMlDetector.detect(&RgbImage::new(1, 1)).is_err());
    assert!(TensorRtDetector.detect(&RgbImage::new(1, 1)).is_err());
}

#[test]
fn detector_for_stub_is_the_stub() {
    let d = detector_for(Backend::Stub).unwrap();
    assert_eq!(d.name(), "stub");
    assert_eq!(default_detector().name(), "stub");
}
