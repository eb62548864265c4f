use provence::device::{choose_device, get_device, DeviceChoice, DeviceNotice};
use provence::labels::{id2label_len, same_labels, LabelError};
use std::collections::HashMap;

fn labels(pairs: &[(u32, &str)]) -> HashMap<u32, String> {
    pairs.iter().map(|(id, label)| (*id, label.to_string())).collect()
}

#[test]
fn labels_are_counted_from_either_source() {
    let three = labels(&[(0, "a"), (1, "b"), (7, "c")]);
    assert_eq!(id2label_len(&None, Some(three.clone())), Ok(3));
    assert_eq!(id2label_len(&Some(three.clone()), None), Ok(3));
    assert_eq!(id2label_len(&Some(three.clone()), Some(three)), Ok(3));
    assert_eq!(id2label_len(&Some(HashMap::new()), None), Ok(0));
}

#[test]
fn labels_must_be_known() {
    assert_eq!(id2label_len(&None, None), Err(LabelError::Missing));
}

#[test]
fn labels_from_both_sources_must_agree() {
    let configured = labels(&[(0, "a"), (1, "b")]);
    for given in [
        labels(&[(0, "a")]),
        labels(&[(0, "a"), (1, "c")]),
        labels(&[(0, "a"), (2, "b")]),
        labels(&[(0, "a"), (1, "b"), (2, "c")]),
    ] {
        assert!(!same_labels(&configured, &given));
        assert_eq!(
            id2label_len(&Some(configured.clone()), Some(given)),
            Err(LabelError::Different)
        );
    }
    assert!(same_labels(&configured, &labels(&[(1, "b"), (0, "a")])));
}

#[test]
fn the_cpu_is_used_on_request() {
    for quiet in [false, true] {
        assert_eq!(get_device(true, quiet, false), (DeviceChoice::Cpu, None));
        assert_eq!(choose_device(true, quiet, true, true, true), (DeviceChoice::Cpu, None));
    }
}

#[test]
fn gpus_come_before_the_cpu() {
    assert_eq!(choose_device(false, false, true, true, false), (DeviceChoice::Cuda(0), None));
    assert_eq!(choose_device(false, false, false, true, true), (DeviceChoice::Metal(0), None));
    assert_eq!(
        choose_device(false, false, false, false, true),
        (DeviceChoice::Cpu, Some(DeviceNotice::BuildWithMetal))
    );
    assert_eq!(
        choose_device(false, false, false, false, false),
        (DeviceChoice::Cpu, Some(DeviceNotice::BuildWithCuda))
    );
    assert_eq!(choose_device(false, true, false, false, false), (DeviceChoice::Cpu, None));
}

#[test]
fn the_device_is_one_that_candle_can_use() {
    let cuda = candle_core::utils::cuda_is_available();
    let metal = candle_core::utils::metal_is_available();
    assert_eq!(
        get_device(false, false, true),
        choose_device(false, false, cuda, metal, true)
    );
}
