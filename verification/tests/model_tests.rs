use backend::{AdaptStep, AdaptiveParameters, MarkoutTime};

#[test]
fn test_adaptive_parameters_initial() {
    let params = AdaptiveParameters::new();
    assert_eq!(params.delta_partial, 20);
    assert_eq!(params.delta_final, 10);
    assert_eq!(params.buffer_size, 200);
}

#[test]
fn test_adaptive_parameters_scaling() {
    let mut params = AdaptiveParameters::new();

    let initial_delta_partial = params.delta_partial;
    let initial_delta_final = params.delta_final;
    let initial_buffer_size = params.buffer_size;

    // A large sample, as in a distribution of 10,000 observations.
    params.adapt(10000);

    assert!(
        params.delta_partial != initial_delta_partial
            || params.delta_final != initial_delta_final
            || params.buffer_size != initial_buffer_size,
        "Parameters should change after adaptation"
    );
    assert!(
        params.delta_partial > initial_delta_partial
            || params.delta_final > initial_delta_final
            || params.buffer_size > initial_buffer_size,
        "At least one parameter should increase after adaptation"
    );
}

#[test]
fn test_adaptive_parameters_reset() {
    let mut params = AdaptiveParameters::new();
    params.adapt(10000);
    params.reset();

    assert_eq!(params.delta_partial, params.base_delta_partial);
    assert_eq!(params.delta_final, params.base_delta_final);
    assert_eq!(params.buffer_size, params.base_buffer_size);
    assert_eq!(params.samples_seen, 0);
    assert_eq!(params.adapted, false);
}

#[test]
fn test_display_format() {
    assert_eq!(MarkoutTime::Negative2.to_string(), "-2.0");
    assert_eq!(MarkoutTime::Zero.to_string(), "0.0");
    assert_eq!(MarkoutTime::Positive2.to_string(), "2.0");
    assert_eq!(MarkoutTime::Brontes.to_string(), "brontes");
}

#[test]
fn adapt_scales_up_once_past_the_initial_threshold() {
    let mut params = AdaptiveParameters::new();
    assert_eq!(params.adapt(1999), AdaptStep::Unchanged);
    assert_eq!(params.delta_partial, 20);
    assert_eq!(params.adapt(3000), AdaptStep::InitialScaling);
    // 20 * 3000 / 2000 = 30, 10 * 3000 / 2000 = 15, 200 * 3000 / 2000 = 300.
    assert_eq!(params.delta_partial, 30);
    assert_eq!(params.delta_final, 15);
    assert_eq!(params.buffer_size, 300);
    // Scaled once; below the fine-tuning threshold nothing changes.
    assert_eq!(params.adapt(5000), AdaptStep::Unchanged);
    assert_eq!(params.adapt(10000), AdaptStep::FineTune);
}

#[test]
fn initial_scaling_is_at_most_twofold() {
    let mut params = AdaptiveParameters::new();
    params.adapt(100000);
    assert_eq!(params.delta_partial, 40);
    assert_eq!(params.delta_final, 20);
    assert_eq!(params.buffer_size, 400);
}

#[test]
fn should_merge_when_the_buffer_is_full() {
    let params = AdaptiveParameters::new();
    assert!(!params.should_merge(199));
    assert!(params.should_merge(200));
}

#[test]
fn markout_half_seconds_round_trip() {
    for m in backend::markout_times() {
        let h = m.half_seconds().unwrap();
        assert_eq!(MarkoutTime::from_half_seconds(h as i64), Some(m));
    }
    assert_eq!(MarkoutTime::Brontes.half_seconds(), None);
    assert_eq!(MarkoutTime::from_half_seconds(5), None);
    assert_eq!(MarkoutTime::from_half_seconds(-5), None);
    assert_eq!(MarkoutTime::Negative15.half_seconds(), Some(-3));
}

#[test]
fn markout_labels() {
    assert_eq!(MarkoutTime::Negative15.to_string(), "-1.5");
    assert_eq!(MarkoutTime::Positive05.to_string(), "0.5");
    assert_eq!(backend::markout_times().len(), 9);
}
