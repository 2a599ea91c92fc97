use bevy_prototype_animation::graph::{ClipId, Weight};
use bevy_prototype_animation::track::{
    AnimationClip, GetCurveError, PropertyKey, TrackError, TrackStore, ValueKind,
};

fn w(x: f32) -> Weight {
    Weight(x.to_bits())
}

#[test]
fn registration_is_atomic_on_type_conflict() {
    let mut store: TrackStore<u32> = TrackStore::new();
    let first = AnimationClip::builder()
        .add_curve(PropertyKey(1), ValueKind::Float32, 10)
        .build();
    assert_eq!(store.add_clip(ClipId(0), &first), Ok(()));

    let second = AnimationClip::builder()
        .add_curve(PropertyKey(2), ValueKind::Float32, 20)
        .add_curve(PropertyKey(1), ValueKind::Bool, 21)
        .build();
    assert_eq!(store.add_clip(ClipId(1), &second), Err(TrackError::IncorrectType));

    let weights = vec![w(1.0), w(1.0)];
    assert_eq!(
        store.sample_inputs(PropertyKey(2), ValueKind::Float32, &weights),
        Err(TrackError::MissingTrack)
    );
    assert_eq!(
        store.sample_inputs(PropertyKey(1), ValueKind::Float32, &weights),
        Ok(vec![(ClipId(0), w(1.0), 10)])
    );
}

#[test]
fn later_clips_extend_existing_tracks() {
    let mut store: TrackStore<u32> = TrackStore::new();
    let a = AnimationClip::builder().add_curve(PropertyKey(1), ValueKind::Quat, 1).build();
    let b = AnimationClip::builder()
        .add_curve(PropertyKey(1), ValueKind::Quat, 2)
        .add_curve(PropertyKey(5), ValueKind::Quat, 3)
        .build();
    store.add_clip(ClipId(0), &a).unwrap();
    store.add_clip(ClipId(3), &b).unwrap();
    let weights = vec![w(0.5), w(1.0), w(1.0), w(0.25)];
    assert_eq!(
        store.sample_inputs(PropertyKey(1), ValueKind::Quat, &weights),
        Ok(vec![(ClipId(0), w(0.5), 1), (ClipId(3), w(0.25), 2)])
    );
    assert_eq!(
        store.sample_inputs(PropertyKey(5), ValueKind::Quat, &weights),
        Ok(vec![(ClipId(3), w(0.25), 3)])
    );
}

#[test]
fn sampling_skips_zero_weights_and_missing_curves() {
    let mut store: TrackStore<u32> = TrackStore::new();
    for id in 0..4u16 {
        if id == 2 {
            continue;
        }
        let clip = AnimationClip::builder()
            .add_curve(PropertyKey(9), ValueKind::Float32x3, 100 + id as u32)
            .build();
        store.add_clip(ClipId(id), &clip).unwrap();
    }
    let weights = vec![w(0.0), w(0.4), w(0.9), w(-0.0), w(1.0)];
    assert_eq!(
        store.sample_inputs(PropertyKey(9), ValueKind::Float32x3, &weights),
        Ok(vec![(ClipId(1), w(0.4), 101)])
    );
    assert_eq!(
        store.sample_inputs(PropertyKey(9), ValueKind::Float32, &weights),
        Err(TrackError::IncorrectType)
    );
    assert_eq!(
        store.sample_inputs(PropertyKey(8), ValueKind::Float32x3, &weights),
        Err(TrackError::MissingTrack)
    );
}

#[test]
fn clip_curve_lookup() {
    let clip = AnimationClip::builder()
        .add_curve(PropertyKey(1), ValueKind::Float32, 7u32)
        .add_curve(PropertyKey(2), ValueKind::Bool, 8u32)
        .add_curve(PropertyKey(1), ValueKind::Float32x2, 9u32)
        .build();
    assert_eq!(clip.properties(), vec![PropertyKey(1), PropertyKey(2)]);
    assert_eq!(clip.get_curve(PropertyKey(1), ValueKind::Float32x2), Ok(9));
    assert_eq!(
        clip.get_curve(PropertyKey(1), ValueKind::Float32),
        Err(GetCurveError::WrongType)
    );
    assert_eq!(
        clip.get_curve(PropertyKey(3), ValueKind::Float32),
        Err(GetCurveError::MissingKey)
    );
}
