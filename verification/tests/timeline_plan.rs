use manim_rust::scene::{Mobject, SceneGraph};
use manim_rust::timeline::{apply_plan, path_targets, subset_targets, AnimationKind, Prop};

#[test]
fn kinds_drive_their_property() {
    assert_eq!(AnimationKind::Create.prop(), Prop::Path);
    assert_eq!(AnimationKind::ApplyWave.prop(), Prop::Path);
    assert_eq!(AnimationKind::FadeOut.prop(), Prop::Opacity);
    assert_eq!(AnimationKind::Restore.prop(), Prop::Transform);
    assert_eq!(AnimationKind::Travel.prop(), Prop::Transform);
    assert_eq!(AnimationKind::Recolor.prop(), Prop::Color);
}

#[test]
fn last_started_animation_wins_per_group() {
    let keys = vec![(0, Prop::Opacity), (0, Prop::Transform), (0, Prop::Opacity), (1, Prop::Path)];
    // before anything started: each group's first animation at alpha 0
    assert_eq!(
        apply_plan(&keys, &[false, false, false, false]),
        vec![(0, false), (1, false), (3, false)]
    );
    // both opacity animations started: the later one wins
    assert_eq!(
        apply_plan(&keys, &[true, true, true, false]),
        vec![(2, true), (1, true), (3, false)]
    );
    // only the first one started
    assert_eq!(
        apply_plan(&keys, &[true, false, false, true]),
        vec![(0, true), (1, false), (3, true)]
    );
    assert!(apply_plan(&[], &[]).is_empty());
}

#[test]
fn create_targets_fall_back_to_the_node() {
    let mut g: SceneGraph<&str, ()> = SceneGraph::new();
    let grp = g.add(Mobject::new(None, ()));
    let a = g.add_child(grp, Mobject::new(Some("a"), ()));
    let b = g.add_child(grp, Mobject::new(Some("b"), ()));
    assert_eq!(path_targets(&g, grp), vec![a, b]);
    let empty = g.add(Mobject::new(None, ()));
    assert_eq!(path_targets(&g, empty), vec![empty]);
    assert_eq!(subset_targets(&g, grp), vec![a, b]);
    assert_eq!(subset_targets(&g, a), vec![a]);
}
