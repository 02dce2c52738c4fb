use clawdengine::entity::EntityId;
use clawdengine::scripts::{drop_scripts_of, remove_script, resolve_scripts, scripts_of};

fn e(i: u32) -> EntityId {
    EntityId::new(i, 0)
}

fn attached() -> Vec<(EntityId, String)> {
    vec![
        (e(0), "Spin".to_string()),
        (e(1), "Spin".to_string()),
        (e(0), "Bounce".to_string()),
        (e(0), "Spin".to_string()),
    ]
}

#[test]
fn remove_script_takes_the_first_match_only() {
    let mut s = attached();
    remove_script(&mut s, e(0), "Spin");
    assert_eq!(
        s,
        vec![(e(1), "Spin".to_string()), (e(0), "Bounce".to_string()), (e(0), "Spin".to_string())]
    );
}

#[test]
fn remove_script_without_a_match_changes_nothing() {
    let mut s = attached();
    remove_script(&mut s, e(1), "Bounce");
    assert_eq!(s, attached());
}

#[test]
fn scripts_of_lists_an_entitys_scripts_in_order() {
    let s = attached();
    assert_eq!(scripts_of(&s, e(0)), vec!["Spin".to_string(), "Bounce".to_string(), "Spin".to_string()]);
    assert_eq!(scripts_of(&s, e(2)), Vec::<String>::new());
}

#[test]
fn dropping_scripts_of_deleted_entities_keeps_the_rest() {
    let mut s = attached();
    drop_scripts_of(&mut s, &vec![e(0), e(5)]);
    assert_eq!(s, vec![(e(1), "Spin".to_string())]);
}

#[test]
fn scripts_the_registry_does_not_know_are_skipped() {
    let attached = vec![
        (e(1), "Oscillate".to_string()),
        (e(2), "Missing".to_string()),
        (e(1), "Color Cycle".to_string()),
        (e(3), "Oscillate".to_string()),
    ];
    let registry = vec!["Color Cycle".to_string(), "Oscillate".to_string()];
    let kept = resolve_scripts(&attached, &registry);
    assert_eq!(
        kept,
        vec![(e(1), "Oscillate".to_string()), (e(1), "Color Cycle".to_string()), (e(3), "Oscillate".to_string())]
    );
    assert!(resolve_scripts(&attached, &Vec::new()).is_empty());
}
