use clawdengine::animator::{
    AnimatorControllerState, AnimatorParameter, ComparisonMode, ConditionCheck, ParameterTable, StateChange,
    TransitionCheck, TransitionSource,
};

fn cond(parameter: &str, mode: ComparisonMode, threshold_int: i32, float_holds: bool) -> ConditionCheck {
    ConditionCheck { parameter: parameter.to_string(), mode, threshold_int, float_holds }
}

fn trans(from: TransitionSource, to: usize, blends: bool, conditions: Vec<ConditionCheck>) -> TransitionCheck {
    TransitionCheck { from_state: from, to_state: to, exit_reached: true, blends, conditions }
}

#[test]
fn parameter_table_set_get_overwrite() {
    let mut t = ParameterTable::new();
    assert_eq!(t.get("speed"), None);
    t.set("speed", AnimatorParameter::Float(1.5f32.to_bits()));
    t.set("jump", AnimatorParameter::Trigger(true));
    t.set("speed", AnimatorParameter::Int(3));
    assert_eq!(t.get("speed"), Some(AnimatorParameter::Int(3)));
    assert_eq!(t.get("jump"), Some(AnimatorParameter::Trigger(true)));
}

#[test]
fn parameter_accessors_default_for_other_kinds() {
    let f = AnimatorParameter::Float(2.0f32.to_bits());
    assert_eq!(f32::from_bits(f.as_float_bits()), 2.0);
    assert_eq!(f.as_int(), 0);
    assert!(!f.as_bool());
    assert!(!f.as_trigger());
    assert_eq!(AnimatorParameter::Int(-4).as_int(), -4);
    assert_eq!(AnimatorParameter::Int(-4).as_float_bits(), 0);
    assert!(AnimatorParameter::Bool(true).as_bool());
    assert!(AnimatorParameter::Trigger(true).as_trigger());
}

#[test]
fn trigger_fires_once_and_is_consumed() {
    let mut params = ParameterTable::new();
    params.set("jump", AnimatorParameter::Trigger(false));
    let mut s = AnimatorControllerState::new_from(0, params);
    let ts = vec![trans(TransitionSource::State(0), 1, false, vec![cond("jump", ComparisonMode::Triggered, 0, false)])];
    assert_eq!(s.evaluate(&ts, false), StateChange::Unchanged);
    s.set_trigger("jump");
    assert_eq!(s.evaluate(&ts, false), StateChange::TransitionStarted { from: 0, to: 1, transition: 0 });
    assert_eq!(s.current_state, 1);
    assert_eq!(s.parameters.get("jump"), Some(AnimatorParameter::Trigger(false)));
    assert!(!s.is_blending);
    assert_eq!(s.previous_state, None);
}

#[test]
fn first_matching_transition_wins_and_blend_completes_later() {
    let mut params = ParameterTable::new();
    params.set("grounded", AnimatorParameter::Bool(true));
    params.set("hp", AnimatorParameter::Int(0));
    let mut s = AnimatorControllerState::new_from(2, params);
    let ts = vec![
        trans(TransitionSource::State(1), 5, false, vec![]),
        trans(TransitionSource::State(2), 3, true, vec![cond("hp", ComparisonMode::NotEquals, 0, false)]),
        trans(TransitionSource::AnyState, 4, true, vec![
            cond("grounded", ComparisonMode::IsTrue, 0, false),
            cond("hp", ComparisonMode::Equals, 0, false),
        ]),
        trans(TransitionSource::State(2), 6, false, vec![]),
    ];
    assert_eq!(s.evaluate(&ts, true), StateChange::TransitionStarted { from: 2, to: 4, transition: 2 });
    assert!(s.is_blending);
    assert_eq!(s.previous_state, Some(2));
    // an unfinished blend lets transitions be evaluated from the new state
    assert_eq!(s.evaluate(&ts, false), StateChange::Unchanged);
    // a finished blend completes and nothing else happens in that tick
    assert_eq!(s.evaluate(&ts, true), StateChange::BlendCompleted { state: 4 });
    assert!(!s.is_blending);
    assert_eq!(s.previous_state, None);
    assert_eq!(s.current_state, 4);
}

#[test]
fn any_state_never_targets_the_current_state_and_missing_parameters_fail() {
    let mut s = AnimatorControllerState::new_from(1, ParameterTable::new());
    let ts = vec![
        trans(TransitionSource::AnyState, 1, false, vec![]),
        trans(TransitionSource::State(1), 2, false, vec![cond("missing", ComparisonMode::IsFalse, 0, false)]),
    ];
    assert_eq!(s.evaluate(&ts, false), StateChange::Unchanged);
    s.set_bool("missing", false);
    assert_eq!(s.evaluate(&ts, false), StateChange::TransitionStarted { from: 1, to: 2, transition: 1 });
}

#[test]
fn exit_time_and_float_comparisons_come_from_the_caller() {
    let mut params = ParameterTable::new();
    params.set("speed", AnimatorParameter::Float(0.5f32.to_bits()));
    let mut s = AnimatorControllerState::new_from(0, params);
    let mut t = trans(TransitionSource::State(0), 1, false, vec![cond("speed", ComparisonMode::Greater, 0, true)]);
    t.exit_reached = false;
    assert_eq!(s.evaluate(&vec![t.clone()], false), StateChange::Unchanged);
    t.exit_reached = true;
    t.conditions[0].float_holds = false;
    assert_eq!(s.evaluate(&vec![t.clone()], false), StateChange::Unchanged);
    t.conditions[0].float_holds = true;
    assert_eq!(s.evaluate(&vec![t], false), StateChange::TransitionStarted { from: 0, to: 1, transition: 0 });
    s.set_int("lives", 3);
    s.set_float("speed", 0u32);
    assert_eq!(s.parameters.get("lives"), Some(AnimatorParameter::Int(3)));
    assert_eq!(s.parameters.get("speed"), Some(AnimatorParameter::Float(0)));
}
