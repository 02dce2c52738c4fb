use vstd::prelude::*;

use crate::text::str_eq;

verus! {

/// How a transition condition compares its parameter.
#[derive(Clone, Copy, Debug, PartialEq, Eq, Structural)]
pub enum ComparisonMode {
    /// Float/Int above the threshold.
    Greater,
    /// Float/Int below the threshold.
    Less,
    /// Int equal to the value.
    Equals,
    /// Int different from the value.
    NotEquals,
    /// Bool is true.
    IsTrue,
    /// Bool is false.
    IsFalse,
    /// Trigger is set; it is consumed when the transition fires.
    Triggered,
}

/// Where a transition starts from.
#[derive(Clone, Copy, Debug, PartialEq, Eq, Structural)]
pub enum TransitionSource {
    /// A specific state index.
    State(usize),
    /// Any state other than the target.
    AnyState,
}

/// A runtime parameter of an animator. A float parameter is kept as the bit
/// pattern of its single-precision value: comparing it against a threshold is
/// left to the caller.
#[derive(Clone, Copy, Debug, PartialEq, Eq, Structural)]
pub enum AnimatorParameter {
    Float(u32),
    Int(i32),
    Bool(bool),
    /// Reset to `false` once a transition that tests it fires.
    Trigger(bool),
}

impl AnimatorParameter {
    pub open spec fn float_bits(self) -> u32 {
        match self {
            AnimatorParameter::Float(b) => b,
            _ => 0,
        }
    }

    pub open spec fn int_value(self) -> i32 {
        match self {
            AnimatorParameter::Int(v) => v,
            _ => 0,
        }
    }

    pub open spec fn bool_value(self) -> bool {
        match self {
            AnimatorParameter::Bool(v) => v,
            _ => false,
        }
    }

    pub open spec fn trigger_value(self) -> bool {
        match self {
            AnimatorParameter::Trigger(v) => v,
            _ => false,
        }
    }

    /// The stored bits of a float parameter; `0` (the bits of zero) otherwise.
    pub fn as_float_bits(&self) -> (r: u32)
        ensures
            r == self.float_bits(),
    {
        match self {
            AnimatorParameter::Float(b) => *b,
            _ => 0,
        }
    }

    /// The value of an int parameter; `0` otherwise.
    pub fn as_int(&self) -> (r: i32)
        ensures
            r == self.int_value(),
    {
        match self {
            AnimatorParameter::Int(v) => *v,
            _ => 0,
        }
    }

    /// The value of a bool parameter; `false` otherwise.
    pub fn as_bool(&self) -> (r: bool)
        ensures
            r == self.bool_value(),
    {
        match self {
            AnimatorParameter::Bool(v) => *v,
            _ => false,
        }
    }

    /// The state of a trigger parameter; `false` otherwise.
    pub fn as_trigger(&self) -> (r: bool)
        ensures
            r == self.trigger_value(),
    {
        match self {
            AnimatorParameter::Trigger(v) => *v,
            _ => false,
        }
    }
}

/// The value recorded last under `k`.
pub open spec fn lookup(pairs: Seq<(Seq<char>, AnimatorParameter)>, k: Seq<char>) -> Option<AnimatorParameter>
    decreases pairs.len(),
{
    if pairs.len() == 0 {
        None
    } else if pairs.last().0 == k {
        Some(pairs.last().1)
    } else {
        lookup(pairs.drop_last(), k)
    }
}

/// The map recorded by a list of (name, value) pairs, later pairs winning.
pub open spec fn table_map(pairs: Seq<(Seq<char>, AnimatorParameter)>) -> Map<Seq<char>, AnimatorParameter>
    decreases pairs.len(),
{
    if pairs.len() == 0 {
        Map::empty()
    } else {
        table_map(pairs.drop_last()).insert(pairs.last().0, pairs.last().1)
    }
}

proof fn lemma_table_lookup(pairs: Seq<(Seq<char>, AnimatorParameter)>, q: Seq<char>)
    ensures
        table_map(pairs).contains_key(q) == lookup(pairs, q) is Some,
        table_map(pairs).contains_key(q) ==> table_map(pairs)[q] == lookup(pairs, q)->0,
    decreases pairs.len(),
{
    if pairs.len() > 0 {
        lemma_table_lookup(pairs.drop_last(), q);
    }
}

proof fn lemma_table_map_finite(pairs: Seq<(Seq<char>, AnimatorParameter)>)
    ensures
        table_map(pairs).dom().finite(),
    decreases pairs.len(),
{
    if pairs.len() > 0 {
        lemma_table_map_finite(pairs.drop_last());
    }
}

proof fn lemma_lookup_update(pairs: Seq<(Seq<char>, AnimatorParameter)>, j: int, v: AnimatorParameter, q: Seq<char>)
    requires
        0 <= j < pairs.len(),
        forall|m: int| j < m < pairs.len() ==> #[trigger] pairs[m].0 != pairs[j].0,
    ensures
        lookup(pairs.update(j, (pairs[j].0, v)), q) == (if q == pairs[j].0 { Some(v) } else { lookup(pairs, q) }),
    decreases pairs.len(),
{
    let u = pairs.update(j, (pairs[j].0, v));
    if j < pairs.len() - 1 {
        let t = pairs.drop_last();
        assert(u.drop_last() =~= t.update(j, (t[j].0, v)));
        assert forall|m: int| j < m < t.len() implies #[trigger] t[m].0 != t[j].0 by {
            assert(t[m] == pairs[m]);
        }
        lemma_lookup_update(t, j, v, q);
        assert(pairs.last().0 != pairs[j].0);
    } else {
        assert(u.drop_last() =~= pairs.drop_last());
    }
}

/// The runtime parameters of an animator, by name.
pub struct ParameterTable {
    entries: Vec<(String, AnimatorParameter)>,
}

impl ParameterTable {
    pub closed spec fn pairs(&self) -> Seq<(Seq<char>, AnimatorParameter)> {
        self.entries@.map_values(|e: (String, AnimatorParameter)| (e.0@, e.1))
    }
}

impl View for ParameterTable {
    type V = Map<Seq<char>, AnimatorParameter>;

    closed spec fn view(&self) -> Map<Seq<char>, AnimatorParameter> {
        table_map(self.pairs())
    }
}

impl ParameterTable {
    pub fn new() -> (t: Self)
        ensures
            t@ == Map::<Seq<char>, AnimatorParameter>::empty(),
    {
        let t = ParameterTable { entries: Vec::new() };
        assert(t.pairs() =~= Seq::empty());
        assert(t@ =~= Map::<Seq<char>, AnimatorParameter>::empty());
        t
    }

    /// The parameter stored under `name`, if any.
    pub fn get(&self, name: &str) -> (r: Option<AnimatorParameter>)
        ensures
            r == (if self@.contains_key(name@) { Some(self@[name@]) } else { None }),
    {
        let ghost pairs = self.pairs();
        proof {
            lemma_table_lookup(pairs, name@);
            assert(pairs.subrange(0, pairs.len() as int) =~= pairs);
        }
        let mut i: usize = self.entries.len();
        while i > 0
            invariant
                i <= self.entries@.len(),
                pairs == self.pairs(),
                lookup(pairs, name@) == lookup(pairs.subrange(0, i as int), name@),
            decreases i,
        {
            let e = &self.entries[i - 1];
            let ghost sub = pairs.subrange(0, i as int);
            assert(sub.last() == pairs[i - 1]);
            assert(sub.drop_last() =~= pairs.subrange(0, i - 1));
            assert(pairs[i - 1] == (self.entries@[i - 1].0@, self.entries@[i - 1].1));
            if str_eq(e.0.as_str(), name) {
                proof {
                    lemma_table_lookup(pairs, name@);
                }
                return Some(e.1);
            }
            i = i - 1;
        }
        assert(pairs.subrange(0, 0) =~= Seq::<(Seq<char>, AnimatorParameter)>::empty());
        None
    }

    /// Sets (or overwrites) the parameter stored under `name`.
    pub fn set(&mut self, name: &str, value: AnimatorParameter)
        ensures
            final(self)@ == old(self)@.insert(name@, value),
    {
        let ghost pairs = self.pairs();
        let mut i: usize = self.entries.len();
        while i > 0
            invariant
                i <= self.entries@.len(),
                pairs == self.pairs(),
                *self == *old(self),
                forall|m: int| i <= m < pairs.len() ==> #[trigger] pairs[m].0 != name@,
            decreases i,
        {
            if str_eq(self.entries[i - 1].0.as_str(), name) {
                let key = self.entries[i - 1].0.clone();
                self.entries.set(i - 1, (key, value));
                proof {
                    let j = i - 1;
                    assert(self.pairs() =~= pairs.update(j as int, (pairs[j as int].0, value)));
                    let target = old(self)@.insert(name@, value);
                    assert forall|q: Seq<char>| #[trigger] self@.dom().contains(q) == target.dom().contains(q)
                        && (self@.dom().contains(q) ==> self@[q] == target[q]) by {
                        lemma_lookup_update(pairs, j as int, value, q);
                        lemma_table_lookup(pairs, q);
                        lemma_table_lookup(self.pairs(), q);
                    }
                    assert(self@ =~= target);
                }
                return;
            }
            i = i - 1;
        }
        self.entries.push((name.to_owned(), value));
        proof {
            assert(self.pairs() =~= pairs.push((name@, value)));
            assert(self.pairs().drop_last() =~= pairs);
            assert(self@ == table_map(pairs).insert(name@, value));
        }
    }
}

/// One condition of a transition, as tested at this tick. For `Greater` and
/// `Less`, `float_holds` carries the outcome of comparing the parameter's float
/// value with the float threshold (made by the caller).
#[derive(Clone, Debug)]
pub struct ConditionCheck {
    pub parameter: String,
    pub mode: ComparisonMode,
    pub threshold_int: i32,
    pub float_holds: bool,
}

/// One transition, as tested at this tick: `exit_reached` is false exactly
/// when the transition waits for an exit time that the clip has not reached;
/// `blends` says whether its crossfade lasts a positive time.
#[derive(Clone, Debug)]
pub struct TransitionCheck {
    pub from_state: TransitionSource,
    pub to_state: usize,
    pub exit_reached: bool,
    pub blends: bool,
    pub conditions: Vec<ConditionCheck>,
}

/// What one `evaluate` tick changed.
#[derive(Clone, Copy, Debug, PartialEq, Eq, Structural)]
pub enum StateChange {
    Unchanged,
    /// Transition number `transition` fired, from `from` to `to`.
    TransitionStarted { from: usize, to: usize, transition: usize },
    BlendCompleted { state: usize },
}

pub open spec fn condition_met(params: Map<Seq<char>, AnimatorParameter>, c: ConditionCheck) -> bool {
    params.contains_key(c.parameter@) && {
        let p = params[c.parameter@];
        match c.mode {
            ComparisonMode::Greater => c.float_holds,
            ComparisonMode::Less => c.float_holds,
            ComparisonMode::Equals => p.int_value() == c.threshold_int,
            ComparisonMode::NotEquals => p.int_value() != c.threshold_int,
            ComparisonMode::IsTrue => p.bool_value(),
            ComparisonMode::IsFalse => !p.bool_value(),
            ComparisonMode::Triggered => p.trigger_value(),
        }
    }
}

/// What each kind of condition tests. A condition on a parameter the
/// controller does not have never holds. Otherwise: `Greater` and `Less` hold
/// exactly when the caller's float comparison (parameter above, resp. below,
/// the threshold) came out true; `Equals` holds exactly when the integer
/// value is the threshold and `NotEquals` exactly when it is not, so one of
/// the two holds; `IsTrue` holds exactly on a true flag and `IsFalse` exactly
/// on a false one; `Triggered` holds exactly on a set trigger.
pub proof fn law_condition_meaning(params: Map<Seq<char>, AnimatorParameter>, c: ConditionCheck)
    ensures
        !params.contains_key(c.parameter@) ==> !condition_met(params, c),
        params.contains_key(c.parameter@) ==> {
            let p = params[c.parameter@];
            &&& c.mode == ComparisonMode::Greater ==> (condition_met(params, c) <==> c.float_holds)
            &&& c.mode == ComparisonMode::Less ==> (condition_met(params, c) <==> c.float_holds)
            &&& c.mode == ComparisonMode::Equals ==> (condition_met(params, c) <==> p.int_value() == c.threshold_int)
            &&& c.mode == ComparisonMode::NotEquals ==> (condition_met(params, c) <==> p.int_value() != c.threshold_int)
            &&& c.mode == ComparisonMode::IsTrue ==> (condition_met(params, c) <==> p.bool_value())
            &&& c.mode == ComparisonMode::IsFalse ==> (condition_met(params, c) <==> !p.bool_value())
            &&& c.mode == ComparisonMode::Triggered ==> (condition_met(params, c) <==> p.trigger_value())
        },
{
}

pub open spec fn source_matches(from: TransitionSource, to: usize, current: usize) -> bool {
    match from {
        TransitionSource::State(i) => i == current,
        TransitionSource::AnyState => to != current,
    }
}

/// A transition fires from `current` when its source matches, its exit time
/// is reached and all its conditions hold.
pub open spec fn fires(params: Map<Seq<char>, AnimatorParameter>, t: TransitionCheck, current: usize) -> bool {
    &&& source_matches(t.from_state, t.to_state, current)
    &&& t.exit_reached
    &&& forall|i: int| 0 <= i < t.conditions@.len() ==> #[trigger] condition_met(params, t.conditions@[i])
}

/// Whether one of the conditions is a `Triggered` test of parameter `k`.
pub open spec fn consumes(cs: Seq<ConditionCheck>, k: Seq<char>) -> bool {
    exists|i: int| 0 <= i < cs.len() && cs[i].mode == ComparisonMode::Triggered && #[trigger] cs[i].parameter@ == k
}

/// The parameters after the triggers tested by `cs` have been reset.
pub open spec fn after_consuming(params: Map<Seq<char>, AnimatorParameter>, cs: Seq<ConditionCheck>) -> Map<
    Seq<char>,
    AnimatorParameter,
> {
    Map::new(
        |k: Seq<char>| params.contains_key(k),
        |k: Seq<char>|
            if consumes(cs, k) {
                AnimatorParameter::Trigger(false)
            } else {
                params[k]
            },
    )
}

/// A parameter table holds finitely many parameters.
pub proof fn law_parameters_finite(t: &ParameterTable)
    ensures
        t@.dom().finite(),
{
    lemma_table_map_finite(t.pairs());
}

/// Setting a parameter (what `set` does to the table's map) stores the value
/// under its name and leaves every other parameter as it was; the number of
/// parameters grows by one exactly when the name was new.
pub proof fn law_set_parameter(m: Map<Seq<char>, AnimatorParameter>, name: Seq<char>, value: AnimatorParameter)
    requires
        m.dom().finite(),
    ensures
        m.insert(name, value).contains_key(name),
        m.insert(name, value)[name] == value,
        forall|n: Seq<char>|
            n != name ==> (#[trigger] m.insert(name, value).contains_key(n) == m.contains_key(n) && (m.contains_key(n)
                ==> m.insert(name, value)[n] == m[n])),
        m.insert(name, value).dom().len() == m.dom().len() + if m.contains_key(name) {
            0int
        } else {
            1int
        },
{
    if m.contains_key(name) {
        assert(m.insert(name, value).dom() =~= m.dom());
    }
}

fn condition_holds(params: &ParameterTable, c: &ConditionCheck) -> (r: bool)
    ensures
        r == condition_met(params@, *c),
{
    match params.get(c.parameter.as_str()) {
        None => false,
        Some(p) => match c.mode {
            ComparisonMode::Greater => c.float_holds,
            ComparisonMode::Less => c.float_holds,
            ComparisonMode::Equals => p.as_int() == c.threshold_int,
            ComparisonMode::NotEquals => p.as_int() != c.threshold_int,
            ComparisonMode::IsTrue => p.as_bool(),
            ComparisonMode::IsFalse => !p.as_bool(),
            ComparisonMode::Triggered => p.as_trigger(),
        },
    }
}

fn transition_fires(params: &ParameterTable, t: &TransitionCheck, current: usize) -> (r: bool)
    ensures
        r == fires(params@, *t, current),
{
    let source_ok = match t.from_state {
        TransitionSource::State(i) => i == current,
        TransitionSource::AnyState => t.to_state != current,
    };
    if !source_ok || !t.exit_reached {
        return false;
    }
    let mut k: usize = 0;
    while k < t.conditions.len()
        invariant
            k <= t.conditions@.len(),
            forall|i: int| 0 <= i < k ==> #[trigger] condition_met(params@, t.conditions@[i]),
        decreases t.conditions@.len() - k,
    {
        if !condition_holds(params, &t.conditions[k]) {
            return false;
        }
        k = k + 1;
    }
    true
}

/// Resets every trigger that one of `cs` tests, where the parameter exists.
fn consume_triggers(params: &mut ParameterTable, cs: &Vec<ConditionCheck>)
    ensures
        final(params)@ == after_consuming(old(params)@, cs@),
{
    let ghost start = params@;
    let mut k: usize = 0;
    while k < cs.len()
        invariant
            k <= cs@.len(),
            params@ == after_consuming(start, cs@.subrange(0, k as int)),
        decreases cs@.len() - k,
    {
        let ghost before = params@;
        let c = &cs[k];
        let is_trigger = match c.mode {
            ComparisonMode::Triggered => true,
            _ => false,
        };
        if is_trigger {
            if params.get(c.parameter.as_str()).is_some() {
                params.set(c.parameter.as_str(), AnimatorParameter::Trigger(false));
            }
        }
        proof {
            let prev = cs@.subrange(0, k as int);
            let next = cs@.subrange(0, k + 1);
            assert forall|q: Seq<char>| consumes(next, q) == (consumes(prev, q) || (is_trigger && cs@[k as int].parameter@ == q)) by {
                if consumes(next, q) {
                    let i = choose|i: int| 0 <= i < next.len() && next[i].mode == ComparisonMode::Triggered && #[trigger] next[i].parameter@ == q;
                    if i < k {
                        assert(prev[i] == next[i]);
                    }
                }
                if consumes(prev, q) {
                    let i = choose|i: int| 0 <= i < prev.len() && prev[i].mode == ComparisonMode::Triggered && #[trigger] prev[i].parameter@ == q;
                    assert(prev[i] == next[i]);
                }
                if is_trigger && cs@[k as int].parameter@ == q {
                    assert(next[k as int] == cs@[k as int]);
                }
            }
            assert(params@ =~= after_consuming(start, next));
        }
        k = k + 1;
    }
    assert(cs@.subrange(0, cs@.len() as int) =~= cs@);
}

/// The discrete part of an animator's runtime state: the state it is in, the
/// state it blends from, and its parameters. Clip times and blend progress are
/// kept by the caller.
pub struct AnimatorControllerState {
    pub current_state: usize,
    pub previous_state: Option<usize>,
    pub is_blending: bool,
    pub parameters: ParameterTable,
}

impl AnimatorControllerState {
    /// A blend is under way exactly when there is a state blended from.
    pub open spec fn blend_paired(&self) -> bool {
        self.is_blending == self.previous_state is Some
    }

    /// Starts in `default_state`, not blending, with the given parameters.
    pub fn new_from(default_state: usize, parameters: ParameterTable) -> (s: Self)
        ensures
            s.current_state == default_state,
            s.previous_state is None,
            !s.is_blending,
            s.parameters@ == parameters@,
            s.blend_paired(),
    {
        AnimatorControllerState { current_state: default_state, previous_state: None, is_blending: false, parameters }
    }

    /// One tick. A blend under way that has now finished completes, and
    /// nothing else happens. Otherwise the first transition that fires from
    /// the current state is taken: the triggers it tests are reset, the
    /// current state becomes its target, and a blend from the old state starts
    /// when the transition blends.
    pub fn evaluate(&mut self, transitions: &Vec<TransitionCheck>, blend_finished: bool) -> (change: StateChange)
        ensures
            old(self).is_blending && blend_finished ==> {
                &&& change == (StateChange::BlendCompleted { state: old(self).current_state })
                &&& final(self).current_state == old(self).current_state
                &&& final(self).previous_state is None
                &&& !final(self).is_blending
                &&& final(self).parameters@ == old(self).parameters@
            },
            !(old(self).is_blending && blend_finished) ==> match change {
                StateChange::TransitionStarted { from, to, transition } => {
                    let t = transitions@[transition as int];
                    &&& transition < transitions@.len()
                    &&& fires(old(self).parameters@, t, old(self).current_state)
                    &&& forall|j: int| 0 <= j < transition ==> !#[trigger] fires(old(self).parameters@, transitions@[j], old(self).current_state)
                    &&& from == old(self).current_state
                    &&& to == t.to_state
                    &&& final(self).current_state == to
                    &&& final(self).previous_state == (if t.blends { Some(from) } else { None })
                    &&& final(self).is_blending == t.blends
                    &&& final(self).parameters@ == after_consuming(old(self).parameters@, t.conditions@)
                },
                StateChange::Unchanged => {
                    &&& forall|j: int| 0 <= j < transitions@.len() ==> !#[trigger] fires(old(self).parameters@, transitions@[j], old(self).current_state)
                    &&& final(self).current_state == old(self).current_state
                    &&& final(self).previous_state == old(self).previous_state
                    &&& final(self).is_blending == old(self).is_blending
                    &&& final(self).parameters@ == old(self).parameters@
                },
                StateChange::BlendCompleted { .. } => false,
            },
            old(self).blend_paired() ==> final(self).blend_paired(),
    {
        if self.is_blending && blend_finished {
            self.is_blending = false;
            self.previous_state = None;
            return StateChange::BlendCompleted { state: self.current_state };
        }
        let current = self.current_state;
        let mut k: usize = 0;
        while k < transitions.len()
            invariant
                k <= transitions@.len(),
                !(old(self).is_blending && blend_finished),
                self.current_state == current,
                self.current_state == old(self).current_state,
                self.previous_state == old(self).previous_state,
                self.is_blending == old(self).is_blending,
                self.parameters@ == old(self).parameters@,
                forall|j: int| 0 <= j < k ==> !#[trigger] fires(old(self).parameters@, transitions@[j], current),
            decreases transitions@.len() - k,
        {
            let t = &transitions[k];
            if transition_fires(&self.parameters, t, current) {
                consume_triggers(&mut self.parameters, &t.conditions);
                let to = t.to_state;
                self.current_state = to;
                if t.blends {
                    self.previous_state = Some(current);
                    self.is_blending = true;
                } else {
                    self.previous_state = None;
                    self.is_blending = false;
                }
                return StateChange::TransitionStarted { from: current, to, transition: k };
            }
            k = k + 1;
        }
        StateChange::Unchanged
    }

    /// Sets a float parameter (given as the bit pattern of its value).
    pub fn set_float(&mut self, name: &str, bits: u32)
        ensures
            final(self).parameters@ == old(self).parameters@.insert(name@, AnimatorParameter::Float(bits)),
            final(self).current_state == old(self).current_state,
            final(self).previous_state == old(self).previous_state,
            final(self).is_blending == old(self).is_blending,
    {
        self.parameters.set(name, AnimatorParameter::Float(bits));
    }

    pub fn set_int(&mut self, name: &str, value: i32)
        ensures
            final(self).parameters@ == old(self).parameters@.insert(name@, AnimatorParameter::Int(value)),
            final(self).current_state == old(self).current_state,
            final(self).previous_state == old(self).previous_state,
            final(self).is_blending == old(self).is_blending,
    {
        self.parameters.set(name, AnimatorParameter::Int(value));
    }

    pub fn set_bool(&mut self, name: &str, value: bool)
        ensures
            final(self).parameters@ == old(self).parameters@.insert(name@, AnimatorParameter::Bool(value)),
            final(self).current_state == old(self).current_state,
            final(self).previous_state == old(self).previous_state,
            final(self).is_blending == old(self).is_blending,
    {
        self.parameters.set(name, AnimatorParameter::Bool(value));
    }

    /// Sets a trigger; it stays set until a transition that tests it fires.
    pub fn set_trigger(&mut self, name: &str)
        ensures
            final(self).parameters@ == old(self).parameters@.insert(name@, AnimatorParameter::Trigger(true)),
            final(self).current_state == old(self).current_state,
            final(self).previous_state == old(self).previous_state,
            final(self).is_blending == old(self).is_blending,
    {
        self.parameters.set(name, AnimatorParameter::Trigger(true));
    }
}

} // verus!
