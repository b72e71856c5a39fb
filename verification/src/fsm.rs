//! The state machine contract: commands decide events, events change state,
//! changes drive effects.

use vstd::prelude::*;

verus! {

/// An input to a state machine: either a command, which may or may not
/// produce an event, or an event, which is applied directly.
pub enum Input<C, E> {
    Command(C),
    Event(E),
}

/// How an event changed the state: either the state moved to a logically new
/// phase, or it was updated in place.
#[derive(Clone, Copy, Debug, PartialEq, Eq, Structural)]
pub enum Change {
    Transitioned,
    Updated,
}

impl<C: View, E: View> View for Input<C, E> {
    type V = Input<C::V, E::V>;

    open spec fn view(&self) -> Input<C::V, E::V> {
        match self {
            Input::Command(c) => Input::Command(c@),
            Input::Event(e) => Input::Event(e@),
        }
    }
}

/// The views of a sequence of values, in order.
pub open spec fn views_of<T: View>(s: Seq<T>) -> Seq<T::V> {
    s.map_values(|t: T| t@)
}

/// A clone whose result is known to carry the same view as the value it
/// was made from.  Items handed to several destinations at once implement this.
pub trait CloneView: View + Sized {
    /// Produce a value with the same view.
    fn clone_view(&self) -> (r: Self)
        ensures
            r@ == self@,
    ;
}

/// An event can declare itself terminating: once applied, the machine (or
/// the multiplexer entry) that owns it is torn down.
pub trait Terminating: View {
    /// Whether an event with this view is terminating.
    spec fn spec_terminating(v: Self::V) -> bool;

    /// Report whether this event is terminating.
    fn terminating(&self) -> (r: bool)
        ensures
            r == Self::spec_terminating(self@),
    ;
}

/// An effect handler that accumulates outputs and can hand them over:
/// `drain_all` extracts the pending outputs, in the order they were
/// produced, and leaves the handler with none pending.
pub trait Drain: View + Sized {
    /// The type of the accumulated outputs.
    type Item: View;

    /// The outputs an effect handler with this view has pending.
    spec fn spec_pending(v: Self::V) -> Seq<<Self::Item as View>::V>;

    /// The view of the handler once its pending outputs are gone.
    spec fn spec_cleared(v: Self::V) -> Self::V;

    /// Extract and clear the pending outputs.
    fn drain_all(&mut self) -> (out: Vec<Self::Item>)
        ensures
            views_of(out@) == Self::spec_pending(old(self)@),
            final(self)@ == Self::spec_cleared(old(self)@),
            Self::spec_pending(final(self)@) == Seq::<<Self::Item as View>::V>::empty(),
    ;
}

/// An effect handler that can prime itself from a freshly hydrated state,
/// before any input is processed.
pub trait Init<S: View>: View {
    /// The view of the handler after priming from a state with view `s`.
    spec fn spec_init(v: Self::V, s: S::V) -> Self::V;

    /// Prime this handler from the given state.
    fn init(&mut self, state: &S)
        ensures
            final(self)@ == Self::spec_init(old(self)@, state@),
    ;
}

/// A state machine over four types: a state `S`, commands `C`, events `E`
/// and an effect handler `SE`.  The behaviour of an implementation is pinned
/// down by spec functions over the views of those types: `decide` says which
/// event (if any) a command produces, `apply` says how an event changes the
/// state and how the change is classified, and the two effect functions say
/// what a command or a change does to the effect handler.
///
/// The executable methods are each required to agree with those functions,
/// so anything proved about the spec-level machine holds of a run of the
/// code.  [`step`] composes them in the only way the runtime ever does.
pub trait Fsm {
    /// The state managed by the machine.
    type S: View;

    /// The commands the machine can process.
    type C: View;

    /// The events the machine emits and applies.
    type E: View;

    /// The side effect handler.
    type SE: View;

    /// The state a freshly constructed machine starts from.
    spec fn initial() -> <Self::S as View>::V;

    /// The event, if any, that a command produces in a given state.
    spec fn decide(
        s: <Self::S as View>::V,
        c: <Self::C as View>::V,
        se: <Self::SE as View>::V,
    ) -> Option<<Self::E as View>::V>;

    /// What processing a command does to the effect handler.
    spec fn command_effects(
        s: <Self::S as View>::V,
        c: <Self::C as View>::V,
        se: <Self::SE as View>::V,
    ) -> <Self::SE as View>::V;

    /// How an event changes the state: `None` when the event is a no-op for
    /// this state, otherwise the change classification and the new state.
    spec fn apply(
        s: <Self::S as View>::V,
        e: <Self::E as View>::V,
    ) -> Option<(Change, <Self::S as View>::V)>;

    /// What reacting to an applied event does to the effect handler.  The
    /// state passed here is the state *after* the event was applied.
    spec fn change_effects(
        s: <Self::S as View>::V,
        e: <Self::E as View>::V,
        se: <Self::SE as View>::V,
        change: Change,
    ) -> <Self::SE as View>::V;

    /// Construct the initial state.
    fn default_state() -> (s: Self::S)
        ensures
            s@ == Self::initial(),
    ;

    /// Given a state and a command, optionally emit an event.  May perform
    /// side effects through `se`; must not change the state.
    fn for_command(s: &Self::S, c: Self::C, se: &mut Self::SE) -> (r: Option<Self::E>)
        ensures
            (match r {
                Some(e) => Self::decide(s@, c@, old(se)@) == Some(e@),
                None => Self::decide(s@, c@, old(se)@) is None,
            }),
            final(se)@ == Self::command_effects(s@, c@, old(se)@),
    ;

    /// Given a state and an event, change the state, reporting how it
    /// changed, or report `None` and leave the state untouched.  This is the
    /// only function that mutates state, so replaying events reconstructs
    /// it exactly.
    fn on_event(s: &mut Self::S, e: &Self::E) -> (r: Option<Change>)
        ensures
            (match Self::apply(old(s)@, e@) {
                Some(p) => r == Some(p.0) && final(s)@ == p.1,
                None => r is None && final(s)@ == old(s)@,
            }),
    ;

    /// React to an applied event with side effects, given the *new* state
    /// and the change classification.
    fn on_change(s: &Self::S, e: &Self::E, se: &mut Self::SE, change: Change)
        ensures
            final(se)@ == Self::change_effects(s@, e@, old(se)@, change),
    ;
}

/// The event that [`step`] will try to apply for a given input: a command is
/// first put to `decide`, an event is taken as already decided.
pub open spec fn step_event<M: Fsm>(
    s: <M::S as View>::V,
    i: Input<<M::C as View>::V, <M::E as View>::V>,
    se: <M::SE as View>::V,
) -> Option<<M::E as View>::V> {
    match i {
        Input::Command(c) => M::decide(s, c, se),
        Input::Event(e) => Some(e),
    }
}

/// The effect handler state after the command part of [`step`]: only a
/// command touches it at this point, an event input leaves it alone.
pub open spec fn step_command_effects<M: Fsm>(
    s: <M::S as View>::V,
    i: Input<<M::C as View>::V, <M::E as View>::V>,
    se: <M::SE as View>::V,
) -> <M::SE as View>::V {
    match i {
        Input::Command(c) => M::command_effects(s, c, se),
        Input::Event(_) => se,
    }
}

/// The complete outcome of one [`step`]: the event to log (if any), the new
/// state, and the new effect handler state.
pub open spec fn step_outcome<M: Fsm>(
    s: <M::S as View>::V,
    i: Input<<M::C as View>::V, <M::E as View>::V>,
    se: <M::SE as View>::V,
) -> (Option<<M::E as View>::V>, <M::S as View>::V, <M::SE as View>::V) {
    let se1 = step_command_effects::<M>(s, i, se);
    match step_event::<M>(s, i, se) {
        None => (None, s, se1),
        Some(e) => match M::apply(s, e) {
            None => (None, s, se1),
            Some((change, s2)) => (Some(e), s2, M::change_effects(s2, e, se1, change)),
        },
    }
}

/// The common entry point of the machine: decide an event for the input,
/// apply it, and on a successful change let the effect handler react.  The
/// returned event is the one to log; `None` means nothing happened and
/// nothing is to be logged.
pub fn step<M: Fsm>(s: &mut M::S, i: Input<M::C, M::E>, se: &mut M::SE) -> (r: Option<M::E>)
    ensures
        ({
            let (ev, s2, se2) = step_outcome::<M>(old(s)@, i@, old(se)@);
            &&& (match r {
                Some(e) => ev == Some(e@),
                None => ev is None,
            })
            &&& final(s)@ == s2
            &&& final(se)@ == se2
        }),
{
    let e = match i {
        Input::Command(c) => M::for_command(s, c, se),
        Input::Event(e) => Some(e),
    };
    if let Some(e) = e {
        let r = M::on_event(s, &e);
        if let Some(c) = r {
            M::on_change(s, &e, se, c);
            Some(e)
        } else {
            None
        }
    } else {
        None
    }
}

/// The state an event leaves behind: the changed state where the event
/// applies, the same state where it is a no-op.
pub open spec fn apply_or_skip<M: Fsm>(
    s: <M::S as View>::V,
    e: <M::E as View>::V,
) -> <M::S as View>::V {
    match M::apply(s, e) {
        Some(p) => p.1,
        None => s,
    }
}

/// The state reached by applying a sequence of events in order, skipping
/// the ones that do not apply.  This is both how a live machine's state
/// evolves under event inputs and how hydration replays a log.
pub open spec fn replay<M: Fsm>(s: <M::S as View>::V, evs: Seq<<M::E as View>::V>) -> <M::S as View>::V
    decreases evs.len(),
{
    if evs.len() == 0 {
        s
    } else {
        replay::<M>(apply_or_skip::<M>(s, evs[0]), evs.skip(1))
    }
}

/// The subsequence of a run of events that a machine starting at `s` would
/// log: exactly those that applied, in order.
pub open spec fn logged<M: Fsm>(
    s: <M::S as View>::V,
    evs: Seq<<M::E as View>::V>,
) -> Seq<<M::E as View>::V>
    decreases evs.len(),
{
    if evs.len() == 0 {
        Seq::empty()
    } else {
        let rest = logged::<M>(apply_or_skip::<M>(s, evs[0]), evs.skip(1));
        if M::apply(s, evs[0]) is Some {
            seq![evs[0]] + rest
        } else {
            rest
        }
    }
}

/// Prepending one event to a replay is the same as applying it first.
proof fn lemma_replay_unfold<M: Fsm>(
    s: <M::S as View>::V,
    e: <M::E as View>::V,
    evs: Seq<<M::E as View>::V>,
)
    ensures
        replay::<M>(s, seq![e] + evs) == replay::<M>(apply_or_skip::<M>(s, e), evs),
{
    let whole = seq![e] + evs;
    assert(whole[0] == e);
    assert(whole.skip(1) =~= evs);
}

/// Replaying one more event applies it to the replayed state.
pub proof fn lemma_replay_push<M: Fsm>(
    s: <M::S as View>::V,
    evs: Seq<<M::E as View>::V>,
    e: <M::E as View>::V,
)
    ensures
        replay::<M>(s, evs.push(e)) == apply_or_skip::<M>(replay::<M>(s, evs), e),
    decreases evs.len(),
{
    if evs.len() == 0 {
        assert(evs.push(e)[0] == e);
        assert(evs.push(e).skip(1) =~= Seq::<<M::E as View>::V>::empty());
        assert(replay::<M>(s, evs.push(e)) == replay::<M>(
            apply_or_skip::<M>(s, e),
            Seq::<<M::E as View>::V>::empty(),
        ));
    } else {
        let s2 = apply_or_skip::<M>(s, evs[0]);
        assert(evs.push(e)[0] == evs[0]);
        assert(evs.push(e).skip(1) =~= evs.skip(1).push(e));
        lemma_replay_push::<M>(s2, evs.skip(1), e);
        assert(replay::<M>(s, evs.push(e)) == replay::<M>(s2, evs.skip(1).push(e)));
        assert(replay::<M>(s, evs) == replay::<M>(s2, evs.skip(1)));
    }
}

/// Replay equivalence: replaying only the events a run logged, from the same
/// starting state, reaches exactly the state the live run reached.  The
/// skipped events were no-ops, so the log loses nothing.
pub proof fn lemma_replay_equivalence<M: Fsm>(
    s: <M::S as View>::V,
    evs: Seq<<M::E as View>::V>,
)
    ensures
        replay::<M>(s, logged::<M>(s, evs)) == replay::<M>(s, evs),
    decreases evs.len(),
{
    if evs.len() != 0 {
        let e = evs[0];
        let s2 = apply_or_skip::<M>(s, e);
        lemma_replay_equivalence::<M>(s2, evs.skip(1));
        if M::apply(s, e) is Some {
            lemma_replay_unfold::<M>(s, e, logged::<M>(s2, evs.skip(1)));
        } else {
            assert(s2 == s);
        }
    }
}

/// An event that is a no-op for the current state leaves no trace: the step
/// neither changes the state, nor runs the effect handler, nor returns an
/// event to log.
pub proof fn lemma_noop_event_step<M: Fsm>(
    s: <M::S as View>::V,
    e: <M::E as View>::V,
    se: <M::SE as View>::V,
)
    requires
        M::apply(s, e) is None,
    ensures
        step_outcome::<M>(s, Input::Event(e), se) == (
            None::<<M::E as View>::V>,
            s,
            se,
        ),
{
}

} // verus!
