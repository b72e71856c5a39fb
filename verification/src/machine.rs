//! The runtime core of one machine: an owned state and effect handler,
//! hydrated from an event log, then driven input by input.
//!
//! Waiting on queues and channels is asynchronous plumbing and lives outside
//! this crate; everything the runtime *decides* — how the state evolves,
//! which event is logged, which outputs are flushed and in what order, and
//! when the machine terminates — is here, with contracts.

use vstd::prelude::*;

use crate::adapter::notify_all;
use crate::adapter::Adapter;
use crate::fsm::views_of;
use crate::fsm::CloneView;
use crate::fsm::Drain;
use crate::fsm::Fsm;
use crate::fsm::Init;
use crate::fsm::Input;
use crate::fsm::Terminating;
use crate::fsm::lemma_replay_push;
use crate::fsm::replay;
use crate::fsm::step;
use crate::fsm::step_outcome;

verus! {

/// The one runtime-level error: a channel or queue that an item was bound
/// for is closed.  It is always fatal to the task that raises it.
#[derive(Clone, Copy, Debug, PartialEq, Eq, Structural)]
pub enum Error {
    ChannelClosed,
}

/// An effect handler that simply queues every output it is given, in order.
#[derive(Debug)]
pub struct OutputBuffer<A>(pub Vec<A>);

impl<A: View> View for OutputBuffer<A> {
    type V = Seq<A::V>;

    open spec fn view(&self) -> Seq<A::V> {
        views_of(self.0@)
    }
}

impl<A: View> OutputBuffer<A> {
    /// Queue one output.
    pub fn push(&mut self, item: A)
        ensures
            final(self)@ == old(self)@.push(item@),
    {
        let ghost pre = self.0@;
        self.0.push(item);
        proof {
            assert(views_of(self.0@) =~= views_of(pre).push(item@));
        }
    }
}

impl<A: View> Default for OutputBuffer<A> {
    /// An empty buffer.
    fn default() -> (r: Self)
        ensures
            r@ == Seq::<A::V>::empty(),
    {
        let r = OutputBuffer(Vec::new());
        proof {
            assert(r@ =~= Seq::<A::V>::empty());
        }
        r
    }
}

impl<A: View> Drain for OutputBuffer<A> {
    type Item = A;

    open spec fn spec_pending(v: Seq<A::V>) -> Seq<A::V> {
        v
    }

    open spec fn spec_cleared(v: Seq<A::V>) -> Seq<A::V> {
        Seq::empty()
    }

    fn drain_all(&mut self) -> (out: Vec<A>)
    {
        let mut out: Vec<A> = Vec::new();
        core::mem::swap(&mut out, &mut self.0);
        proof {
            assert(views_of(self.0@) =~= Seq::<A::V>::empty());
        }
        out
    }
}

impl<S: View, A: View> Init<S> for OutputBuffer<A> {
    open spec fn spec_init(v: Seq<A::V>, s: S::V) -> Seq<A::V> {
        v
    }

    fn init(&mut self, _state: &S) {
    }
}

/// What one input did to a machine: the event that was logged (if any), the
/// outputs the effect handler produced, in order, and whether the event was
/// terminating, in which case the machine's run is over.
pub struct Processed<E, O> {
    pub event: Option<E>,
    pub outputs: Vec<O>,
    pub terminating: bool,
}

/// One machine: a state and an effect handler, driven by [`Fsm`] `M`.
///
/// A run goes: [`Machine::hydrate`] from the historical events, once;
/// [`Machine::initialise`], whose returned outputs are flushed first; then
/// [`Machine::handle`] for each input, flushing outputs and logging the
/// returned event each time, until the inputs end or an event reports
/// terminating.
pub struct Machine<M: Fsm> {
    state: M::S,
    effects: M::SE,
}

impl<M: Fsm> View for Machine<M> {
    type V = (<M::S as View>::V, <M::SE as View>::V);

    closed spec fn view(&self) -> (<M::S as View>::V, <M::SE as View>::V) {
        (self.state@, self.effects@)
    }
}

/// Create a machine for `M` in its initial state, with an explicit effect
/// handler.
pub fn machine_with_effects<M: Fsm>(effects: M::SE) -> (m: Machine<M>)
    ensures
        m@.0 == M::initial(),
        m@.1 == effects@,
{
    Machine { state: M::default_state(), effects }
}

impl<M: Fsm> Machine<M> {
    /// The current state, for read-only inspection.
    pub fn state(&self) -> (r: &M::S)
        ensures
            r@ == self@.0,
    {
        &self.state
    }

    /// Replay historical events through `on_event` alone: no effects run,
    /// nothing is logged, events that do not apply are skipped.
    pub fn hydrate(&mut self, history: &Vec<M::E>)
        ensures
            final(self)@.0 == replay::<M>(old(self)@.0, views_of(history@)),
            final(self)@.1 == old(self)@.1,
    {
        let ghost evs = views_of(history@);
        let ghost s0 = self.state@;
        let n = history.len();
        proof {
            assert(evs.take(0) =~= Seq::<<M::E as View>::V>::empty());
        }
        for i in 0..n
            invariant
                n == history@.len(),
                evs == views_of(history@),
                self.state@ == replay::<M>(s0, evs.take(i as int)),
                self.effects@ == old(self)@.1,
        {
            M::on_event(&mut self.state, &history[i]);
            proof {
                assert(evs.take(i + 1) =~= evs.take(i as int).push(evs[i as int]));
                lemma_replay_push::<M>(s0, evs.take(i as int), evs[i as int]);
            }
        }
        proof {
            assert(evs.take(n as int) =~= evs);
        }
    }

    /// Let the effect handler prime itself from the hydrated state, and
    /// return the outputs it produced, to be flushed before any input.
    pub fn initialise(&mut self) -> (out: Vec<<M::SE as Drain>::Item>) where
        M::SE: Init<M::S> + Drain,

        ensures
            ({
                let se1 = <M::SE as Init<M::S>>::spec_init(old(self)@.1, old(self)@.0);
                &&& views_of(out@) == <M::SE as Drain>::spec_pending(se1)
                &&& final(self)@.1 == <M::SE as Drain>::spec_cleared(se1)
                &&& final(self)@.0 == old(self)@.0
            }),
    {
        let state = &mut self.state;
        self.effects.init(state);
        self.effects.drain_all()
    }

    /// Process one input: step the machine, extract the outputs the step
    /// produced, and report the event to log, if any, and whether it was
    /// terminating.
    pub fn handle(&mut self, input: Input<M::C, M::E>) -> (r: Processed<
        M::E,
        <M::SE as Drain>::Item,
    >) where M::E: Terminating, M::SE: Drain
        ensures
            ({
                let (ev, s2, se2) = step_outcome::<M>(old(self)@.0, input@, old(self)@.1);
                &&& (match r.event {
                    Some(e) => ev == Some(e@),
                    None => ev is None,
                })
                &&& final(self)@.0 == s2
                &&& final(self)@.1 == <M::SE as Drain>::spec_cleared(se2)
                &&& views_of(r.outputs@) == <M::SE as Drain>::spec_pending(se2)
                &&& r.terminating == (match ev {
                    Some(e) => <M::E as Terminating>::spec_terminating(e),
                    None => false,
                })
            }),
    {
        let event = step::<M>(&mut self.state, input, &mut self.effects);
        let outputs = self.effects.drain_all();
        let terminating = match &event {
            Some(e) => e.terminating(),
            None => false,
        };
        Processed { event, outputs, terminating }
    }
}

/// Everything a run over a sequence of inputs produced: the machine's
/// final state and effect handler, the events logged and the outputs
/// flushed, in order, and whether a terminating event cut the run short.
pub struct RunView<SV, SEV, EV, OV> {
    pub state: SV,
    pub effects: SEV,
    pub logged: Seq<EV>,
    pub outputs: Seq<OV>,
    pub terminated: bool,
}

/// The run of a machine over a sequence of inputs: each input is stepped,
/// its event logged and its outputs flushed, until the inputs end or an
/// event is terminating.
pub open spec fn spec_run<M: Fsm>(
    s: <M::S as View>::V,
    se: <M::SE as View>::V,
    inputs: Seq<Input<<M::C as View>::V, <M::E as View>::V>>,
) -> RunView<
    <M::S as View>::V,
    <M::SE as View>::V,
    <M::E as View>::V,
    <<M::SE as Drain>::Item as View>::V,
> where M::E: Terminating, M::SE: Drain
    decreases inputs.len(),
{
    if inputs.len() == 0 {
        RunView { state: s, effects: se, logged: Seq::empty(), outputs: Seq::empty(), terminated: false }
    } else {
        let (ev, s2, se2) = step_outcome::<M>(s, inputs[0], se);
        let flushed = <M::SE as Drain>::spec_pending(se2);
        let se3 = <M::SE as Drain>::spec_cleared(se2);
        let logged = match ev {
            Some(e) => seq![e],
            None => Seq::empty(),
        };
        let terminating = match ev {
            Some(e) => <M::E as Terminating>::spec_terminating(e),
            None => false,
        };
        if terminating {
            RunView { state: s2, effects: se3, logged, outputs: flushed, terminated: true }
        } else {
            let rest = spec_run::<M>(s2, se3, inputs.skip(1));
            RunView {
                state: rest.state,
                effects: rest.effects,
                logged: logged + rest.logged,
                outputs: flushed + rest.outputs,
                terminated: rest.terminated,
            }
        }
    }
}

/// Drive a machine over a whole sequence of inputs: every logged event
/// goes to the event log adapter and every output to the output adapter,
/// strictly in the order the steps produced them; the run stops early on
/// a terminating event, and says whether it did.
#[verifier::loop_isolation(false)]
pub fn run<M, L, O>(
    m: &mut Machine<M>,
    inputs: Vec<Input<M::C, M::E>>,
    log: &mut L,
    output: &mut O,
) -> (terminated: bool) where
    M: Fsm,
    M::E: Terminating + CloneView,
    M::SE: Drain,
    L: Adapter<Item = M::E>,
    O: Adapter<Item = <M::SE as Drain>::Item>,

    ensures
        ({
            let r = spec_run::<M>(old(m)@.0, old(m)@.1, views_of(inputs@));
            &&& final(m)@.0 == r.state
            &&& final(m)@.1 == r.effects
            &&& final(log)@ == notify_all::<L>(old(log)@, r.logged)
            &&& final(output)@ == notify_all::<O>(old(output)@, r.outputs)
            &&& terminated == r.terminated
        }),
{
    let ghost full = spec_run::<M>(m@.0, m@.1, views_of(inputs@));
    let mut inputs = inputs;
    while inputs.len() > 0
        invariant
            ({
                let rest = spec_run::<M>(m@.0, m@.1, views_of(inputs@));
                &&& full.state == rest.state
                &&& full.effects == rest.effects
                &&& full.terminated == rest.terminated
                &&& notify_all::<L>(old(log)@, full.logged) == notify_all::<L>(
                    log@,
                    rest.logged,
                )
                &&& notify_all::<O>(old(output)@, full.outputs) == notify_all::<O>(
                    output@,
                    rest.outputs,
                )
            }),
        decreases inputs@.len(),
    {
        let ghost rest_pre = spec_run::<M>(m@.0, m@.1, views_of(inputs@));
        let ghost ins = views_of(inputs@);
        let ghost log_pre = log@;
        let ghost out_pre = output@;
        let next = inputs.remove(0);
        proof {
            assert(ins[0] == next@);
            assert(views_of(inputs@) =~= ins.skip(1));
        }
        let ghost cur_s = m@.0;
        let ghost cur_se = m@.1;
        let done = m.handle(next);
        let ghost flushed = views_of(done.outputs@);
        let ghost ev = step_outcome::<M>(cur_s, ins[0], cur_se).0;
        let ghost lg: Seq<<M::E as View>::V> = match ev {
            Some(x) => seq![x],
            None => Seq::empty(),
        };
        match &done.event {
            Some(e) => {
                log.notify(e.clone_view());
                proof {
                    assert(lg =~= seq![e@]);
                    assert(lg[0] == e@);
                    assert(lg.skip(1) =~= Seq::<<M::E as View>::V>::empty());
                    assert(notify_all::<L>(log_pre, lg) == notify_all::<L>(
                        <L as Adapter>::spec_notify(log_pre, e@),
                        lg.skip(1),
                    ));
                    assert(notify_all::<L>(
                        <L as Adapter>::spec_notify(log_pre, e@),
                        Seq::<<M::E as View>::V>::empty(),
                    ) == <L as Adapter>::spec_notify(log_pre, e@));
                    assert(notify_all::<L>(log_pre, lg) == log@);
                }
            },
            None => {
                proof {
                    assert(lg =~= Seq::<<M::E as View>::V>::empty());
                    assert(notify_all::<L>(log_pre, lg) == log@);
                }
            },
        }
        let mut pending = done.outputs;
        let ghost out_iter = output@;
        while pending.len() > 0
            invariant
                views_of(pending@) =~= flushed.skip(flushed.len() - pending@.len()),
                pending@.len() <= flushed.len(),
                output@ == notify_all::<O>(out_iter, flushed.take(flushed.len() - pending@.len())),
            decreases pending@.len(),
        {
            let ghost taken = flushed.len() - pending@.len();
            let ghost pre_pending = views_of(pending@);
            let item = pending.remove(0);
            proof {
                assert(pre_pending[0] == item@);
                assert(flushed[taken] == item@);
                assert(views_of(pending@) =~= pre_pending.skip(1));
                assert(pre_pending.skip(1) =~= flushed.skip(taken + 1));
            }
            output.notify(item);
            proof {
                assert(flushed.take(taken + 1) =~= flushed.take(taken).push(flushed[taken]));
                crate::adapter::lemma_notify_all_push::<O>(
                    out_iter,
                    flushed.take(taken),
                    flushed[taken],
                );
            }
        }
        proof {
            assert(flushed.take(flushed.len() as int) =~= flushed);
            assert(output@ == notify_all::<O>(out_iter, flushed));
            assert(notify_all::<L>(log_pre, lg) == log@);
            if !done.terminating {
                let rest_now = spec_run::<M>(m@.0, m@.1, views_of(inputs@));
                assert(rest_pre.logged == lg + rest_now.logged);
                assert(rest_pre.outputs == flushed + rest_now.outputs);
                crate::adapter::lemma_notify_all_append::<L>(log_pre, lg, rest_now.logged);
                crate::adapter::lemma_notify_all_append::<O>(out_iter, flushed, rest_now.outputs);
            }
        }
        if done.terminating {
            proof {
                assert(rest_pre.logged == lg);
                assert(rest_pre.outputs == flushed);
                assert(rest_pre.terminated);
                assert(m@.0 == rest_pre.state);
                assert(m@.1 == rest_pre.effects);
                assert(notify_all::<L>(old(log)@, full.logged) == log@);
                assert(notify_all::<O>(old(output)@, full.outputs) == output@);
            }
            return true;
        }
    }
    proof {
        assert(views_of(inputs@) =~= Seq::<
            Input<<M::C as View>::V, <M::E as View>::V>,
        >::empty());
    }
    false
}

} // verus!
