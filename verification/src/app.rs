//! Events of the application's life cycle, and the order in which it
//! starts.
use std::time::Duration;

use vstd::prelude::*;

use crate::layer::events::Event;
use crate::update_layer::outcomes;

verus! {

/// Irregular update event
#[derive(Debug)]
pub struct TickEvent(pub Duration);

impl Clone for TickEvent {
    fn clone(&self) -> (r: Self)
        ensures
            r == *self,
    {
        TickEvent(self.0)
    }
}

#[derive(Debug, Clone, Copy)]
pub struct PostInitEvent;

impl Event for TickEvent {}

impl Event for PostInitEvent {}

/// The steps of starting an application: registering each layer, in
/// order, then telling the layers that the application is initialized.
#[derive(Debug, Clone, Copy, PartialEq, Eq, Structural)]
pub enum InitStep {
    Register(usize),
    PostInit,
}

/// The steps of starting an application of `layers` layers.
pub open spec fn init_steps(layers: nat) -> Seq<InitStep> {
    Seq::new(layers, |i: int| InitStep::Register(i as usize)).push(InitStep::PostInit)
}

/// What takes the steps of starting an application.
pub trait Starter {
    type Error;

    /// Whether the starter keeps, in [`taken`](Starter::taken), a record of
    /// the steps it took. One that keeps none states nothing.
    open spec fn keeps_log() -> bool {
        false
    }

    /// The steps taken so far, in order, each with whether it succeeded.
    open spec fn taken(&self) -> Seq<(InitStep, bool)> {
        Seq::empty()
    }

    /// Registers the callbacks of the layer at `index`.
    fn register(&mut self, index: usize) -> (r: Result<(), Self::Error>)
        ensures
            Self::keeps_log() ==> final(self).taken() == old(self).taken().push((InitStep::Register(index), r is Ok)),
    ;

    /// Tells the layers that the application is initialized.
    fn post_init(&mut self) -> (r: Result<(), Self::Error>)
        ensures
            Self::keeps_log() ==> final(self).taken() == old(self).taken().push((InitStep::PostInit, r is Ok)),
    ;
}

/// Registers the `layers` layers in order, then tells them that the
/// application is initialized, stopping at the first step that fails: on
/// an error, the step taken last is the one that failed.
pub fn init_layers<S: Starter>(starter: &mut S, layers: usize) -> (r: Result<(), S::Error>)
    ensures
        S::keeps_log() ==> (r is Ok ==> final(starter).taken() == old(starter).taken()
            + outcomes(init_steps(layers as nat), layers + 1, false)),
        S::keeps_log() ==> (r is Err ==> exists|k: int|
            0 < k <= layers + 1 && final(starter).taken() == old(starter).taken()
                + #[trigger] outcomes(init_steps(layers as nat), k, true)),
{
    let ghost steps = init_steps(layers as nat);
    for i in 0..layers
        invariant
            steps == init_steps(layers as nat),
            S::keeps_log() ==> starter.taken() == old(starter).taken() + outcomes(steps, i as int, false),
    {
        let r = starter.register(i);
        proof {
            if S::keeps_log() {
                assert(steps[i as int] == InitStep::Register(i));
                if r is Ok {
                    assert(outcomes(steps, i + 1, false) =~= outcomes(steps, i as int, false).push((InitStep::Register(i), true)));
                    assert(starter.taken() =~= old(starter).taken() + outcomes(steps, i + 1, false));
                } else {
                    assert(outcomes(steps, i + 1, true) =~= outcomes(steps, i as int, false).push((InitStep::Register(i), false)));
                    assert(starter.taken() =~= old(starter).taken() + outcomes(steps, i + 1, true));
                }
            }
        }
        if r.is_err() {
            return r;
        }
    }
    let r = starter.post_init();
    proof {
        if S::keeps_log() {
            assert(steps[layers as int] == InitStep::PostInit);
            if r is Ok {
                assert(outcomes(steps, layers + 1, false) =~= outcomes(steps, layers as int, false).push((InitStep::PostInit, true)));
                assert(starter.taken() =~= old(starter).taken() + outcomes(steps, layers + 1, false));
            } else {
                assert(outcomes(steps, layers + 1, true) =~= outcomes(steps, layers as int, false).push((InitStep::PostInit, false)));
                assert(starter.taken() =~= old(starter).taken() + outcomes(steps, layers + 1, true));
            }
        }
    }
    r
}

} // verus!
