//! Pausing and resuming, driven by two signals.

use vstd::prelude::*;

verus! {

/// Whether the visualizer is paused.
///
/// The signal side pauses and resumes; the frame loop asks before every frame
/// whether it may go on. Whoever shares a control between threads guards it with a
/// lock, sleeps on a condition variable where it is told to wait, and notifies that
/// variable where a change wakes the sleepers.
#[derive(Debug)]
pub struct PauseControl {
    paused: bool,
}

/// Who is to be woken after a change.
#[derive(Clone, Copy, Debug, PartialEq, Eq, Structural)]
pub enum Wake {
    Nobody,
    Everyone,
}

/// What the frame loop does next.
#[derive(Clone, Copy, Debug, PartialEq, Eq, Structural)]
pub enum Turn {
    /// Go on with the frame.
    Proceed,
    /// Sleep until woken, then ask again.
    Wait,
}

/// What a signal asks for.
pub enum Request {
    Pause,
    Resume,
    Nothing,
}

/// What `signal` asks for, given the signals that stand for the two requests.
pub open spec fn request_of(signal: i32, pause_signal: i32, resume_signal: i32) -> Request {
    if signal == pause_signal {
        Request::Pause
    } else if signal == resume_signal {
        Request::Resume
    } else {
        Request::Nothing
    }
}

/// Whether the control is paused after a request, given whether it was before.
pub open spec fn paused_by(paused: bool, request: Request) -> bool {
    match request {
        Request::Pause => true,
        Request::Resume => false,
        Request::Nothing => paused,
    }
}

/// What a control in a given state tells the frame loop.
pub open spec fn turn_of(paused: bool) -> Turn {
    if paused {
        Turn::Wait
    } else {
        Turn::Proceed
    }
}

impl View for PauseControl {
    type V = bool;

    /// Whether the control is paused.
    closed spec fn view(&self) -> bool {
        self.paused
    }
}

impl PauseControl {
    /// A control that is not paused.
    pub fn new() -> (control: Self)
        ensures
            !control@,
    {
        PauseControl { paused: false }
    }

    /// Pauses. Nobody needs to be woken for it.
    pub fn pause(&mut self)
        ensures
            final(self)@,
    {
        self.paused = true;
    }

    /// Resumes. Everyone is woken, whether or not anyone is waiting.
    pub fn resume(&mut self) -> (wake: Wake)
        ensures
            !final(self)@,
            wake == Wake::Everyone,
    {
        self.paused = false;
        Wake::Everyone
    }

    /// Whether the control is paused.
    pub fn is_paused(&self) -> (r: bool)
        ensures
            r == self@,
    {
        self.paused
    }

    /// Asked at the top of every frame, and again after every wakeup: whether the
    /// frame loop goes on or sleeps.
    pub fn block_while_paused(&self) -> (turn: Turn)
        ensures
            turn == turn_of(self@),
    {
        if self.is_paused() {
            Turn::Wait
        } else {
            Turn::Proceed
        }
    }

    /// Acts on a signal and says who is to be woken for it.
    pub fn on_signal(&mut self, signal: i32, pause_signal: i32, resume_signal: i32) -> (wake: Wake)
        ensures
            final(self)@ == paused_by(
                old(self)@,
                request_of(signal, pause_signal, resume_signal),
            ),
            wake == Wake::Everyone <==> request_of(signal, pause_signal, resume_signal)
                is Resume,
    {
        if signal == pause_signal {
            self.pause();
            Wake::Nobody
        } else if signal == resume_signal {
            self.resume()
        } else {
            Wake::Nobody
        }
    }
}

/// Whether a control is paused after requests that came one after the other.
pub open spec fn paused_after(paused: bool, requests: Seq<Request>) -> bool
    decreases requests.len(),
{
    if requests.len() == 0 {
        paused
    } else {
        paused_by(paused_after(paused, requests.drop_last()), requests.last())
    }
}

/// The last request that asks for anything decides, whatever came before it.
pub proof fn law_last_request_decides(paused: bool, requests: Seq<Request>, k: int)
    requires
        0 <= k < requests.len(),
        !(requests[k] is Nothing),
        forall|j: int| k < j < requests.len() ==> requests[j] is Nothing,
    ensures
        paused_after(paused, requests) == (requests[k] is Pause),
    decreases requests.len(),
{
    if k < requests.len() - 1 {
        assert(requests.drop_last()[k] == requests[k]);
        law_last_request_decides(paused, requests.drop_last(), k);
    }
}

/// A frame loop that was told to wait is told so again until a resume comes.
pub proof fn law_waits_until_resume(requests: Seq<Request>)
    requires
        forall|j: int| 0 <= j < requests.len() ==> !(requests[j] is Resume),
    ensures
        turn_of(paused_after(true, requests)) == Turn::Wait,
    decreases requests.len(),
{
    if requests.len() > 0 {
        law_waits_until_resume(requests.drop_last());
    }
}

/// A frame loop that was told to proceed is told so again until a pause comes.
pub proof fn law_proceeds_until_pause(requests: Seq<Request>)
    requires
        forall|j: int| 0 <= j < requests.len() ==> !(requests[j] is Pause),
    ensures
        turn_of(paused_after(false, requests)) == Turn::Proceed,
    decreases requests.len(),
{
    if requests.len() > 0 {
        law_proceeds_until_pause(requests.drop_last());
    }
}

/// What happens to a control and the frame loop that shares it.
pub enum Event {
    /// The frame loop, awake, asks whether to go on.
    Asked,
    /// The frame loop, if it was told to wait, falls asleep.
    Slept,
    /// The frame loop, if it is asleep, wakes without having been woken, as a condition
    /// variable allows.
    Stirred,
    /// A request comes in; a wakeup it causes reaches the frame loop if it is asleep,
    /// and is gone if it is not.
    Requested(Request),
}

/// A control and its frame loop.
pub struct Scene {
    pub paused: bool,
    /// The frame loop was told to wait and has not yet fallen asleep.
    pub told: bool,
    pub asleep: bool,
}

/// One event. However the frame loop comes to be awake, it asks before it goes on.
pub open spec fn scene_by(scene: Scene, event: Event) -> Scene {
    match event {
        Event::Asked => Scene {
            paused: scene.paused,
            told: !scene.asleep && turn_of(scene.paused) == Turn::Wait,
            asleep: scene.asleep,
        },
        Event::Slept => Scene {
            paused: scene.paused,
            told: false,
            asleep: scene.asleep || scene.told,
        },
        Event::Stirred => Scene { paused: scene.paused, told: scene.told, asleep: false },
        Event::Requested(request) => Scene {
            paused: paused_by(scene.paused, request),
            told: scene.told,
            asleep: scene.asleep && !(request is Resume),
        },
    }
}

/// What events that come one after the other make of a scene.
pub open spec fn scene_from(scene: Scene, events: Seq<Event>) -> Scene
    decreases events.len(),
{
    if events.len() == 0 {
        scene
    } else {
        scene_by(scene_from(scene, events.drop_last()), events.last())
    }
}

/// What events that come one after the other make of a new control and a frame loop
/// that is awake.
pub open spec fn scene_after(events: Seq<Event>) -> Scene {
    scene_from(Scene { paused: false, told: false, asleep: false }, events)
}

/// No request comes between the frame loop being told to wait and its falling asleep.
///
/// This is what the host's lock is for: the frame loop holds it from asking until it
/// sleeps, which a condition variable lets go of it for, and requests take it too.
pub open spec fn guarded(events: Seq<Event>) -> bool
    decreases events.len(),
{
    if events.len() == 0 {
        true
    } else {
        &&& guarded(events.drop_last())
        &&& events.last() is Requested ==> !scene_after(events.drop_last()).told
    }
}

/// Under the lock, the frame loop never sleeps while the control is not paused: no
/// wakeup is lost.
pub proof fn law_sleeps_only_while_paused(events: Seq<Event>)
    requires
        guarded(events),
    ensures
        scene_after(events).told ==> scene_after(events).paused,
        scene_after(events).asleep ==> scene_after(events).paused,
    decreases events.len(),
{
    if events.len() > 0 {
        law_sleeps_only_while_paused(events.drop_last());
    }
}

/// A resume wakes a frame loop that is asleep. No other request does; without a request
/// it wakes only of itself.
pub proof fn law_woken_by_resume(scene: Scene, event: Event)
    requires
        scene.asleep,
    ensures
        !scene_by(scene, event).asleep <==> event is Stirred || (event matches Event::Requested(
            request,
        ) && request is Resume),
{
}

/// A frame loop that wakes of itself while paused is told to wait again.
pub proof fn law_waits_again_after_stirring(scene: Scene)
    requires
        scene.asleep,
        scene.paused,
    ensures
        !scene_by(scene, Event::Stirred).asleep,
        scene_by(scene_by(scene, Event::Stirred), Event::Asked).told,
        scene_by(
            scene_by(scene_by(scene, Event::Stirred), Event::Asked),
            Event::Slept,
        ).asleep,
{
}

/// However often the frame loop wakes of itself, a paused control without a resume
/// stays paused, and the frame loop, whenever it asks, is told to wait.
pub proof fn law_never_goes_on_without_resume(scene: Scene, events: Seq<Event>)
    requires
        scene.paused,
        forall|k: int| 0 <= k < events.len() ==> #[trigger] events[k] != Event::Requested(
            Request::Resume,
        ),
    ensures
        scene_from(scene, events).paused,
        !scene_from(scene, events).asleep ==> scene_by(
            scene_from(scene, events),
            Event::Asked,
        ).told,
    decreases events.len(),
{
    if events.len() > 0 {
        let before = events.drop_last();
        assert forall|k: int| 0 <= k < before.len() implies #[trigger] before[k]
            != Event::Requested(Request::Resume) by {
            assert(before[k] == events[k]);
        }
        law_never_goes_on_without_resume(scene, before);
        assert(events.last() == events[events.len() - 1]);
    }
}

} // verus!
