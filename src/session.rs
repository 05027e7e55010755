use vstd::prelude::*;

use crate::channel::DetectionChannel;
use crate::frame::Frame;
use crate::suppression::Detection;

verus! {

/// The display loop's detection state: the latest detection set received, and
/// whether a frame has been sent at all.
pub struct DetectionSession {
    pub first_sent: bool,
    pub latest: Option<Vec<Detection>>,
}

impl DetectionSession {
    pub fn new() -> (r: DetectionSession)
        ensures
            !r.first_sent,
            r.latest.is_none(),
    {
        DetectionSession { first_sent: false, latest: None }
    }

    /// One display tick. When the worker has finished a set, keep it and send
    /// `current` at once, so exactly one frame is in flight; before anything was
    /// sent, send `current` to start the cycle; otherwise leave the channel
    /// alone. Returns whether `current` was queued.
    pub fn poll(&mut self, channel: &mut DetectionChannel, current: Frame) -> (sent: bool)
        ensures
            final(self).first_sent,
            old(channel)@.results.len() > 0 ==> {
                &&& final(self).latest == Some(old(channel)@.results[0])
                &&& final(channel)@ == old(channel)@.after_receive().after_send(current)
                &&& sent == !old(channel)@.closed
            },
            old(channel)@.results.len() == 0 && !old(self).first_sent ==> {
                &&& final(self).latest == old(self).latest
                &&& final(channel)@ == old(channel)@.after_send(current)
                &&& sent == !old(channel)@.closed
            },
            old(channel)@.results.len() == 0 && old(self).first_sent ==> {
                &&& final(self).latest == old(self).latest
                &&& final(channel)@ == old(channel)@
                &&& !sent
            },
    {
        let got = channel.try_receive();
        match got {
            Some(d) => {
                self.latest = Some(d);
                self.first_sent = true;
                channel.try_send(current)
            },
            None => {
                if !self.first_sent {
                    self.first_sent = true;
                    channel.try_send(current)
                } else {
                    false
                }
            },
        }
    }
}

/// What the worker does with a frame it has taken.
#[derive(PartialEq, Eq, Structural, Clone, Copy, Debug)]
pub enum WorkerStep {
    /// First frame: fix the model's input size to the frame's, then detect.
    Configure { width: usize, height: usize },
    /// Detect with the input size already fixed.
    Run,
}

/// What the worker does next, decided from the channel.
pub enum WorkerAction {
    /// Run detection on this frame, the oldest one sent.
    Process(Frame),
    /// Nothing is queued yet; poll again later.
    Wait,
    /// Nothing is queued and the channel is closed: the worker's loop ends.
    Stop,
}

/// The detection worker's state: the input size fixed by the first frame.
pub struct DetectionWorker {
    pub input_size: Option<(usize, usize)>,
}

impl DetectionWorker {
    pub fn new() -> (r: DetectionWorker)
        ensures
            r.input_size.is_none(),
    {
        DetectionWorker { input_size: None }
    }

    /// Decides how to process `frame`: the first frame fixes the input size for
    /// the rest of the worker's life.
    pub fn on_frame(&mut self, frame: &Frame) -> (step: WorkerStep)
        ensures
            old(self).input_size.is_none() ==> step == (WorkerStep::Configure {
                width: frame.width,
                height: frame.height,
            }) && final(self).input_size == Some((frame.width, frame.height)),
            old(self).input_size.is_some() ==> step == WorkerStep::Run && final(self).input_size
                == old(self).input_size,
    {
        match self.input_size {
            None => {
                self.input_size = Some((frame.width, frame.height));
                WorkerStep::Configure { width: frame.width, height: frame.height }
            },
            Some(_) => WorkerStep::Run,
        }
    }

    /// Takes the oldest queued frame to process; with none queued, waits while
    /// the channel is open and stops once it is closed.
    pub fn next_action(&self, channel: &mut DetectionChannel) -> (a: WorkerAction)
        ensures
            final(channel)@ == old(channel)@.after_take(),
            old(channel)@.requests.len() > 0 ==> a == WorkerAction::Process(
                old(channel)@.requests[0],
            ),
            old(channel)@.requests.len() == 0 && !old(channel)@.closed ==> a == WorkerAction::Wait,
            old(channel)@.requests.len() == 0 && old(channel)@.closed ==> a == WorkerAction::Stop,
    {
        match channel.take_request() {
            Some(f) => WorkerAction::Process(f),
            None => {
                if channel.is_closed() {
                    WorkerAction::Stop
                } else {
                    WorkerAction::Wait
                }
            },
        }
    }

    /// Hands the outcome of one inference back: a failed pass counts as a pass
    /// that found nothing, so the loop goes on.
    pub fn finish(&self, channel: &mut DetectionChannel, outcome: Option<Vec<Detection>>)
        ensures
            final(channel)@.requests == old(channel)@.requests,
            final(channel)@.closed == old(channel)@.closed,
            final(channel)@.results.len() == old(channel)@.results.len() + 1,
            final(channel)@.results.subrange(0, old(channel)@.results.len() as int)
                == old(channel)@.results,
            outcome.is_some() ==> final(channel)@ == old(channel)@.after_complete(outcome.unwrap()),
            outcome.is_none() ==> final(channel)@.results.last()@.len() == 0,
    {
        match outcome {
            Some(d) => channel.complete(d),
            None => channel.complete(Vec::new()),
        }
        proof {
            assert(channel@.results.subrange(0, old(channel)@.results.len() as int)
                =~= old(channel)@.results);
        }
    }
}

} // verus!
