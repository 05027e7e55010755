use std::collections::VecDeque;
use vstd::prelude::*;

use crate::frame::Frame;
use crate::suppression::Detection;

verus! {

/// What a [`DetectionChannel`] holds: frames sent to the worker and not yet
/// taken, completed detection sets not yet received, and whether it is closed.
pub struct ChannelView {
    pub requests: Seq<Frame>,
    pub results: Seq<Vec<Detection>>,
    pub closed: bool,
}

impl ChannelView {
    pub open spec fn fresh() -> ChannelView {
        ChannelView { requests: Seq::empty(), results: Seq::empty(), closed: false }
    }

    /// State after the display loop sends `frame`; nothing changes once closed.
    pub open spec fn after_send(self, frame: Frame) -> ChannelView {
        if self.closed {
            self
        } else {
            ChannelView { requests: self.requests.push(frame), ..self }
        }
    }

    /// What the display loop receives: the oldest completed set, if any.
    pub open spec fn next_result(self) -> Option<Vec<Detection>> {
        if self.results.len() == 0 {
            None
        } else {
            Some(self.results[0])
        }
    }

    pub open spec fn after_receive(self) -> ChannelView {
        if self.results.len() == 0 {
            self
        } else {
            ChannelView { results: self.results.drop_first(), ..self }
        }
    }

    /// What the worker takes next: the oldest frame sent.
    pub open spec fn next_request(self) -> Option<Frame> {
        if self.requests.len() == 0 {
            None
        } else {
            Some(self.requests[0])
        }
    }

    pub open spec fn after_take(self) -> ChannelView {
        if self.requests.len() == 0 {
            self
        } else {
            ChannelView { requests: self.requests.drop_first(), ..self }
        }
    }

    /// State after the worker hands back a completed detection set.
    pub open spec fn after_complete(self, detections: Vec<Detection>) -> ChannelView {
        ChannelView { results: self.results.push(detections), ..self }
    }
}

/// Request/response link between the display loop and the detection worker.
/// Frames go one way and detection sets the other, each in the order sent;
/// neither side ever waits on the other.
pub struct DetectionChannel {
    requests: VecDeque<Frame>,
    results: VecDeque<Vec<Detection>>,
    closed: bool,
}

impl View for DetectionChannel {
    type V = ChannelView;

    closed spec fn view(&self) -> ChannelView {
        ChannelView { requests: self.requests@, results: self.results@, closed: self.closed }
    }
}

/// What [`ChannelTrait::send_on_receive`] did.
#[derive(PartialEq, Eq, Debug)]
pub enum ReplyOutcome<There> {
    /// No response had arrived; nothing was sent.
    NothingYet,
    /// This response had arrived, and the reply was sent.
    Sent(There),
    /// This response had arrived, but the other side has hung up: the reply
    /// could not be sent and was dropped.
    SendFailed(There),
}

/// The display loop's side of a request/response channel: when a response has
/// arrived, take it and send `reply` back at once.
pub trait ChannelTrait<Here, There>: Sized {
    /// Responses that have arrived and not been taken, oldest first.
    spec fn arrived(&self) -> Seq<There>;

    /// Requests sent and not yet picked up, oldest first.
    spec fn outgoing(&self) -> Seq<Here>;

    /// The other side has hung up; nothing more can be sent.
    spec fn hung_up(&self) -> bool;

    fn send_on_receive(&mut self, reply: Here) -> (r: ReplyOutcome<There>)
        ensures
            old(self).arrived().len() == 0 ==> r == ReplyOutcome::<There>::NothingYet
                && final(self).arrived() == old(self).arrived() && final(self).outgoing()
                == old(self).outgoing(),
            old(self).arrived().len() > 0 ==> final(self).arrived() == old(
                self,
            ).arrived().drop_first(),
            old(self).arrived().len() > 0 && !old(self).hung_up() ==> r == ReplyOutcome::Sent(
                old(self).arrived()[0],
            ) && final(self).outgoing() == old(self).outgoing().push(reply),
            old(self).arrived().len() > 0 && old(self).hung_up() ==> r
                == ReplyOutcome::SendFailed(old(self).arrived()[0]) && final(self).outgoing()
                == old(self).outgoing(),
            final(self).hung_up() == old(self).hung_up(),
    ;
}

impl DetectionChannel {
    pub fn new() -> (r: DetectionChannel)
        ensures
            r@ == ChannelView::fresh(),
    {
        DetectionChannel { requests: VecDeque::new(), results: VecDeque::new(), closed: false }
    }

    /// Queues `frame` for the worker. Returns false, and drops the frame, only
    /// when the channel is closed.
    pub fn try_send(&mut self, frame: Frame) -> (r: bool)
        ensures
            r == !old(self)@.closed,
            final(self)@ == old(self)@.after_send(frame),
    {
        if self.closed {
            false
        } else {
            self.requests.push_back(frame);
            true
        }
    }

    /// The oldest completed detection set, if the worker has finished one
    /// since the last call; never waits.
    pub fn try_receive(&mut self) -> (r: Option<Vec<Detection>>)
        ensures
            r == old(self)@.next_result(),
            final(self)@ == old(self)@.after_receive(),
    {
        let r = self.results.pop_front();
        proof {
            assert(self.results@ =~= old(self).results@.drop_first() || r.is_none());
        }
        r
    }

    /// The worker's side: the oldest frame sent and not yet taken.
    pub fn take_request(&mut self) -> (r: Option<Frame>)
        ensures
            r == old(self)@.next_request(),
            final(self)@ == old(self)@.after_take(),
    {
        let r = self.requests.pop_front();
        proof {
            assert(self.requests@ =~= old(self).requests@.drop_first() || r.is_none());
        }
        r
    }

    /// The worker's side: hands back the detections found on the frame it took.
    pub fn complete(&mut self, detections: Vec<Detection>)
        ensures
            final(self)@ == old(self)@.after_complete(detections),
    {
        self.results.push_back(detections);
    }

    /// Marks the channel closed: the worker has stopped, or the display loop has
    /// let it go. Frames already queued stay readable.
    pub fn close(&mut self)
        ensures
            final(self)@ == (ChannelView { closed: true, ..old(self)@ }),
    {
        self.closed = true;
    }

    pub fn is_closed(&self) -> (r: bool)
        ensures
            r == self@.closed,
    {
        self.closed
    }
}

impl ChannelTrait<Frame, Vec<Detection>> for DetectionChannel {
    open spec fn arrived(&self) -> Seq<Vec<Detection>> {
        self@.results
    }

    open spec fn outgoing(&self) -> Seq<Frame> {
        self@.requests
    }

    open spec fn hung_up(&self) -> bool {
        self@.closed
    }

    fn send_on_receive(&mut self, reply: Frame) -> (r: ReplyOutcome<Vec<Detection>>) {
        let r = self.try_receive();
        match r {
            Some(d) => {
                if self.try_send(reply) {
                    ReplyOutcome::Sent(d)
                } else {
                    ReplyOutcome::SendFailed(d)
                }
            },
            None => ReplyOutcome::NothingYet,
        }
    }
}

/// Before the worker completes anything, receiving yields nothing; once it has
/// taken a sent frame and handed back its detections, receiving yields exactly
/// those detections.
pub proof fn lemma_send_take_complete_receive(frame: Frame, detections: Vec<Detection>)
    ensures
        ChannelView::fresh().after_send(frame).next_result() == None::<Vec<Detection>>,
        ChannelView::fresh().after_send(frame).next_request() == Some(frame),
        ChannelView::fresh().after_send(frame).after_take().after_complete(detections).next_result()
            == Some(detections),
{
    let s1 = ChannelView::fresh().after_send(frame);
    assert(s1.requests =~= seq![frame]);
    let s3 = s1.after_take().after_complete(detections);
    assert(s3.results =~= seq![detections]);
}

/// Frames reach the worker in the order they were sent.
pub proof fn lemma_requests_in_order(v: ChannelView, f: Frame, g: Frame)
    requires
        !v.closed,
        v.requests.len() == 0,
    ensures
        v.after_send(f).after_send(g).next_request() == Some(f),
        v.after_send(f).after_send(g).after_take().next_request() == Some(g),
{
    let s = v.after_send(f).after_send(g);
    assert(s.requests =~= seq![f, g]);
    assert(s.after_take().requests =~= seq![g]);
}

/// The channel after the worker has taken the oldest frame and handed back one
/// detection set, once for each of `outputs`, in order.
pub open spec fn served(v: ChannelView, outputs: Seq<Vec<Detection>>) -> ChannelView
    decreases outputs.len(),
{
    if outputs.len() == 0 {
        v
    } else {
        served(v, outputs.drop_last()).after_take().after_complete(outputs.last())
    }
}

/// A worker that repeatedly takes the oldest frame and hands back one set for
/// it serves the frames in the order they were sent: the `k`-th frame it takes
/// is the `k`-th one queued, and the sets come back in that same order, one per
/// frame, after those already waiting.
pub proof fn lemma_worker_serves_in_order(v: ChannelView, outputs: Seq<Vec<Detection>>)
    requires
        outputs.len() <= v.requests.len(),
    ensures
        served(v, outputs).requests == v.requests.subrange(
            outputs.len() as int,
            v.requests.len() as int,
        ),
        served(v, outputs).results == v.results + outputs,
        served(v, outputs).closed == v.closed,
        forall|k: int|
            0 <= k < outputs.len() ==> #[trigger] served(v, outputs.take(k)).next_request() == Some(
                v.requests[k],
            ),
    decreases outputs.len(),
{
    if outputs.len() > 0 {
        let prev = outputs.drop_last();
        lemma_worker_serves_in_order(v, prev);
        let s = served(v, prev);
        assert(s.requests.len() > 0);
        assert(served(v, outputs).requests =~= v.requests.subrange(
            outputs.len() as int,
            v.requests.len() as int,
        ));
        assert(served(v, outputs).results =~= v.results + outputs);
        assert forall|k: int| 0 <= k < outputs.len() implies #[trigger] served(
            v,
            outputs.take(k),
        ).next_request() == Some(v.requests[k]) by {
            if k < prev.len() {
                assert(outputs.take(k) =~= prev.take(k));
                lemma_worker_serves_in_order(v, prev.take(k));
            } else {
                assert(outputs.take(k) =~= prev);
                assert(s.requests[0] == v.requests[k]);
            }
        }
    }
}

} // verus!
