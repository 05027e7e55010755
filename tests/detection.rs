use feed_align::channel::{ChannelTrait, DetectionChannel, ReplyOutcome};
use feed_align::frame::Frame;
use feed_align::session::{DetectionSession, DetectionWorker, WorkerAction, WorkerStep};
use feed_align::suppression::{boxes_overlap, suppress_overlaps, Detection, Rect};

fn rect(x: i32, y: i32, width: i32, height: i32) -> Rect {
    Rect { x, y, width, height }
}

fn det(class_id: i32, score: u32, r: Rect) -> Detection {
    Detection { class_id, score, rect: r }
}

fn pick(ds: &[Detection], kept: &[usize]) -> Vec<Detection> {
    kept.iter().map(|i| ds[*i]).collect()
}

#[test]
fn overlap_is_intersection_over_union_above_half() {
    assert!(boxes_overlap(&rect(0, 0, 10, 10), &rect(0, 0, 10, 10)));
    assert!(boxes_overlap(&rect(0, 0, 10, 10), &rect(1, 0, 10, 10)));
    // 10x10 against 10x10 shifted by 4: 60 shared, 140 in union.
    assert!(!boxes_overlap(&rect(0, 0, 10, 10), &rect(4, 0, 10, 10)));
    // Exactly one half is not above one half: 20 shared of 40.
    assert!(!boxes_overlap(&rect(0, 0, 4, 5), &rect(0, 0, 2, 5)));
    assert!(!boxes_overlap(&rect(0, 0, 5, 5), &rect(20, 20, 5, 5)));
    assert!(!boxes_overlap(&rect(0, 0, 0, 0), &rect(0, 0, 0, 0)));
}

#[test]
fn suppression_keeps_best_of_overlapping_boxes() {
    let ds = vec![
        det(0, 600_000, rect(0, 0, 10, 10)),
        det(1, 900_000, rect(1, 1, 10, 10)),
        det(2, 800_000, rect(100, 100, 10, 10)),
    ];
    assert_eq!(suppress_overlaps(&ds), vec![1, 2]);
}

#[test]
fn suppression_drops_low_scores() {
    let ds = vec![
        det(0, 100_000, rect(0, 0, 10, 10)),
        det(0, 50_000, rect(50, 0, 10, 10)),
        det(0, 100_001, rect(100, 0, 10, 10)),
    ];
    assert_eq!(suppress_overlaps(&ds), vec![2]);
    assert_eq!(suppress_overlaps(&vec![]), Vec::<usize>::new());
}

#[test]
fn suppression_breaks_score_ties_by_position() {
    let ds = vec![
        det(0, 500_000, rect(0, 0, 10, 10)),
        det(0, 700_000, rect(40, 0, 10, 10)),
        det(0, 500_000, rect(0, 0, 10, 10)),
        det(0, 500_000, rect(80, 0, 10, 10)),
    ];
    assert_eq!(suppress_overlaps(&ds), vec![1, 0, 3]);
}

#[test]
fn suppression_chain_keeps_third_box() {
    // b overlaps a and c, but a and c do not overlap: a suppresses b, so c stays.
    let ds = vec![
        det(0, 900_000, rect(0, 0, 10, 10)),
        det(0, 800_000, rect(2, 0, 10, 10)),
        det(0, 700_000, rect(4, 0, 10, 10)),
    ];
    assert_eq!(suppress_overlaps(&ds), vec![0, 2]);
}

#[test]
fn suppression_is_idempotent() {
    let ds = vec![
        det(3, 400_000, rect(5, 5, 20, 20)),
        det(1, 950_000, rect(6, 5, 20, 20)),
        det(2, 200_000, rect(60, 5, 20, 20)),
        det(2, 200_000, rect(61, 6, 20, 20)),
        det(4, 90_000, rect(200, 5, 20, 20)),
        det(5, 300_000, rect(200, 200, 4, 4)),
    ];
    let kept = suppress_overlaps(&ds);
    let first = pick(&ds, &kept);
    let again = suppress_overlaps(&first);
    assert_eq!(again, (0..first.len()).collect::<Vec<usize>>());
    assert_eq!(pick(&first, &again), first);
}

fn frame(v: u8) -> Frame {
    Frame::filled(2, 2, [v, v, v])
}

#[test]
fn channel_round_trip() {
    let mut ch = DetectionChannel::new();
    assert!(ch.try_receive().is_none());
    assert!(ch.try_send(frame(7)));
    assert!(ch.try_receive().is_none());
    let f = ch.take_request().unwrap();
    assert_eq!(f.data, frame(7).data);
    assert!(ch.take_request().is_none());
    let found = vec![det(2, 500_000, rect(0, 0, 1, 1))];
    ch.complete(found.clone());
    assert_eq!(ch.try_receive(), Some(found));
    assert!(ch.try_receive().is_none());
}

#[test]
fn channel_keeps_send_order() {
    let mut ch = DetectionChannel::new();
    assert!(ch.try_send(frame(1)));
    assert!(ch.try_send(frame(2)));
    assert_eq!(ch.take_request().unwrap().data, frame(1).data);
    assert_eq!(ch.take_request().unwrap().data, frame(2).data);
}

#[test]
fn closed_channel_refuses_frames() {
    let mut ch = DetectionChannel::new();
    assert!(ch.try_send(frame(1)));
    ch.close();
    assert!(ch.is_closed());
    assert!(!ch.try_send(frame(2)));
    assert_eq!(ch.take_request().unwrap().data, frame(1).data);
    assert!(ch.take_request().is_none());
}

#[test]
fn send_on_receive_replies_only_after_a_result() {
    let mut ch = DetectionChannel::new();
    assert!(matches!(ch.send_on_receive(frame(1)), ReplyOutcome::NothingYet));
    assert!(ch.take_request().is_none());
    ch.complete(vec![]);
    assert_eq!(ch.send_on_receive(frame(3)), ReplyOutcome::Sent(vec![]));
    assert_eq!(ch.take_request().unwrap().data, frame(3).data);
}

#[test]
fn send_on_receive_reports_a_closed_channel() {
    let mut ch = DetectionChannel::new();
    let found = vec![det(4, 700_000, rect(3, 3, 5, 5))];
    ch.complete(found.clone());
    ch.close();
    assert_eq!(ch.send_on_receive(frame(9)), ReplyOutcome::SendFailed(found));
    assert!(ch.take_request().is_none());
    assert!(matches!(ch.send_on_receive(frame(9)), ReplyOutcome::NothingYet));
}

#[test]
fn worker_processes_in_order_then_waits_then_stops() {
    let w = DetectionWorker::new();
    let mut ch = DetectionChannel::new();
    assert!(matches!(w.next_action(&mut ch), WorkerAction::Wait));
    assert!(ch.try_send(frame(1)));
    assert!(ch.try_send(frame(2)));
    ch.close();
    let mut seen = Vec::new();
    loop {
        match w.next_action(&mut ch) {
            WorkerAction::Process(f) => {
                seen.push(f.data[0]);
                w.finish(&mut ch, Some(vec![det(f.data[0] as i32, 500_000, rect(0, 0, 1, 1))]));
            }
            WorkerAction::Wait => panic!("a closed, empty channel must stop the worker"),
            WorkerAction::Stop => break,
        }
    }
    assert_eq!(seen, vec![1, 2]);
    assert_eq!(ch.try_receive().unwrap()[0].class_id, 1);
    assert_eq!(ch.try_receive().unwrap()[0].class_id, 2);
    assert!(ch.try_receive().is_none());
}

#[test]
fn session_keeps_one_frame_in_flight() {
    let mut ch = DetectionChannel::new();
    let mut s = DetectionSession::new();
    assert!(s.poll(&mut ch, frame(1)));
    assert!(!s.poll(&mut ch, frame(2)));
    assert!(!s.poll(&mut ch, frame(3)));
    assert_eq!(ch.take_request().unwrap().data, frame(1).data);
    assert!(ch.take_request().is_none());
    let found = vec![det(0, 800_000, rect(1, 2, 3, 4))];
    ch.complete(found.clone());
    assert!(s.poll(&mut ch, frame(4)));
    assert_eq!(s.latest, Some(found));
    assert_eq!(ch.take_request().unwrap().data, frame(4).data);
    assert!(ch.take_request().is_none());
}

#[test]
fn worker_fixes_input_size_on_first_frame() {
    let mut w = DetectionWorker::new();
    let first = Frame::filled(4, 3, [0, 0, 0]);
    assert_eq!(w.on_frame(&first), WorkerStep::Configure { width: 4, height: 3 });
    assert_eq!(w.input_size, Some((4, 3)));
    let other = Frame::filled(8, 8, [0, 0, 0]);
    assert_eq!(w.on_frame(&other), WorkerStep::Run);
    assert_eq!(w.input_size, Some((4, 3)));
}

#[test]
fn worker_turns_failed_pass_into_empty_set() {
    let w = DetectionWorker::new();
    let mut ch = DetectionChannel::new();
    w.finish(&mut ch, None);
    assert_eq!(ch.try_receive(), Some(vec![]));
    let found = vec![det(1, 300_000, rect(0, 0, 2, 2))];
    w.finish(&mut ch, Some(found.clone()));
    assert_eq!(ch.try_receive(), Some(found));
}
