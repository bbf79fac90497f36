use node_net::checking::{check, checksum, frame, CheckVerdict};
use node_net::reliable::{Reception, ReliableReceiver, ReliableSender, SendStep};
use node_net::retry::{RetryAction, RetryEvent, RetryState};
use node_net::sequencing::{Resequencer, SeqVerdict, SequenceStamper, Unit};

#[test]
fn checksum_sums_bytes_modulo_two_to_sixteen() {
    assert_eq!(checksum(&[]), 0);
    assert_eq!(checksum(&[1, 2, 3]), 6);
    assert_eq!(checksum(&[255; 300]), ((255u32 * 300) % 65536) as u16);
}

#[test]
fn frame_appends_checksum_high_byte_first() {
    assert_eq!(frame(&[1, 2, 3]), vec![1, 2, 3, 0, 6]);
    assert_eq!(frame(&[]), vec![0, 0]);
    assert_eq!(frame(&[200, 100]), vec![200, 100, 1, 44]);
}

#[test]
fn checked_frame_gives_payload_back() {
    let payload = vec![9u8, 8, 7, 250, 0, 33];
    match check(&frame(&payload)) {
        CheckVerdict::Intact(p) => assert_eq!(p, payload),
        CheckVerdict::Corrupt => panic!("intact frame reported corrupt"),
    }
}

#[test]
fn corrupted_frame_is_reported() {
    let mut f = frame(&[1, 2, 3]);
    f[1] = 5;
    assert!(matches!(check(&f), CheckVerdict::Corrupt));
    assert!(matches!(check(&[7]), CheckVerdict::Corrupt));
    assert!(matches!(check(&[]), CheckVerdict::Corrupt));
}

#[test]
fn stamper_numbers_units_from_zero() {
    let mut s = SequenceStamper::new();
    let u0 = s.stamp(vec![1]).unwrap();
    let u1 = s.stamp(vec![2]).unwrap();
    assert_eq!((u0.seq, u0.payload), (0, vec![1]));
    assert_eq!((u1.seq, u1.payload), (1, vec![2]));
    let mut full = SequenceStamper { next: u64::MAX };
    assert!(full.stamp(vec![3]).is_none());
    assert_eq!(full.next, u64::MAX);
}

#[test]
fn sequencing_never_reorders_or_duplicates() {
    // unit 2 arrives late, after 3: it is dropped rather than delivered out of order
    let mut r = Resequencer::new();
    assert_eq!(r.accept_all(&vec![1, 3, 2]), vec![1, 3]);
    let mut r = Resequencer::new();
    assert_eq!(r.accept_all(&vec![1, 1, 2, 2, 3]), vec![1, 2, 3]);
    let mut r = Resequencer::new();
    assert_eq!(r.accept_all(&vec![3, 1, 2]), vec![3]);
    assert_eq!(r.newest, Some(3));
}

#[test]
fn sequencing_reports_gaps() {
    let mut r = Resequencer::new();
    assert_eq!(r.accept(0), SeqVerdict::Deliver { skipped: 0 });
    assert_eq!(r.accept(4), SeqVerdict::Deliver { skipped: 3 });
    assert_eq!(r.accept(4), SeqVerdict::Stale);
    assert_eq!(r.accept(2), SeqVerdict::Stale);
    assert_eq!(r.accept(5), SeqVerdict::Deliver { skipped: 0 });
}

#[test]
fn receive_passes_payload_of_new_units_only() {
    let mut r = Resequencer::new();
    assert_eq!(r.receive(Unit { seq: 1, payload: vec![10] }), Some(vec![10]));
    assert_eq!(r.receive(Unit { seq: 1, payload: vec![11] }), None);
    assert_eq!(r.receive(Unit { seq: 2, payload: vec![12] }), Some(vec![12]));
}

#[test]
fn retry_gives_up_after_budget() {
    let mut s = RetryState::new(2);
    assert_eq!(s.on_event(RetryEvent::TimedOut), RetryAction::Resend);
    assert_eq!(s.on_event(RetryEvent::Rejected), RetryAction::Resend);
    assert_eq!(s.on_event(RetryEvent::TimedOut), RetryAction::GiveUp);
    assert_eq!(s.outcome, Some(false));
    assert_eq!(s.on_event(RetryEvent::Acked), RetryAction::Nothing);
    assert_eq!(s.outcome, Some(false));
}

#[test]
fn retry_delivers_on_ack() {
    let mut s = RetryState::new(3);
    assert_eq!(s.on_event(RetryEvent::TimedOut), RetryAction::Resend);
    assert_eq!(s.on_event(RetryEvent::Acked), RetryAction::Delivered);
    assert_eq!((s.resent, s.outcome), (1, Some(true)));
    let mut none = RetryState::new(0);
    assert_eq!(none.on_event(RetryEvent::TimedOut), RetryAction::GiveUp);
}

#[test]
fn reliable_receiver_delivers_once_in_order_uncorrupted() {
    let mut rx = ReliableReceiver::new();
    let good1 = frame(&[1, 1]);
    let mut bad1 = good1.clone();
    bad1[0] = 0;
    assert!(matches!(rx.on_unit(1, &bad1), Reception::Corrupt));
    assert_eq!(rx.order.newest, None);
    match rx.on_unit(1, &good1) {
        Reception::Deliver(p) => assert_eq!(p, vec![1, 1]),
        other => panic!("{:?}", other),
    }
    assert!(matches!(rx.on_unit(1, &good1), Reception::Duplicate));
    match rx.on_unit(2, &frame(&[2])) {
        Reception::Deliver(p) => assert_eq!(p, vec![2]),
        other => panic!("{:?}", other),
    }
}

#[test]
fn reliable_end_to_end_with_loss_and_corruption() {
    let mut tx = ReliableSender::new(3);
    let mut rx = ReliableReceiver::new();
    let mut got: Vec<Vec<u8>> = Vec::new();
    for (n, payload) in [vec![1u8], vec![2u8, 2], vec![3u8, 3, 3]].into_iter().enumerate() {
        let seq = tx.submit(payload.clone()).unwrap();
        assert_eq!(seq, n as u64);
        assert!(tx.submit(vec![9]).is_none());
        // first copy is lost
        assert_eq!(tx.on_event(RetryEvent::TimedOut), SendStep::Resend(seq));
        // second copy arrives corrupted
        let mut bad = tx.framed.clone();
        bad[0] ^= 0x40;
        assert!(matches!(rx.on_unit(seq, &bad), Reception::Corrupt));
        assert_eq!(tx.on_event(RetryEvent::Rejected), SendStep::Resend(seq));
        // third copy arrives intact, and its acknowledgment is lost
        match rx.on_unit(seq, &tx.framed) {
            Reception::Deliver(p) => got.push(p),
            other => panic!("{:?}", other),
        }
        assert_eq!(tx.on_event(RetryEvent::TimedOut), SendStep::Resend(seq));
        // fourth copy is a duplicate and is only acknowledged
        assert!(matches!(rx.on_unit(seq, &tx.framed), Reception::Duplicate));
        assert_eq!(tx.on_event(RetryEvent::Acked), SendStep::Delivered(seq));
        assert!(!tx.busy);
    }
    assert_eq!(got, vec![vec![1], vec![2, 2], vec![3, 3, 3]]);
}

#[test]
fn reliable_sender_fails_explicitly_past_budget() {
    let mut tx = ReliableSender::new(1);
    let seq = tx.submit(vec![5]).unwrap();
    assert_eq!(tx.on_event(RetryEvent::TimedOut), SendStep::Resend(seq));
    assert_eq!(tx.on_event(RetryEvent::TimedOut), SendStep::Failed(seq));
    assert!(!tx.busy);
    assert_eq!(tx.on_event(RetryEvent::TimedOut), SendStep::Idle);
    assert_eq!(tx.submit(vec![6]), Some(1));
}
