use async_xdp::desc::FrameDesc;
use async_xdp::frame_manager::slab_manager::{SlabManager, SlabManagerConfig};
use async_xdp::runner::poller::{
    alloc_send_frame, fill_frames, recv_batches, ring_step, InFlight, RingStep, TxAction, TxBurst,
    XdpReceiveMsg, BATCH_SIZSE,
};

fn frames_at(addrs: std::ops::Range<usize>) -> Vec<FrameDesc> {
    addrs.map(FrameDesc::new).collect()
}

#[test]
fn fill_places_frames_from_the_top() {
    let mut manager = SlabManager::new(SlabManagerConfig::new(4), frames_at(0..10)).unwrap();
    let mut handle = manager.handle().unwrap();
    let mut burst = vec![FrameDesc::new(99); 6];
    let n = fill_frames(&mut handle, &mut manager, &mut burst, 5).unwrap();
    assert_eq!(n, 5);
    let got: Vec<usize> = burst.iter().map(|f| f.addr()).collect();
    assert_eq!(got, vec![7, 6, 5, 4, 9, 99]);
    assert_eq!(handle.statistics(&manager).total_available, 5);
}

#[test]
fn fill_is_bounded_by_the_frames_left() {
    let mut manager = SlabManager::new(SlabManagerConfig::new(4), frames_at(0..3)).unwrap();
    let mut handle = manager.handle().unwrap();
    let mut burst = vec![FrameDesc::new(99); 8];
    assert_eq!(fill_frames(&mut handle, &mut manager, &mut burst, 8).unwrap(), 3);
    assert_eq!(burst[3].addr(), 99);
    assert_eq!(fill_frames(&mut handle, &mut manager, &mut burst, 0).unwrap(), 0);
}

#[test]
fn send_frame_allocation() {
    let mut manager = SlabManager::new(SlabManagerConfig::new(2), frames_at(0..3)).unwrap();
    let mut handle = manager.handle().unwrap();
    assert_eq!(alloc_send_frame(&mut handle, &mut manager).unwrap().addr(), 2);
    assert_eq!(alloc_send_frame(&mut handle, &mut manager).unwrap().addr(), 1);
    assert_eq!(alloc_send_frame(&mut handle, &mut manager).unwrap().addr(), 0);
    assert!(alloc_send_frame(&mut handle, &mut manager).is_err());
}

#[test]
fn received_frames_travel_in_batches() {
    let frames = frames_at(0..70);
    let msgs = recv_batches(&frames);
    assert_eq!(msgs.len(), 3);
    let lens: Vec<usize> = msgs
        .iter()
        .map(|m| match m {
            XdpReceiveMsg::Recv(b) => b.len(),
        })
        .collect();
    assert_eq!(lens, vec![BATCH_SIZSE, BATCH_SIZSE, 6]);
    match &msgs[2] {
        XdpReceiveMsg::Recv(b) => assert_eq!(b.as_slice()[0].addr(), 64),
    }
    assert!(recv_batches(&[]).is_empty());
}

#[test]
fn tx_burst_stops_with_less_than_a_batch_of_room() {
    let mut burst = TxBurst::new(40);
    assert_eq!(burst.room(), 40);
    assert_eq!(burst.push_frames(&frames_at(0..8)), TxAction::Continue);
    assert_eq!(burst.push_frame(FrameDesc::new(8)), TxAction::Stop);
    assert_eq!(burst.len(), 9);
    let queued: Vec<usize> = burst.queued_frames().iter().map(|f| f.addr()).collect();
    assert_eq!(queued, (0..9).collect::<Vec<usize>>());
    burst.clear();
    assert_eq!(burst.len(), 0);
    assert_eq!(burst.room(), 40);
}

#[test]
fn ring_steps() {
    assert_eq!(ring_step(4, 4, true), RingStep::Done);
    assert_eq!(ring_step(0, 4, true), RingStep::Wakeup);
    assert_eq!(ring_step(0, 4, false), RingStep::Retry);
}

#[test]
fn in_flight_reports_resent_and_unexpected_frames() {
    let mut in_flight = InFlight::new();
    assert!(in_flight.is_empty());
    let dups = in_flight.record_sent(&[FrameDesc::new(1), FrameDesc::new(2), FrameDesc::new(1)]);
    assert_eq!(dups, vec![1]);
    assert_eq!(in_flight.addresses().len(), 2);
    let missing = in_flight.record_completed(&[FrameDesc::new(2), FrameDesc::new(3), FrameDesc::new(2)]);
    assert_eq!(missing, vec![3, 2]);
    assert!(!in_flight.is_empty());
    assert!(in_flight.record_completed(&[FrameDesc::new(1)]).is_empty());
    assert!(in_flight.is_empty());
}

#[test]
fn in_flight_send_then_complete_round_trip() {
    let mut in_flight = InFlight::new();
    let frames = frames_at(10..20);
    assert!(in_flight.record_sent(&frames).is_empty());
    assert!(in_flight.record_completed(&frames).is_empty());
    assert!(in_flight.is_empty());
}
