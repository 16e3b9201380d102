use async_xdp::batch::FrameBatch;
use async_xdp::context::{
    frame_count_for, received, send_frame_msgs, split_batches, UmemConfigState, XdpContextBuilder,
    XdpContextInner, DEFAULT_FRAME_COUNT,
};
use async_xdp::desc::FrameDesc;
use async_xdp::error::XdpError;
use async_xdp::frame::Frame;
use async_xdp::runner::poller::{XdpReceiveMsg, XdpSendMsg};
use async_xdp::runner::{BindCoreRunner, SingleThreadRunner};

fn frames_at(addrs: std::ops::Range<usize>) -> Vec<FrameDesc> {
    addrs.map(FrameDesc::new).collect()
}

#[test]
fn umem_is_configured_once() {
    let mut b: XdpContextBuilder<u8, u16, u32, u64, i8> = XdpContextBuilder::new("veth1", 3, 1);
    assert!(!b.umem_configured());
    b.with_socket_config(2);
    b.with_use_huge_pages(true);
    b.with_umem_config(5, 6, 1024);
    assert!(b.umem_configured());
    let (config, name, queue, state, huge) = b.into_parts();
    assert_eq!((config, name.as_str(), queue, huge), (2, "veth1", 3, true));
    assert_eq!(frame_count_for(&state), Some(1024));
}

#[test]
fn default_umem_has_sixteen_slabs() {
    let init: UmemConfigState<u8, u8, u8, u8> = UmemConfigState::Init;
    assert_eq!(frame_count_for(&init), Some(DEFAULT_FRAME_COUNT));
    assert_eq!(DEFAULT_FRAME_COUNT, 4096 * 16);
    let existing: UmemConfigState<u8, u8, u8, u8> = UmemConfigState::Umem { umem: 1, frame_manager: 2 };
    assert_eq!(frame_count_for(&existing), None);
    let mut b: XdpContextBuilder<u8, u8, u8, u8, u8> = XdpContextBuilder::new("eth0", 0, 0);
    b.with_exist_umem(1, 2);
    assert!(b.umem_configured());
}

#[test]
fn only_one_receive_handle() {
    let mut inner = XdpContextInner::new(7u32, 9u32);
    assert_eq!(inner.receive_handle(), Ok(7));
    assert_eq!(inner.receive_handle(), Err(XdpError::ReceiveHandleTaken));
    assert_eq!(inner.take_receiver(), None);
    assert_eq!(*inner.sender(), 9);
}

#[test]
fn send_frames_are_cut_into_batches() {
    let batch = FrameBatch::from_slice(&frames_at(0..40));
    let msgs = send_frame_msgs(&batch);
    assert_eq!(msgs.len(), 2);
    match &msgs[1] {
        XdpSendMsg::SendFrame { elements } => {
            let got: Vec<usize> = elements.iter().map(|f| f.addr()).collect();
            assert_eq!(got, (32..40).collect::<Vec<usize>>());
        }
        XdpSendMsg::Send(_) => panic!("expected frames"),
    }
    assert!(send_frame_msgs(&FrameBatch::new()).is_empty());
    let batches = split_batches(&frames_at(0..64));
    assert_eq!(batches.iter().map(|b| b.len()).collect::<Vec<usize>>(), vec![32, 32]);
}

#[test]
fn receive_reports_a_closed_channel() {
    let mut batch = FrameBatch::new();
    batch.push(FrameDesc::new(5));
    let got = received(Some(XdpReceiveMsg::Recv(batch))).ok().unwrap();
    assert_eq!(got.as_slice()[0].addr(), 5);
    assert!(matches!(received(None), Err(XdpError::Closed)));
}

#[test]
fn frame_gives_its_descriptor_once() {
    let mut frame = Frame::new(FrameDesc::new(4));
    assert_eq!(frame.desc().addr(), 4);
    assert_eq!(frame.take_desc().addr(), 4);
    assert_eq!(frame.release(), None);
    let mut other = Frame::new(FrameDesc::new(8));
    assert_eq!(other.release(), Some(FrameDesc::new(8)));
    assert_eq!(other.release(), None);
}

#[test]
fn bind_core_runner_keeps_an_even_number_of_cores() {
    let mut runner = BindCoreRunner::new(vec![0, 1, 2, 3, 4]);
    let mut got = Vec::new();
    while runner.has_next_core() {
        got.push(runner.next_core());
    }
    assert_eq!(got, vec![0, 1, 2, 3]);
    let empty = BindCoreRunner::new(vec![7]);
    assert!(!empty.has_next_core());
}

#[test]
fn single_thread_runner_new() {
    let _a = SingleThreadRunner::new();
    let _b = SingleThreadRunner::default();
}

#[test]
fn frame_desc_reset_keeps_the_address() {
    let mut d = FrameDesc::new(42);
    d.set_options(1);
    d.data = 10;
    d.reset();
    assert_eq!(d, FrameDesc::new(42));
    assert_eq!(FrameDesc::default(), FrameDesc::new(0));
}
