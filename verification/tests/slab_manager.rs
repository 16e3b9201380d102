use async_xdp::desc::FrameDesc;
use async_xdp::error::XdpError;
use async_xdp::frame_manager::slab_manager::{SlabManager, SlabManagerConfig};

fn frames_at(addrs: std::ops::Range<usize>) -> Vec<FrameDesc> {
    addrs.map(FrameDesc::new).collect()
}

fn addrs(frames: &[FrameDesc]) -> Vec<usize> {
    frames.iter().map(|f| f.addr()).collect()
}

#[test]
fn test_succeed() {
    let config = SlabManagerConfig::new(4096);
    let frames = vec![FrameDesc::default(); 4096 * 16];
    let mut manager = SlabManager::new(config, frames).unwrap();

    let mut handle1 = manager.handle().unwrap();
    assert_eq!(handle1.reserve(&mut manager, 4096 * 16).unwrap(), 4096 * 16);
    let mut frames1 = Vec::with_capacity(4096 * 16);
    for _ in 0..4096 * 16 {
        frames1.push(handle1.alloc_one(&mut manager).unwrap());
    }

    let mut handle2 = manager.handle().unwrap();
    assert!(handle2.alloc_one(&mut manager).is_err());

    handle2.free(&mut manager, frames1).unwrap();
    let _frame = handle2.alloc_one(&mut manager).unwrap();

    let mut handle3 = manager.handle().unwrap();
    assert_eq!(handle3.reserve(&mut manager, 4096 * 16).unwrap(), 4096 * 15);
    assert!(handle1.alloc_one(&mut manager).is_err());
}

#[test]
fn default_config_has_slabs_of_4096() {
    let config = SlabManagerConfig::default();
    assert_eq!(config.slab_size(), 4096);
    assert_eq!(SlabManagerConfig::new(7).slab_size(), 7);
}

#[test]
fn allocation_takes_the_top_slab_from_the_top() {
    // Ten frames in slabs of four: [0 1 2 3] [4 5 6 7] [8 9], the last on top.
    let mut manager = SlabManager::new(SlabManagerConfig::new(4), frames_at(0..10)).unwrap();
    let mut handle = manager.handle().unwrap();
    let got: Vec<usize> = (0..10).map(|_| handle.alloc_one(&mut manager).unwrap().addr()).collect();
    assert_eq!(got, vec![9, 8, 7, 6, 5, 4, 3, 2, 1, 0]);
    assert_eq!(handle.alloc_one(&mut manager), Err(XdpError::NoMoreSlab));
}

#[test]
fn reserve_stops_when_the_manager_runs_out() {
    let mut manager = SlabManager::new(SlabManagerConfig::new(4), frames_at(0..10)).unwrap();
    let mut handle = manager.handle().unwrap();
    assert_eq!(handle.reserve(&mut manager, 3).unwrap(), 3);
    // The top slab held two frames, so a second slab was taken: six ready.
    assert_eq!(handle.statistics(&manager).total_available, 10);
    assert_eq!(handle.reserve(&mut manager, 100).unwrap(), 10);
    assert_eq!(handle.reserve(&mut manager, 0).unwrap(), 0);
    let other = manager.handle().unwrap();
    assert_eq!(other.statistics(&manager).total_available, 0);
}

#[test]
fn reserve_takes_whole_slabs() {
    let mut manager = SlabManager::new(SlabManagerConfig::new(4), frames_at(0..10)).unwrap();
    let mut handle = manager.handle().unwrap();
    assert_eq!(handle.reserve(&mut manager, 3).unwrap(), 3);
    // Slabs [8 9] and [4 5 6 7] went to the handle; [0 1 2 3] stays.
    let mut other = manager.handle().unwrap();
    assert_eq!(other.reserve(&mut manager, 100).unwrap(), 4);
    let got: Vec<usize> = (0..6).map(|_| handle.alloc_one(&mut manager).unwrap().addr()).collect();
    assert_eq!(got, vec![7, 6, 5, 4, 9, 8]);
}

#[test]
fn freed_frames_return_as_full_slabs_and_are_reset() {
    let mut manager = SlabManager::new(SlabManagerConfig::new(4), Vec::new()).unwrap();
    let mut handle = manager.handle().unwrap();
    let mut frames = frames_at(100..109);
    frames[0].set_options(3);
    frames[0].data = 60;
    frames[0].headroom = 8;
    handle.free(&mut manager, frames).unwrap();
    // Two full slabs went to the manager; one frame stays gathered on the handle.
    assert_eq!(handle.statistics(&manager).total_available, 9);
    let mut other = manager.handle().unwrap();
    assert_eq!(other.reserve(&mut manager, 100).unwrap(), 8);
    let got: Vec<FrameDesc> = (0..8).map(|_| other.alloc_one(&mut manager).unwrap()).collect();
    assert_eq!(addrs(&got), vec![103, 102, 101, 100, 107, 106, 105, 104]);
    let first = got[3];
    assert_eq!(first, FrameDesc::new(100));
    assert_eq!(first.options(), 0);
    // The gathered frame is not available for allocation.
    assert_eq!(handle.alloc_one(&mut manager), Err(XdpError::NoMoreSlab));
}

#[test]
fn a_short_free_stays_on_the_handle() {
    let mut manager = SlabManager::new(SlabManagerConfig::new(4), Vec::new()).unwrap();
    let mut handle = manager.handle().unwrap();
    handle.free(&mut manager, frames_at(0..3)).unwrap();
    let mut other = manager.handle().unwrap();
    assert!(other.alloc_one(&mut manager).is_err());
    handle.free(&mut manager, frames_at(3..4)).unwrap();
    assert_eq!(other.alloc_one(&mut manager).unwrap().addr(), 3);
}

#[test]
fn free_handle_gathers_single_frames_into_a_slab() {
    let mut manager = SlabManager::new(SlabManagerConfig::new(3), Vec::new()).unwrap();
    let free = manager.free_handle();
    let mut handle = manager.handle().unwrap();
    free.free(&mut manager, FrameDesc::new(1)).unwrap();
    free.free(&mut manager, FrameDesc::new(2)).unwrap();
    assert!(handle.alloc_one(&mut manager).is_err());
    assert_eq!(handle.statistics(&manager).total_available, 2);
    free.free(&mut manager, FrameDesc::new(3)).unwrap();
    assert_eq!(handle.alloc_one(&mut manager).unwrap().addr(), 3);
    assert_eq!(handle.statistics(&manager).total_available, 2);
}

#[test]
fn statistics_count_everything_held() {
    let mut manager = SlabManager::new(SlabManagerConfig::new(4), frames_at(0..10)).unwrap();
    let mut handle = manager.handle().unwrap();
    assert_eq!(handle.statistics(&manager).total_available, 10);
    let f = handle.alloc_one(&mut manager).unwrap();
    assert_eq!(handle.statistics(&manager).total_available, 9);
    handle.free(&mut manager, vec![f]).unwrap();
    assert_eq!(handle.statistics(&manager).total_available, 10);
}

#[test]
fn new_manager_cuts_frames_into_slabs() {
    let mut manager = SlabManager::new(SlabManagerConfig::new(4), frames_at(0..8)).unwrap();
    let mut handle = manager.handle().unwrap();
    assert_eq!(handle.reserve(&mut manager, 1).unwrap(), 1);
    let mut other = manager.handle().unwrap();
    assert_eq!(other.reserve(&mut manager, 100).unwrap(), 4);
    assert_eq!(other.alloc_one(&mut manager).unwrap().addr(), 3);
    assert_eq!(handle.alloc_one(&mut manager).unwrap().addr(), 7);
}

#[test]
fn error_messages() {
    assert_eq!(XdpError::NoMoreSlab.message(), "no more available slab");
    assert_eq!(XdpError::Closed.message(), "CLose");
}

#[test]
fn free_splits_into_full_slabs_and_a_rest() {
    let mut manager = SlabManager::new(SlabManagerConfig::new(2), Vec::new()).unwrap();
    let mut h1 = manager.handle().unwrap();
    let h2 = manager.handle().unwrap();
    assert!(h1.free_stays_local(1));
    assert!(!h1.free_stays_local(2));
    h1.free(&mut manager, vec![FrameDesc::default(); 5]).unwrap();
    assert_eq!(h1.statistics(&manager).total_available, 5);
    assert_eq!(h2.statistics(&manager).total_available, 4);
    assert!(!h1.free_stays_local(1));
}

#[test]
fn alloc_queries() {
    let mut manager = SlabManager::new(SlabManagerConfig::new(4), frames_at(0..3)).unwrap();
    let mut handle = manager.handle().unwrap();
    assert!(!handle.has_ready());
    assert!(handle.alloc_one_allowed(&manager));
    handle.alloc_one(&mut manager).unwrap();
    assert!(handle.has_ready());
    let empty = SlabManager::new(SlabManagerConfig::new(4), Vec::new()).unwrap();
    let other = empty.handle().unwrap();
    assert!(other.alloc_one_allowed(&empty));
}
