//! Frame management and polling decisions for AF_XDP sockets.
pub mod desc;
pub mod error;
pub mod batch;
pub mod context;
pub mod frame;
pub mod frame_manager;
pub mod runner;

pub use batch::FrameBatch;
pub use context::{XdpContextBuilder, XdpContextInner, UmemConfigState};
pub use desc::FrameDesc;
pub use error::XdpError;
pub use frame::Frame;
pub use frame_manager::FrameStatistics;
pub use frame_manager::slab_manager::{SlabFree, SlabHandle, SlabManager, SlabManagerConfig};
pub use runner::{BindCoreRunner, Poller, SingleThreadRunner};
pub use runner::poller::{BATCH_SIZSE, InFlight, TxAction, TxBurst, XdpReceiveMsg, XdpSendMsg};
