# async_xdp

Frame management and polling decisions for AF_XDP sockets, verified with Verus.

- `src/` is the verified library:
  - `desc` — frame descriptors (`FrameDesc`) and their reset;
  - `frame_manager::slab_manager` — the slab frame manager: a manager holds
    whole slabs of frames, handles take slabs to allocate from and give back
    full slabs of freed frames. Every operation states exactly which frames
    move where, and that no frame is lost or duplicated;
  - `batch` — cutting runs of descriptors into batches, and `FrameBatch`, the
    inline vector that carries one batch;
  - `runner::poller` — the poller's decisions: filling the fill ring, the TX
    burst, the frames in flight, the batches handed to the context;
  - `runner` — the `Poller` trait, the runners' state;
  - `context` — the context builder's UMEM setup, the one receive handle, the
    messages that carry frames;
  - `frame` — a frame that hands its descriptor back once.
- `app/` connects the library to `xsk_rs` sockets, `tokio` channels and
  threads.
- `tests/` runs the library on concrete frames.
