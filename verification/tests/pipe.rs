use sumi_kernel::net::pipe::{pipe_readiness, try_read, try_write, PipeState, PIPE_CAPACITY};
use sumi_kernel::net::socket::{EPOLLERR, EPOLLHUP, EPOLLIN, EPOLLOUT};
use sumi_kernel::net::state::NetStateInner;
use sumi_kernel::net::wait::Wait;
use sumi_kernel::syscall::errno::{EAGAIN, EPIPE};
use sumi_kernel::time::init;

fn ready(w: Wait) -> i64 {
    match w {
        Wait::Ready(v) => v,
        Wait::Block => panic!("expected Ready, got Block"),
    }
}

fn is_block(w: Wait) -> bool {
    matches!(w, Wait::Block)
}

#[test]
fn write_then_read_roundtrip() {
    let mut p = PipeState::new();
    assert_eq!(ready(try_write(&mut p, b"hello")), 5);
    let mut buf = [0u8; 16];
    let n = ready(try_read(&mut p, &mut buf)) as usize;
    assert_eq!(&buf[..n], b"hello");
}

#[test]
fn read_on_empty_buffer_with_open_writer_blocks() {
    let mut p = PipeState::new();
    let mut buf = [0u8; 8];
    assert!(is_block(try_read(&mut p, &mut buf)));
}

#[test]
fn read_returns_eof_after_writer_closes() {
    let mut p = PipeState::new();
    p.writers = 0;
    let mut buf = [0u8; 8];
    assert_eq!(ready(try_read(&mut p, &mut buf)), 0);
}

#[test]
fn write_returns_epipe_after_reader_closes() {
    let mut p = PipeState::new();
    p.readers = 0;
    assert_eq!(ready(try_write(&mut p, b"x")), EPIPE);
}

#[test]
fn write_blocks_at_capacity() {
    let mut p = PipeState::new();
    p.buf.extend(core::iter::repeat_n(0u8, PIPE_CAPACITY));
    assert!(is_block(try_write(&mut p, b"x")));
}

#[test]
fn write_short_fills_only_remaining_capacity() {
    let mut p = PipeState::new();
    p.buf.extend(core::iter::repeat_n(0u8, PIPE_CAPACITY - 3));
    // Only 3 bytes of space left — a 5-byte write is short.
    assert_eq!(ready(try_write(&mut p, b"hello")), 3);
    assert_eq!(p.buf.len(), PIPE_CAPACITY);
}

#[test]
fn nonblocking_dispatch_maps_block_to_eagain() {
    let mut p = PipeState::new();
    let mut buf = [0u8; 4];
    let read_result = match try_read(&mut p, &mut buf) {
        Wait::Ready(v) => v,
        Wait::Block => EAGAIN,
    };
    assert_eq!(read_result, EAGAIN);

    p.buf.extend(core::iter::repeat_n(0u8, PIPE_CAPACITY));
    let write_result = match try_write(&mut p, b"x") {
        Wait::Ready(v) => v,
        Wait::Block => EAGAIN,
    };
    assert_eq!(write_result, EAGAIN);
}

#[test]
fn readiness_read_end_tracks_data_and_writer_hangup() {
    let mut p = PipeState::new();
    assert_eq!(pipe_readiness(&p, false), 0, "empty, writer open -> not readable");
    p.buf.push_back(b'x');
    assert_eq!(pipe_readiness(&p, false), EPOLLIN);
    p.buf.clear();
    p.writers = 0;
    assert_eq!(pipe_readiness(&p, false), EPOLLIN | EPOLLHUP, "writer closed -> EOF readable + hangup");
}

#[test]
fn readiness_write_end_tracks_space_and_reader_hangup() {
    let mut p = PipeState::new();
    assert_eq!(pipe_readiness(&p, true), EPOLLOUT);
    p.buf.extend(core::iter::repeat_n(0u8, PIPE_CAPACITY));
    assert_eq!(pipe_readiness(&p, true), 0, "full buffer -> not writable");
    p.readers = 0;
    assert_eq!(pipe_readiness(&p, true), EPOLLERR);
}

#[test]
fn net_state_pipe_alloc_reuses_freed_slots() {
    let mut st = NetStateInner::new_loopback(&None, &init(1000, 0, 0, 0), 0);
    let id0 = st.pipe_alloc(PipeState::new());
    st.pipe_free(id0);
    let id1 = st.pipe_alloc(PipeState::new());
    assert_eq!(id0, id1);
}

#[test]
fn bytes_leave_a_pipe_in_the_order_they_came() {
    let mut p = PipeState::new();
    assert_eq!(ready(try_write(&mut p, b"abc")), 3);
    assert_eq!(ready(try_write(&mut p, b"def")), 3);
    let mut buf = [0u8; 4];
    assert_eq!(ready(try_read(&mut p, &mut buf)), 4);
    assert_eq!(&buf, b"abcd");
    let mut rest = [9u8; 4];
    assert_eq!(ready(try_read(&mut p, &mut rest)), 2);
    assert_eq!(&rest, b"ef\x09\x09");
}

#[test]
fn buffered_bytes_outlive_the_writer() {
    let mut p = PipeState::new();
    assert_eq!(ready(try_write(&mut p, b"z")), 1);
    p.writers = 0;
    let mut buf = [0u8; 4];
    assert_eq!(ready(try_read(&mut p, &mut buf)), 1);
    assert_eq!(ready(try_read(&mut p, &mut buf)), 0);
}
