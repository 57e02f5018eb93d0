use std::io::{IoSlice, IoSliceMut};

use fd_handoff::{FileDescriptorsMap, NAME_CAPACITY};
use nix::errno::Errno;
use nix::sys::socket::{
    self, AddressFamily, ControlMessage, ControlMessageOwned, MsgFlags, RecvMsg, SockFlag,
    SockType, UnixAddr,
};

fn unix_listener(name: &str) -> (i32, UnixAddr) {
    let fd = socket::socket(AddressFamily::Unix, SockType::Stream, SockFlag::empty(), None)
        .unwrap();
    let addr = UnixAddr::new_abstract(name.as_bytes()).unwrap();
    socket::bind(fd, &addr).unwrap();
    socket::listen(fd, 8).unwrap();
    (fd, addr)
}

#[test]
fn descriptor_survives_handoff() {
    let bind = "fd-handoff-listener".to_string();
    let (listen_fd, addr) = unix_listener(&bind);
    let mut old = FileDescriptorsMap::new();
    old.add(bind.clone(), listen_fd);

    let (tx, rx) = socket::socketpair(
        AddressFamily::Unix,
        SockType::Stream,
        None,
        SockFlag::empty(),
    )
    .unwrap();

    let (payload, fds) = old.handoff_message();
    let iov = [IoSlice::new(&payload)];
    let cmsg = [ControlMessage::ScmRights(&fds)];
    let sent = socket::sendmsg(tx, &iov, &cmsg, MsgFlags::empty(), None::<&UnixAddr>).unwrap();
    assert_eq!(sent, payload.len());

    // The sender gives up its copy once the message is out.
    nix::unistd::close(listen_fd).unwrap();
    assert_eq!(nix::sys::stat::fstat(listen_fd).err(), Some(Errno::EBADF));

    let mut buf = [0u8; NAME_CAPACITY];
    let mut iov = [IoSliceMut::new(&mut buf)];
    let mut space: Vec<u8> = Vec::with_capacity(512);
    let msg: RecvMsg<UnixAddr> =
        socket::recvmsg(rx, &mut iov, Some(&mut space), MsgFlags::empty()).unwrap();
    let mut got: Vec<i32> = Vec::new();
    for c in msg.cmsgs() {
        if let ControlMessageOwned::ScmRights(mut v) = c {
            got.append(&mut v);
        }
    }
    let n = msg.bytes;

    let mut new = FileDescriptorsMap::new();
    assert_eq!(new.load_handoff(&buf[..n], got), Ok(()));
    let received = *new.get(&bind).unwrap();

    let client = socket::socket(AddressFamily::Unix, SockType::Stream, SockFlag::empty(), None)
        .unwrap();
    socket::connect(client, &addr).unwrap();
    let conn = socket::accept(received).unwrap();
    assert!(conn >= 0);

    for fd in [conn, client, received, tx, rx] {
        nix::unistd::close(fd).unwrap();
    }
}
