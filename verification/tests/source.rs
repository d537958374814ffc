use stream_locate_converter::source::{ByteSource, Pipe, ReadFailure};

#[test]
fn slice_hands_out_a_full_buffer_at_a_time() {
    let mut source: &[u8] = b"hello world";
    let mut buf = vec![0u8; 4];
    assert_eq!(source.read(&mut buf), Ok(4));
    assert_eq!(buf, b"hell");
    assert_eq!(source, b"o world");
    assert_eq!(source.read(&mut buf), Ok(4));
    assert_eq!(buf, b"o wo");
    assert_eq!(source.read(&mut buf), Ok(3));
    assert_eq!(&buf[..3], b"rld");
    assert_eq!(buf.len(), 4);
    assert_eq!(source.read(&mut buf), Ok(0));
    assert_eq!(source.read(&mut buf), Ok(0));
}

#[test]
fn empty_buffer_takes_nothing() {
    let mut source: &[u8] = b"abc";
    let mut buf = Vec::new();
    assert_eq!(source.read(&mut buf), Ok(0));
    assert_eq!(source, b"abc");
    let mut pipe = Pipe::new();
    assert!(pipe.push(b"abc"));
    assert_eq!(pipe.read(&mut buf), Ok(0));
    assert_eq!(pipe.len(), 3);
}

#[test]
fn pipe_hands_out_what_was_pushed_in_order() {
    let mut pipe = Pipe::new();
    assert_eq!(pipe.len(), 0);
    assert!(!pipe.closed());
    assert!(pipe.push(b"abc"));
    assert!(pipe.push(b""));
    assert!(pipe.push(b"defgh"));
    assert_eq!(pipe.len(), 8);
    let mut buf = vec![0u8; 5];
    assert_eq!(pipe.read(&mut buf), Ok(5));
    assert_eq!(buf, b"abcde");
    assert_eq!(pipe.len(), 3);
    assert!(pipe.push(b"ij"));
    assert_eq!(pipe.read(&mut buf), Ok(5));
    assert_eq!(buf, b"fghij");
    assert_eq!(pipe.len(), 0);
}

#[test]
fn open_pipe_fails_when_empty_and_closed_pipe_returns_0() {
    let mut pipe = Pipe::new();
    let mut buf = vec![7u8; 2];
    assert_eq!(pipe.read(&mut buf), Err(ReadFailure));
    assert_eq!(buf, [7, 7]);
    assert!(pipe.push(b"x"));
    assert_eq!(pipe.read(&mut buf), Ok(1));
    assert_eq!(buf, [b'x', 7]);
    assert_eq!(pipe.read(&mut buf), Err(ReadFailure));
    pipe.close();
    assert!(pipe.closed());
    assert_eq!(pipe.read(&mut buf), Ok(0));
    assert_eq!(pipe.read(&mut buf), Ok(0));
}

#[test]
fn closed_pipe_takes_nothing_and_hands_out_the_rest() {
    let mut pipe = Pipe::new();
    assert!(pipe.push(b"abc"));
    pipe.close();
    assert!(!pipe.push(b"d"));
    assert_eq!(pipe.len(), 3);
    let mut buf = vec![0u8; 8];
    assert_eq!(pipe.read(&mut buf), Ok(3));
    assert_eq!(&buf[..3], b"abc");
    assert_eq!(pipe.read(&mut buf), Ok(0));
}
