use task_core::mail::{MailBox, UserBuffer};

fn buffer(pieces: &[&[u8]]) -> UserBuffer {
    UserBuffer { buffers: pieces.iter().map(|p| p.to_vec()).collect() }
}

fn zeros(sizes: &[usize]) -> UserBuffer {
    UserBuffer { buffers: sizes.iter().map(|&n| vec![0u8; n]).collect() }
}

fn bytes(b: &UserBuffer) -> Vec<u8> {
    b.buffers.concat()
}

#[test]
fn empty_mailbox_reads_minus_one() {
    let mut m = MailBox::new();
    let mut out = zeros(&[4]);
    assert_eq!(m.read(&mut out), -1);
    assert_eq!(bytes(&out), vec![0, 0, 0, 0]);
}

#[test]
fn message_written_in_pieces_reads_back_across_pieces() {
    let mut m = MailBox::new();
    assert!(m.write(&buffer(&[b"hel", b"lo, ", b"world"])));
    let mut out = zeros(&[2, 20]);
    assert_eq!(m.read(&mut out), 12);
    assert_eq!(&bytes(&out)[..12], b"hello, world");
    assert!(bytes(&out)[12..].iter().all(|&b| b == 0));
    assert_eq!(out.buffers[0].len(), 2);
    assert_eq!(m.read(&mut out), -1);
}

#[test]
fn short_read_consumes_the_whole_message() {
    let mut m = MailBox::new();
    assert!(m.write(&buffer(&[b"abcdef"])));
    assert!(m.write(&buffer(&[b"xyz"])));
    let mut out = zeros(&[1, 2]);
    assert_eq!(m.read(&mut out), 3);
    assert_eq!(bytes(&out), b"abc".to_vec());
    let mut out = zeros(&[8]);
    assert_eq!(m.read(&mut out), 3);
    assert_eq!(&bytes(&out)[..3], b"xyz");
}

#[test]
fn empty_reads_and_writes_change_nothing() {
    let mut m = MailBox::new();
    assert!(m.write(&buffer(&[])));
    let mut out = zeros(&[4]);
    assert_eq!(m.read(&mut out), -1);
    assert!(m.write(&buffer(&[b"q"])));
    let mut empty = zeros(&[]);
    assert_eq!(m.read(&mut empty), 0);
    assert_eq!(m.read(&mut out), 1);
    assert_eq!(bytes(&out), vec![b'q', 0, 0, 0]);
}

#[test]
fn ring_holds_fifteen_messages() {
    let mut m = MailBox::new();
    for i in 0..15u8 {
        assert!(m.write(&buffer(&[&[i]])));
    }
    assert!(!m.write(&buffer(&[b"full"])));
    let mut out = zeros(&[1]);
    assert_eq!(m.read(&mut out), 1);
    assert_eq!(out.buffers[0], vec![0]);
    assert!(m.write(&buffer(&[b"z"])));
    for i in 1..15u8 {
        assert_eq!(m.read(&mut out), 1);
        assert_eq!(out.buffers[0], vec![i]);
    }
    assert_eq!(m.read(&mut out), 1);
    assert_eq!(out.buffers[0], b"z".to_vec());
    assert_eq!(m.read(&mut out), -1);
}

#[test]
fn next_wraps_around() {
    let m = MailBox::new();
    assert_eq!(m.next(0), 1);
    assert_eq!(m.next(15), 0);
}

#[test]
fn user_buffer_length_sums_pieces() {
    assert_eq!(buffer(&[b"ab", b"", b"cde"]).len(), 5);
    assert_eq!(zeros(&[]).len(), 0);
}
