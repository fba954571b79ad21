use kernel::stdio::{gets, puts, read, recv};

#[test]
fn recv_translates_and_echoes() {
    assert_eq!(recv(b'\r'), (b'\n', b"\r\n".to_vec()));
    assert_eq!(recv(b'\n'), (b'\n', b"\r\n".to_vec()));
    assert_eq!(recv(0x08), (0x7f, b"\x08 \x08".to_vec()));
    assert_eq!(recv(0x7f), (0x7f, b"\x08 \x08".to_vec()));
    assert_eq!(recv(b'a'), (b'a', b"a".to_vec()));
}

#[test]
fn read_fills_buffer() {
    let mut buf = vec![0u8; 3];
    let echo = read(&mut buf, b"a\rb");
    assert_eq!(buf, b"a\nb".to_vec());
    assert_eq!(echo, b"a\r\nb".to_vec());
}

#[test]
fn write_sends_everything() {
    assert_eq!(kernel::stdio::write(b"ab\0c"), b"ab\0c".to_vec());
    assert_eq!(kernel::stdio::write(b""), Vec::<u8>::new());
}

#[test]
fn puts_stops_at_nul() {
    assert_eq!(puts(b"hi\0there"), b"hi\r\n".to_vec());
    assert_eq!(puts(b"hello"), b"hello\r\n".to_vec());
    assert_eq!(puts(b""), b"\r\n".to_vec());
}

#[test]
fn gets_edits_a_line() {
    let mut buf = vec![0u8; 8];
    let r = gets(&mut buf, b"helq\x7fp\nrest");
    assert_eq!(r, Some((4, 7)));
    assert_eq!(&buf[..5], b"help\0");
}

#[test]
fn gets_ignores_erase_at_start() {
    let mut buf = vec![0u8; 5];
    let r = gets(&mut buf, b"\x7fabcd\x7f\x7fx\n");
    assert_eq!(r, Some((3, 9)));
    assert_eq!(buf, b"abx\0\0".to_vec());
}

#[test]
fn gets_drops_bytes_past_the_end() {
    let mut buf = vec![0u8; 3];
    assert_eq!(gets(&mut buf, b"abcd\n"), None);
    assert_eq!(buf, b"abc".to_vec());
}

#[test]
fn gets_needs_room_for_terminator() {
    let mut buf = vec![0u8; 2];
    assert_eq!(gets(&mut buf, b"ab\n"), None);
    assert_eq!(buf, b"ab".to_vec());
}
