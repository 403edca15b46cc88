use lib::console::{Console, BACKSPACE, CTRL_U, INPUT_CAPACITY};

fn type_str(c: &mut Console, s: &[u8]) -> Vec<u8> {
    let mut echo = Vec::new();
    for &b in s {
        echo.extend(c.input(b));
    }
    echo
}

fn read_all(c: &mut Console, room: usize) -> Vec<u8> {
    let mut dst = vec![0u8; room];
    let n = c.read(&mut dst);
    dst.truncate(n);
    dst
}

#[test]
fn next_wraps() {
    assert_eq!(Console::next(0), 1);
    assert_eq!(Console::next(INPUT_CAPACITY - 1), 0);
}

#[test]
fn line_readable_after_enter() {
    let mut c = Console::new();
    let echo = type_str(&mut c, b"ls");
    assert_eq!(echo, b"ls".to_vec());
    assert_eq!(read_all(&mut c, 16), Vec::<u8>::new());
    let echo = c.input(b'\r');
    assert_eq!(echo, b"\r\n".to_vec());
    assert_eq!(read_all(&mut c, 16), b"ls\n".to_vec());
    assert_eq!(read_all(&mut c, 16), Vec::<u8>::new());
}

#[test]
fn read_stops_at_newline_and_room() {
    let mut c = Console::new();
    type_str(&mut c, b"ab\ncd\n");
    assert_eq!(read_all(&mut c, 16), b"ab\n".to_vec());
    assert_eq!(read_all(&mut c, 1), b"c".to_vec());
    assert_eq!(read_all(&mut c, 16), b"d\n".to_vec());
}

#[test]
fn read_leaves_rest_of_buffer() {
    let mut c = Console::new();
    type_str(&mut c, b"xy\n");
    let mut dst = [9u8; 6];
    let n = c.read(&mut dst);
    assert_eq!(n, 3);
    assert_eq!(dst, [b'x', b'y', b'\n', 9, 9, 9]);
}

#[test]
fn backspace_erases_last() {
    let mut c = Console::new();
    type_str(&mut c, b"abc");
    let echo = c.input(BACKSPACE);
    assert_eq!(echo, vec![8, b' ', 8]);
    let echo = c.input(0x7f);
    assert_eq!(echo, vec![8, b' ', 8]);
    type_str(&mut c, b"\n");
    assert_eq!(read_all(&mut c, 16), b"a\n".to_vec());
}

#[test]
fn backspace_on_empty_line_does_nothing() {
    let mut c = Console::new();
    type_str(&mut c, b"q\n");
    assert_eq!(c.input(BACKSPACE), Vec::<u8>::new());
    assert_eq!(read_all(&mut c, 16), b"q\n".to_vec());
}

#[test]
fn ctrl_u_kills_line() {
    let mut c = Console::new();
    type_str(&mut c, b"one\n");
    type_str(&mut c, b"xyz");
    let echo = c.input(CTRL_U);
    assert_eq!(echo.len(), 9);
    assert_eq!(echo, vec![8, b' ', 8, 8, b' ', 8, 8, b' ', 8]);
    type_str(&mut c, b"two\n");
    assert_eq!(read_all(&mut c, 16), b"one\n".to_vec());
    assert_eq!(read_all(&mut c, 16), b"two\n".to_vec());
}

#[test]
fn control_bytes_ignored_tab_kept() {
    let mut c = Console::new();
    assert_eq!(c.input(0x01), Vec::<u8>::new());
    assert_eq!(c.input(b'\t'), vec![b'\t']);
    type_str(&mut c, b"\n");
    assert_eq!(read_all(&mut c, 16), b"\t\n".to_vec());
}

#[test]
fn full_buffer_publishes_partial_line() {
    let mut c = Console::new();
    let line = vec![b'a'; INPUT_CAPACITY - 1];
    let echo = type_str(&mut c, &line);
    assert_eq!(echo.len(), INPUT_CAPACITY - 1);
    assert_eq!(c.input(b'b'), Vec::<u8>::new());
    assert_eq!(read_all(&mut c, 256), line);
}

#[test]
fn newline_into_full_buffer_publishes_line() {
    let mut c = Console::new();
    let line = vec![b'a'; INPUT_CAPACITY - 1];
    type_str(&mut c, &line);
    assert_eq!(c.input(b'\n'), b"\r\n".to_vec());
    assert_eq!(read_all(&mut c, 256), line);
}

#[test]
fn newline_into_full_buffer_keeps_earlier_lines() {
    let mut c = Console::new();
    type_str(&mut c, b"hi");
    c.input(b'\r');
    let line = vec![b'q'; INPUT_CAPACITY - 4];
    type_str(&mut c, &line);
    assert_eq!(c.input(b'\r'), b"\r\n".to_vec());
    assert_eq!(read_all(&mut c, 256), b"hi\n".to_vec());
    assert_eq!(read_all(&mut c, 256), line);
}

#[test]
fn ring_wraps_around() {
    let mut c = Console::new();
    for _ in 0..5 {
        let line = vec![b'z'; 100];
        type_str(&mut c, &line);
        c.input(b'\n');
        let mut expect = line.clone();
        expect.push(b'\n');
        assert_eq!(read_all(&mut c, 256), expect);
    }
}
