use lib::uart::{
    decode_iir, echo_of, hex_string, reg_ptr, rx_ready, tx_idle, Uart, UartInterrupt, IER_RX_ENABLE,
    IER_TX_ENABLE, LSR, UART_BASE, UART_TX_CAPACITY,
};

#[test]
fn register_addresses() {
    assert_eq!(reg_ptr(0), UART_BASE);
    assert_eq!(reg_ptr(LSR), 0x1000_0005);
}

#[test]
fn line_status_bits() {
    assert!(rx_ready(0x61));
    assert!(!rx_ready(0x60));
    assert!(tx_idle(0x20));
    assert!(!tx_idle(0x01));
}

#[test]
fn interrupt_identification() {
    assert_eq!(decode_iir(0x01), UartInterrupt::NonePending);
    assert_eq!(decode_iir(0xc1), UartInterrupt::NonePending);
    assert_eq!(decode_iir(0x02), UartInterrupt::TransmitEmpty);
    assert_eq!(decode_iir(0xc2), UartInterrupt::TransmitEmpty);
    assert_eq!(decode_iir(0x04), UartInterrupt::Receive);
    assert_eq!(decode_iir(0x0c), UartInterrupt::Receive);
}

#[test]
fn tx_next_wraps() {
    assert_eq!(Uart::tx_next(0), 1);
    assert_eq!(Uart::tx_next(UART_TX_CAPACITY - 1), 0);
}

#[test]
fn queue_is_fifo() {
    let mut u = Uart::new();
    assert!(!u.has_pending());
    assert_eq!(u.ier_value(), IER_RX_ENABLE);
    assert_eq!(u.enqueue(b'a'), None);
    assert_eq!(u.enqueue(b'b'), None);
    assert!(u.has_pending());
    assert_eq!(u.ier_value(), IER_RX_ENABLE | IER_TX_ENABLE);
    assert_eq!(u.pop_pending(), Some(b'a'));
    assert_eq!(u.pop_pending(), Some(b'b'));
    assert_eq!(u.pop_pending(), None);
}

#[test]
fn full_queue_displaces_oldest() {
    let mut u = Uart::new();
    for i in 0..(UART_TX_CAPACITY - 1) {
        assert_eq!(u.enqueue(i as u8), None);
    }
    assert_eq!(u.enqueue(100), Some(0));
    assert_eq!(u.enqueue(101), Some(1));
    let mut out = Vec::new();
    while let Some(b) = u.pop_pending() {
        out.push(b);
    }
    let mut expect: Vec<u8> = (2..31).collect();
    expect.push(100);
    expect.push(101);
    assert_eq!(out, expect);
}

#[test]
fn hex_formatting() {
    assert_eq!(hex_string(0), b"0x0".to_vec());
    assert_eq!(hex_string(1), b"0x1".to_vec());
    assert_eq!(hex_string(0x1a2b), b"0x1a2b".to_vec());
    assert_eq!(hex_string(0x8020_0000), b"0x80200000".to_vec());
    assert_eq!(hex_string(usize::MAX), b"0xffffffffffffffff".to_vec());
}

#[test]
fn echo_line_breaks() {
    assert_eq!(echo_of(b'\r'), b"\r\n".to_vec());
    assert_eq!(echo_of(b'x'), vec![b'x']);
    assert_eq!(echo_of(b'\n'), vec![b'\n']);
}
