//! The NS16550 UART on the QEMU `virt` machine: register addresses, the
//! decoding of its status registers, the bounded transmit queue, and the
//! hexadecimal formatting used for early diagnostics.

use vstd::prelude::*;

verus! {

/// Base address of the UART registers.
pub const UART_BASE: usize = 0x1000_0000;

/// Receive holding register (read).
pub const RHR: usize = 0;

/// Transmit holding register (write).
pub const THR: usize = 0;

/// Interrupt enable register.
pub const IER: usize = 1;

/// Interrupt identification register.
pub const IIR: usize = 2;

/// Line status register.
pub const LSR: usize = 5;

/// IER: receive interrupts.
pub const IER_RX_ENABLE: u8 = 1;

/// IER: transmit-holding-empty interrupts.
pub const IER_TX_ENABLE: u8 = 2;

/// LSR: a received byte is waiting.
pub const LSR_RX_READY: u8 = 1;

/// LSR: the transmitter can take a byte.
pub const LSR_TX_IDLE: u8 = 0x20;

/// IIR: no interrupt pending.
pub const IIR_NO_PENDING: u8 = 1;

/// IIR: mask of the interrupt identity.
pub const IIR_ID_MASK: u8 = 0x0e;

/// IIR identity: transmit holding register empty.
pub const IIR_TX_EMPTY: u8 = 0x02;

/// Capacity of the transmit ring (one slot always stays free).
pub const UART_TX_CAPACITY: usize = 32;

/// Address of the UART register at `offset`.
pub fn reg_ptr(offset: usize) -> (r: usize)
    requires
        UART_BASE + offset <= usize::MAX,
    ensures
        r == UART_BASE + offset,
{
    UART_BASE + offset
}

/// Whether the line status `lsr` reports a received byte.
pub fn rx_ready(lsr: u8) -> (r: bool)
    ensures
        r == (lsr % 2 == 1),
{
    assert((lsr & 1u8 != 0) == (lsr % 2 == 1)) by (bit_vector);
    lsr & LSR_RX_READY != 0
}

/// Whether the line status `lsr` reports an idle transmitter.
pub fn tx_idle(lsr: u8) -> (r: bool)
    ensures
        r == ((lsr / 32) % 2 == 1),
{
    assert((lsr & 0x20u8 != 0) == ((lsr / 32) % 2 == 1)) by (bit_vector);
    lsr & LSR_TX_IDLE != 0
}

/// What an interrupt identification value asks for.
#[derive(Clone, Copy, Debug, PartialEq, Eq)]
pub enum UartInterrupt {
    /// Nothing pending: stop draining.
    NonePending,
    /// The transmitter is empty: move queued bytes out.
    TransmitEmpty,
    /// Anything else: drain received bytes.
    Receive,
}

/// The meaning of the interrupt identification value `iir`.
pub open spec fn iir_meaning(iir: u8) -> UartInterrupt {
    if iir % 2 == 1 {
        UartInterrupt::NonePending
    } else if (iir / 2) % 8 == 1 {
        UartInterrupt::TransmitEmpty
    } else {
        UartInterrupt::Receive
    }
}

/// Decodes the interrupt identification register.
pub fn decode_iir(iir: u8) -> (r: UartInterrupt)
    ensures
        r == iir_meaning(iir),
{
    assert((iir & 1u8 != 0) == (iir % 2 == 1) && ((iir & 0x0eu8 == 0x02u8) == ((iir / 2) % 8
        == 1))) by (bit_vector);
    if iir & IIR_NO_PENDING != 0 {
        UartInterrupt::NonePending
    } else if iir & IIR_ID_MASK == IIR_TX_EMPTY {
        UartInterrupt::TransmitEmpty
    } else {
        UartInterrupt::Receive
    }
}

/// How far position `b` lies after `a` in the transmit ring.
pub open spec fn tx_dist(a: int, b: int) -> int {
    if b >= a {
        b - a
    } else {
        b - a + UART_TX_CAPACITY
    }
}

/// Position `x` (below twice the capacity) folded back into the ring.
pub open spec fn tx_wrap(x: int) -> int {
    if x >= UART_TX_CAPACITY {
        x - UART_TX_CAPACITY
    } else {
        x
    }
}

/// What queueing `ch` does to the pending bytes `q`: when the ring is full
/// the oldest byte leaves the queue first, to be sent directly.
pub open spec fn enqueue_effect(q: Seq<u8>, ch: u8) -> (Seq<u8>, Option<u8>) {
    if q.len() + 1 >= UART_TX_CAPACITY {
        (q.drop_first().push(ch), Some(q[0]))
    } else {
        (q.push(ch), None)
    }
}

/// UART driver state: the queue of bytes waiting for the transmitter.
pub struct Uart {
    tx: Vec<u8>,
    tx_r: usize,
    tx_w: usize,
    /// Every byte queued so far, in order.
    queued: Ghost<Seq<u8>>,
    /// Every byte handed to the transmitter so far, in order.
    sent: Ghost<Seq<u8>>,
}

impl Uart {
    /// The bytes waiting to be transmitted, oldest first.
    pub closed spec fn pending(&self) -> Seq<u8> {
        Seq::new(
            tx_dist(self.tx_r as int, self.tx_w as int) as nat,
            |i: int| self.tx@[tx_wrap(self.tx_r + i)],
        )
    }

    /// Every byte queued since the driver was created, in order.
    pub closed spec fn queued(&self) -> Seq<u8> {
        self.queued@
    }

    /// Every byte handed out for transmission since the driver was
    /// created, in order.
    pub closed spec fn sent(&self) -> Seq<u8> {
        self.sent@
    }

    /// The ring indices are in range, and the bytes handed out followed by
    /// those still waiting are exactly the bytes queued.
    pub closed spec fn wf(&self) -> bool {
        &&& self.tx@.len() == UART_TX_CAPACITY
        &&& self.tx_r < UART_TX_CAPACITY
        &&& self.tx_w < UART_TX_CAPACITY
        &&& self.sent@ + self.pending() == self.queued@
    }

    /// A driver with nothing queued.
    pub fn new() -> (r: Self)
        ensures
            r.wf(),
            r.pending() == Seq::<u8>::empty(),
            r.queued() == Seq::<u8>::empty(),
            r.sent() == Seq::<u8>::empty(),
    {
        let tx: Vec<u8> = vec![0u8; UART_TX_CAPACITY];
        let r = Uart { tx, tx_r: 0, tx_w: 0, queued: Ghost(Seq::empty()), sent: Ghost(Seq::empty()) };
        assert(r.pending() =~= Seq::<u8>::empty());
        assert(r.sent@ + r.pending() =~= r.queued@);
        r
    }

    /// The ring position after `index`.
    pub fn tx_next(index: usize) -> (r: usize)
        requires
            index < UART_TX_CAPACITY,
        ensures
            r == tx_wrap(index + 1),
    {
        (index + 1) % UART_TX_CAPACITY
    }

    /// Law: the queue never holds more than `UART_TX_CAPACITY - 1` bytes.
    pub proof fn lemma_pending_bound(&self)
        requires
            self.wf(),
        ensures
            self.pending().len() < UART_TX_CAPACITY,
    {
    }

    /// Whether any byte waits for the transmitter.
    pub fn has_pending(&self) -> (r: bool)
        requires
            self.wf(),
        ensures
            r == (self.pending().len() > 0),
    {
        self.tx_r != self.tx_w
    }

    /// Queues `ch` for transmission. When the ring is full the oldest
    /// queued byte is taken out and returned: it must be written to the
    /// transmitter directly, before the queue, to keep the byte order.
    pub fn enqueue(&mut self, ch: u8) -> (displaced: Option<u8>)
        requires
            old(self).wf(),
        ensures
            final(self).wf(),
            (final(self).pending(), displaced) == enqueue_effect(old(self).pending(), ch),
            final(self).queued() == old(self).queued().push(ch),
            final(self).sent() == match displaced {
                Some(b) => old(self).sent().push(b),
                None => old(self).sent(),
            },
    {
        let ghost q0 = self.pending();
        let ghost s0 = self.sent@;
        let next: usize = Uart::tx_next(self.tx_w);
        let mut displaced: Option<u8> = None;
        if next == self.tx_r {
            let b: u8 = self.tx[self.tx_r];
            displaced = Some(b);
            self.tx_r = Uart::tx_next(self.tx_r);
            proof {
                self.sent@ = self.sent@.push(b);
            }
            assert(self.pending() =~= q0.drop_first());
            assert(self.sent@ + self.pending() =~= s0 + q0);
        }
        let ghost q1 = self.pending();
        let w: usize = self.tx_w;
        self.tx.set(w, ch);
        self.tx_w = next;
        proof {
            self.queued@ = self.queued@.push(ch);
        }
        assert(self.pending() =~= q1.push(ch));
        assert(self.sent@ + self.pending() =~= self.queued@);
        displaced
    }

    /// Takes the oldest queued byte for the transmitter, if any.
    pub fn pop_pending(&mut self) -> (r: Option<u8>)
        requires
            old(self).wf(),
        ensures
            final(self).wf(),
            old(self).pending().len() == 0 ==> r is None && final(self).pending() == old(self).pending(),
            old(self).pending().len() > 0 ==> r == Some(old(self).pending()[0])
                && final(self).pending() == old(self).pending().drop_first(),
            final(self).queued() == old(self).queued(),
            final(self).sent() == match r {
                Some(b) => old(self).sent().push(b),
                None => old(self).sent(),
            },
    {
        if self.tx_r == self.tx_w {
            return None;
        }
        let ghost q0 = self.pending();
        let ghost s0 = self.sent@;
        let b: u8 = self.tx[self.tx_r];
        self.tx_r = Uart::tx_next(self.tx_r);
        proof {
            self.sent@ = self.sent@.push(b);
        }
        assert(self.pending() =~= q0.drop_first());
        assert(self.sent@ + self.pending() =~= s0 + q0);
        Some(b)
    }

    /// The interrupt-enable value after a transmit pass: receive
    /// interrupts always, transmit interrupts while bytes are still queued.
    pub fn ier_value(&self) -> (r: u8)
        requires
            self.wf(),
        ensures
            r == if self.pending().len() == 0 {
                IER_RX_ENABLE
            } else {
                (IER_RX_ENABLE | IER_TX_ENABLE) as u8
            },
    {
        if self.tx_r == self.tx_w {
            IER_RX_ENABLE
        } else {
            IER_RX_ENABLE | IER_TX_ENABLE
        }
    }
}

/// Law: output is never lost, duplicated or reordered: the bytes handed
/// to the transmitter so far are a prefix of the bytes queued, and
/// together with the bytes still waiting they are all of them; once the
/// queue is empty, everything queued has been handed out.
pub proof fn lemma_sent_is_prefix(u: &Uart)
    requires
        u.wf(),
    ensures
        u.sent().len() <= u.queued().len(),
        u.queued().take(u.sent().len() as int) == u.sent(),
        u.sent() + u.pending() == u.queued(),
        u.pending().len() == 0 ==> u.sent() == u.queued(),
{
    assert(u.queued().take(u.sent().len() as int) =~= u.sent());
    if u.pending().len() == 0 {
        assert(u.sent() + u.pending() =~= u.sent());
    }
}

/// Law: queueing never reorders or loses output: the byte sent directly
/// (if any) followed by the new queue is the old queue followed by `ch`.
pub proof fn lemma_enqueue_keeps_order(q: Seq<u8>, ch: u8)
    requires
        q.len() < UART_TX_CAPACITY,
    ensures
        ({
            let (q2, d) = enqueue_effect(q, ch);
            &&& q2.len() < UART_TX_CAPACITY
            &&& match d {
                Some(b) => seq![b] + q2 == q.push(ch),
                None => q2 == q.push(ch),
            }
        }),
{
    let (q2, d) = enqueue_effect(q, ch);
    if let Some(b) = d {
        assert(seq![b] + q2 =~= q.push(ch));
    }
}


/// The ASCII lowercase hexadecimal digit for `d` (below 16).
pub open spec fn hex_digit(d: int) -> u8 {
    if d < 10 {
        (48 + d) as u8
    } else {
        (97 + d - 10) as u8
    }
}

/// The hexadecimal digits of `v`, least significant first (none for 0).
pub open spec fn digits_le(v: nat) -> Seq<u8>
    decreases v,
{
    if v == 0 {
        Seq::empty()
    } else {
        seq![hex_digit((v % 16) as int)] + digits_le(v / 16)
    }
}

/// The text `print_hex` writes for `v`: `0x` and its lowercase hexadecimal
/// digits, most significant first, without leading zeros (`0x0` for 0).
pub open spec fn hex_text(v: nat) -> Seq<u8> {
    if v == 0 {
        seq![48u8, 120u8, 48u8]
    } else {
        seq![48u8, 120u8] + digits_le(v).reverse()
    }
}

/// The value of a digit character produced by `hex_digit`.
pub open spec fn digit_value(c: u8) -> int {
    if c <= 57 {
        c - 48
    } else {
        c - 97 + 10
    }
}

/// The number that little-endian digits `s` denote.
pub open spec fn value_le(s: Seq<u8>) -> int
    decreases s.len(),
{
    if s.len() == 0 {
        0
    } else {
        digit_value(s[0]) + 16 * value_le(s.drop_first())
    }
}

/// Law: the digits of `v` read back as `v`, and the most significant digit
/// of a non-zero value is not `0`.
pub proof fn lemma_hex_round_trip(v: nat)
    ensures
        value_le(digits_le(v)) == v,
        v > 0 ==> digits_le(v).last() != 48u8,
    decreases v,
{
    if v > 0 {
        lemma_hex_round_trip(v / 16);
        let s = digits_le(v);
        assert(s.drop_first() =~= digits_le(v / 16));
        if v / 16 == 0 {
            assert(s.len() == 1);
        } else {
            assert(s.last() == digits_le(v / 16).last());
        }
    }
}

/// The sixteen lowercase hexadecimal digit characters, `0` to `f`.
pub open spec fn hex_alphabet() -> Seq<u8> {
    seq![
        0x30u8, 0x31u8, 0x32u8, 0x33u8, 0x34u8, 0x35u8, 0x36u8, 0x37u8, 0x38u8, 0x39u8,
        0x61u8, 0x62u8, 0x63u8, 0x64u8, 0x65u8, 0x66u8,
    ]
}

/// Law: `print_hex` writes `0x0` for zero, `0x` and the one digit
/// character of a value below sixteen, and for larger values the text of
/// the value without its last digit followed by the character of that
/// digit; the characters are `0`-`9` then `a`-`f`.
pub proof fn lemma_hex_text_digits(v: nat)
    ensures
        v == 0 ==> hex_text(v) == seq![0x30u8, 0x78u8, 0x30u8],
        0 < v < 16 ==> hex_text(v) == seq![0x30u8, 0x78u8, hex_alphabet()[v as int]],
        v >= 16 ==> hex_text(v) == hex_text(v / 16).push(hex_alphabet()[(v % 16) as int]),
{
    if v > 0 {
        let d = (v % 16) as int;
        assert(hex_digit(d) == hex_alphabet()[d]) by {
            if d < 10 {
            } else {
            }
        }
        let s = digits_le(v);
        assert(s == seq![hex_digit(d)] + digits_le(v / 16));
        assert(s.reverse() =~= digits_le(v / 16).reverse().push(hex_digit(d)));
        if v < 16 {
            assert(digits_le(v / 16) == Seq::<u8>::empty());
            assert(hex_text(v) =~= seq![0x30u8, 0x78u8, hex_alphabet()[v as int]]);
        } else {
            assert(hex_text(v) =~= hex_text(v / 16).push(hex_alphabet()[d]));
        }
    }
}

/// Formats `value` as `print_hex` prints it.
pub fn hex_string(value: usize) -> (r: Vec<u8>)
    ensures
        r@ == hex_text(value as nat),
{
    let mut out: Vec<u8> = Vec::new();
    out.push(48u8);
    out.push(120u8);
    if value == 0 {
        out.push(48u8);
        assert(out@ =~= hex_text(value as nat));
        return out;
    }
    let mut buffer: Vec<u8> = Vec::new();
    let mut v: usize = value;
    while v > 0
        invariant
            buffer@ + digits_le(v as nat) == digits_le(value as nat),
        decreases v,
    {
        let digit: u8 = (v & 0xF) as u8;
        assert(v & 0xF == v % 16 && v >> 4 == v / 16) by (bit_vector);
        let c: u8 = if digit < 10 {
            48 + digit
        } else {
            97 + (digit - 10)
        };
        let ghost before = buffer@;
        buffer.push(c);
        proof {
            assert(digits_le(v as nat) == seq![c] + digits_le((v / 16) as nat));
            assert(buffer@ + digits_le((v / 16) as nat) =~= before + digits_le(v as nat));
        }
        v = v >> 4;
    }
    assert(buffer@ =~= digits_le(value as nat));
    let n: usize = buffer.len();
    let mut index: usize = n;
    while index > 0
        invariant
            index <= n,
            n == buffer@.len(),
            out@.len() == 2 + (n - index),
            out@[0] == 48u8,
            out@[1] == 120u8,
            forall|j: int| 2 <= j < out@.len() ==> #[trigger] out@[j] == buffer@[n + 1 - j],
        decreases index,
    {
        index = index - 1;
        out.push(buffer[index]);
    }
    assert(out@ =~= seq![48u8, 120u8] + buffer@.reverse());
    out
}

/// The bytes echoed for a byte typed in the UART test loop: carriage return
/// becomes a full line break, anything else is echoed as is.
pub fn echo_of(ch: u8) -> (r: Vec<u8>)
    ensures
        r@ == if ch == 13 {
            seq![13u8, 10u8]
        } else {
            seq![ch]
        },
{
    let mut r: Vec<u8> = Vec::new();
    if ch == 13 {
        r.push(13);
        r.push(10);
    } else {
        r.push(ch);
    }
    assert(r@ =~= if ch == 13 {
        seq![13u8, 10u8]
    } else {
        seq![ch]
    });
    r
}


/// Law: bit 0 of the interrupt identification value set means no
/// interrupt is pending; otherwise identification 0b001 in bits 1-3 means
/// the transmitter is empty, and anything else is served as received data.
pub proof fn lemma_iir_meaning(iir: u8)
    ensures
        (iir_meaning(iir) == UartInterrupt::NonePending) <==> iir & 1 == 1,
        (iir_meaning(iir) == UartInterrupt::TransmitEmpty) <==> iir & 0x0f == 0x02,
{
    assert((iir & 1 == 1) == (iir % 2 == 1) && ((iir & 0x0f == 0x02) == (iir % 2 == 0 && (iir
        / 2) % 8 == 1))) by (bit_vector);
}

} // verus!
