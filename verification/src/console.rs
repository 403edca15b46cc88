//! The console line discipline: a bounded ring buffer of input in which a
//! line becomes readable once Enter is typed, with echo, backspace and
//! line-kill editing.

use vstd::prelude::*;

verus! {

/// Capacity of the input ring buffer.
pub const INPUT_CAPACITY: usize = 128;

/// Backspace.
pub const BACKSPACE: u8 = 0x08;

/// Delete, treated as backspace.
pub const DELETE: u8 = 0x7f;

/// Ctrl-U: erase the whole line being edited.
pub const CTRL_U: u8 = 0x15;

/// Newline.
pub const NEWLINE: u8 = 0x0a;

/// Carriage return, typed by Enter; read as newline.
pub const CARRIAGE_RETURN: u8 = 0x0d;

/// Tab.
pub const TAB: u8 = 0x09;

/// Space.
pub const SPACE: u8 = 0x20;

/// Position `x` (below twice the capacity) folded back into the ring.
pub open spec fn wrap(x: int) -> int {
    if x >= INPUT_CAPACITY {
        x - INPUT_CAPACITY
    } else {
        x
    }
}

/// How far position `b` lies after position `a` around the ring.
pub open spec fn dist(a: int, b: int) -> int {
    if b >= a {
        b - a
    } else {
        b - a + INPUT_CAPACITY
    }
}

/// The `n` bytes of the ring `buf` starting at position `from`.
pub open spec fn ring(buf: Seq<u8>, from: int, n: int) -> Seq<u8> {
    Seq::new(n as nat, |i: int| buf[wrap(from + i)])
}

/// Bytes that are stored in the line being edited: tab and the printable
/// ASCII range.
pub open spec fn is_text(ch: u8) -> bool {
    ch == TAB || (SPACE <= ch <= 0x7e)
}

/// The echo that erases one character on the terminal.
pub open spec fn erase_echo() -> Seq<u8> {
    seq![BACKSPACE, SPACE, BACKSPACE]
}

/// The echo that erases `n` characters.
pub open spec fn erase_echoes(n: nat) -> Seq<u8>
    decreases n,
{
    if n == 0 {
        Seq::empty()
    } else {
        erase_echoes((n - 1) as nat) + erase_echo()
    }
}

/// The console's input state: the committed input not yet read, and the
/// line being edited.
pub struct ConsoleView {
    pub committed: Seq<u8>,
    pub editing: Seq<u8>,
}

/// What typing `ch` does: the new state and the bytes echoed back.
pub open spec fn input_effect(v: ConsoleView, ch: u8) -> (ConsoleView, Seq<u8>) {
    let c = if ch == CARRIAGE_RETURN {
        NEWLINE
    } else {
        ch
    };
    if c == BACKSPACE || c == DELETE {
        if v.editing.len() == 0 {
            (v, Seq::empty())
        } else {
            (ConsoleView { committed: v.committed, editing: v.editing.drop_last() }, erase_echo())
        }
    } else if c == CTRL_U {
        (ConsoleView { committed: v.committed, editing: Seq::empty() }, erase_echoes(v.editing.len()))
    } else if c == NEWLINE {
        if v.committed.len() + v.editing.len() + 1 < INPUT_CAPACITY {
            (
                ConsoleView { committed: v.committed + v.editing.push(NEWLINE), editing: Seq::empty() },
                seq![CARRIAGE_RETURN, NEWLINE],
            )
        } else {
            // No room is left for the newline: the line is published
            // without it, so that it can still be read.
            (
                ConsoleView { committed: v.committed + v.editing, editing: Seq::empty() },
                seq![CARRIAGE_RETURN, NEWLINE],
            )
        }
    } else if is_text(c) {
        if v.committed.len() + v.editing.len() + 1 < INPUT_CAPACITY {
            (ConsoleView { committed: v.committed, editing: v.editing.push(c) }, seq![c])
        } else {
            // Full: the partial line is published instead of growing.
            (ConsoleView { committed: v.committed + v.editing, editing: Seq::empty() }, Seq::empty())
        }
    } else {
        (v, Seq::empty())
    }
}

/// The length of the first line of `c`, its newline included, or all of
/// `c` when it holds no newline.
pub open spec fn line_len(c: Seq<u8>) -> int
    decreases c.len(),
{
    if c.len() == 0 {
        0
    } else if c[0] == NEWLINE {
        1
    } else {
        1 + line_len(c.drop_first())
    }
}

/// How many bytes a read with room for `n` takes from the committed input
/// `c`: up to the end of the first line, at most `n`.
pub open spec fn read_count(c: Seq<u8>, n: int) -> int {
    if n < line_len(c) {
        n
    } else {
        line_len(c)
    }
}

/// Line-buffered console input.
pub struct Console {
    buf: Vec<u8>,
    r: usize,
    w: usize,
    e: usize,
}

impl Console {
    /// The committed input and the line being edited.
    pub closed spec fn view(&self) -> ConsoleView {
        ConsoleView {
            committed: ring(self.buf@, self.r as int, dist(self.r as int, self.w as int)),
            editing: ring(self.buf@, self.w as int, dist(self.w as int, self.e as int)),
        }
    }

    /// The ring indices are in range and the write position lies between
    /// the read and edit positions.
    pub closed spec fn wf(&self) -> bool {
        &&& self.buf@.len() == INPUT_CAPACITY
        &&& self.r < INPUT_CAPACITY
        &&& self.w < INPUT_CAPACITY
        &&& self.e < INPUT_CAPACITY
        &&& dist(self.r as int, self.w as int) + dist(self.w as int, self.e as int) < INPUT_CAPACITY
    }

    /// An empty console.
    pub fn new() -> (r: Self)
        ensures
            r.wf(),
            r.view().committed.len() == 0,
            r.view().editing.len() == 0,
    {
        let buf: Vec<u8> = vec![0u8; INPUT_CAPACITY];
        Console { buf, r: 0, w: 0, e: 0 }
    }

    /// The ring position after `index`.
    pub fn next(index: usize) -> (r: usize)
        requires
            index < INPUT_CAPACITY,
        ensures
            r == wrap(index + 1),
    {
        (index + 1) % INPUT_CAPACITY
    }
}


/// Writing `x` just after the committed bytes and the edit line extends
/// the ring seen from `r` by those bytes and then `x`.
proof fn lemma_ring_extend(buf: Seq<u8>, buf2: Seq<u8>, r: int, a: int, b: int, x: u8)
    requires
        buf.len() == INPUT_CAPACITY,
        0 <= r < INPUT_CAPACITY,
        0 <= a,
        0 <= b,
        a + b + 1 < INPUT_CAPACITY,
        buf2 == buf.update(wrap(r + a + b), x),
    ensures
        ring(buf2, r, a + b + 1) == ring(buf, r, a) + ring(buf, wrap(r + a), b).push(x),
{
    let lhs = ring(buf2, r, a + b + 1);
    let rhs = ring(buf, r, a) + ring(buf, wrap(r + a), b).push(x);
    assert forall|i: int| 0 <= i < a + b + 1 implies lhs[i] == rhs[i] by {
        if a <= i < a + b {
            assert(wrap(wrap(r + a) + (i - a)) == wrap(r + i));
        }
    }
    assert(lhs =~= rhs);
}

/// Appends the echo that erases one character.
fn push_erase(echo: &mut Vec<u8>)
    ensures
        final(echo)@ == old(echo)@ + erase_echo(),
{
    echo.push(BACKSPACE);
    echo.push(SPACE);
    echo.push(BACKSPACE);
    assert(echo@ =~= old(echo)@ + erase_echo());
}

impl Console {
    /// Erases the last character of the line being edited, if any, and
    /// returns the echo that erases it on the terminal.
    pub fn erase_last(&mut self) -> (echo: Vec<u8>)
        requires
            old(self).wf(),
        ensures
            final(self).wf(),
            final(self).view().committed == old(self).view().committed,
            old(self).view().editing.len() == 0 ==> {
                &&& final(self).view().editing == old(self).view().editing
                &&& echo@ == Seq::<u8>::empty()
            },
            old(self).view().editing.len() > 0 ==> {
                &&& final(self).view().editing == old(self).view().editing.drop_last()
                &&& echo@ == erase_echo()
            },
    {
        let mut echo: Vec<u8> = Vec::new();
        if self.e != self.w {
            let ghost old_view = self.view();
            self.e = (self.e + INPUT_CAPACITY - 1) % INPUT_CAPACITY;
            push_erase(&mut echo);
            assert(self.view().committed =~= old_view.committed);
            assert(self.view().editing =~= old_view.editing.drop_last());
        } else {
            assert(self.view().editing =~= Seq::<u8>::empty());
        }
        echo
    }
}


impl Console {
    /// Erases the whole line being edited.
    fn kill_line(&mut self) -> (echo: Vec<u8>)
        requires
            old(self).wf(),
        ensures
            final(self).wf(),
            final(self).view().committed == old(self).view().committed,
            final(self).view().editing == Seq::<u8>::empty(),
            echo@ == erase_echoes(old(self).view().editing.len()),
    {
        let ghost v0 = self.view();
        let mut echo: Vec<u8> = Vec::new();
        while self.e != self.w
            invariant
                self.wf(),
                self.view().committed == v0.committed,
                self.view().editing.len() <= v0.editing.len(),
                self.view().editing == v0.editing.take(self.view().editing.len() as int),
                echo@ == erase_echoes((v0.editing.len() - self.view().editing.len()) as nat),
            decreases self.view().editing.len(),
        {
            let ghost before = self.view();
            let part = self.erase_last();
            let ghost k = (v0.editing.len() - before.editing.len()) as nat;
            assert(erase_echoes(k + 1) == erase_echoes(k) + erase_echo());
            let mut part = part;
            echo.append(&mut part);
            assert(self.view().editing =~= v0.editing.take(self.view().editing.len() as int));
        }
        assert(self.view().editing =~= Seq::<u8>::empty());
        echo
    }

    /// Commits the line being edited, followed by a newline when the ring
    /// has room for one.
    fn commit_line(&mut self) -> (echo: Vec<u8>)
        requires
            old(self).wf(),
        ensures
            final(self).wf(),
            echo@ == seq![CARRIAGE_RETURN, NEWLINE],
            final(self).view().editing == Seq::<u8>::empty(),
            old(self).view().committed.len() + old(self).view().editing.len() + 1 < INPUT_CAPACITY
                ==> final(self).view().committed == old(self).view().committed + old(
                self,
            ).view().editing.push(NEWLINE),
            old(self).view().committed.len() + old(self).view().editing.len() + 1
                >= INPUT_CAPACITY ==> final(self).view().committed == old(self).view().committed
                + old(self).view().editing,
    {
        let ghost v0 = self.view();
        let ghost buf0 = self.buf@;
        let ghost r = self.r as int;
        let ghost a = dist(self.r as int, self.w as int);
        let ghost b = dist(self.w as int, self.e as int);
        let next: usize = Console::next(self.e);
        if next == self.r {
            self.w = self.e;
            proof {
                let expect = v0.committed + v0.editing;
                assert forall|i: int| 0 <= i < expect.len() implies self.view().committed[i]
                    == expect[i] by {
                    if i < v0.committed.len() {
                        assert(expect[i] == v0.committed[i]);
                    } else {
                        assert(expect[i] == v0.editing[i - v0.committed.len()]);
                    }
                }
                assert(self.view().committed =~= expect);
            }
        } else {
            self.buf.set(self.e, NEWLINE);
            self.e = next;
            self.w = self.e;
            proof {
                assert(dist(r, self.w as int) == a + b + 1);
                lemma_ring_extend(buf0, self.buf@, r, a, b, NEWLINE);
            }
        }
        let mut echo: Vec<u8> = Vec::new();
        echo.push(CARRIAGE_RETURN);
        echo.push(NEWLINE);
        proof {
            assert(echo@ =~= seq![CARRIAGE_RETURN, NEWLINE]);
            assert(self.view().editing =~= Seq::<u8>::empty());
        }
        echo
    }

    /// Adds a text character to the line being edited, or publishes the
    /// line when the ring is full.
    fn add_text(&mut self, c: u8) -> (echo: Vec<u8>)
        requires
            old(self).wf(),
            is_text(c),
        ensures
            final(self).wf(),
            (final(self).view(), echo@) == input_effect(old(self).view(), c),
    {
        let ghost v0 = self.view();
        let next: usize = Console::next(self.e);
        let mut echo: Vec<u8> = Vec::new();
        if next == self.r {
            self.w = self.e;
            proof {
                let expect = v0.committed + v0.editing;
                assert forall|i: int| 0 <= i < expect.len() implies self.view().committed[i]
                    == expect[i] by {
                    if i < v0.committed.len() {
                        assert(expect[i] == v0.committed[i]);
                    } else {
                        assert(expect[i] == v0.editing[i - v0.committed.len()]);
                    }
                }
                assert(self.view().committed =~= expect);
                assert(self.view().editing =~= Seq::<u8>::empty());
                assert(echo@ =~= Seq::<u8>::empty());
            }
        } else {
            self.buf.set(self.e, c);
            self.e = next;
            echo.push(c);
            proof {
                assert(echo@ =~= seq![c]);
                assert(self.view().committed =~= v0.committed);
                assert(self.view().editing =~= v0.editing.push(c));
            }
        }
        assert(self.view() =~= input_effect(v0, c).0);
        echo
    }

    /// Handles one byte received from the terminal: line editing and
    /// echo. Carriage return is taken as newline; backspace and delete
    /// erase the last character of the line being edited; Ctrl-U erases the
    /// whole line; newline commits the line (newline included); tab and
    /// printable characters extend the line; anything else is ignored.
    /// Returns the bytes to echo to the terminal.
    pub fn input(&mut self, ch: u8) -> (echo: Vec<u8>)
        requires
            old(self).wf(),
        ensures
            final(self).wf(),
            (final(self).view(), echo@) == input_effect(old(self).view(), ch),
            (ch == 0x09 || (0x20 <= ch && ch <= 0x7e)) && old(self).view().committed.len() + old(
                self,
            ).view().editing.len() + 1 < INPUT_CAPACITY ==> {
                &&& final(self).view().editing == old(self).view().editing.push(ch)
                &&& final(self).view().committed == old(self).view().committed
                &&& echo@ == seq![ch]
            },
    {
        let ghost v0 = self.view();
        let c: u8 = if ch == CARRIAGE_RETURN {
            NEWLINE
        } else {
            ch
        };
        if c == BACKSPACE || c == DELETE {
            let echo = self.erase_last();
            assert(self.view() =~= input_effect(v0, ch).0);
            echo
        } else if c == CTRL_U {
            let echo = self.kill_line();
            assert(self.view() =~= input_effect(v0, ch).0);
            echo
        } else if c == NEWLINE {
            let echo = self.commit_line();
            assert(self.view() =~= input_effect(v0, ch).0);
            echo
        } else if c == TAB || (SPACE <= c && c <= 0x7e) {
            self.add_text(c)
        } else {
            Vec::new()
        }
    }
}


/// With no newline among the first `k` bytes of `c`, the first line is at
/// least `k` long; it ends right after a newline at `k`, and at the end of
/// `c` when `k` reaches it.
proof fn lemma_line_len(c: Seq<u8>, k: int)
    requires
        0 <= k <= c.len(),
        forall|j: int| 0 <= j < k ==> c[j] != NEWLINE,
    ensures
        k <= line_len(c) <= c.len(),
        k < c.len() && c[k] == NEWLINE ==> line_len(c) == k + 1,
        k == c.len() ==> line_len(c) == c.len(),
    decreases k,
{
    if k > 0 {
        let d = c.drop_first();
        assert forall|j: int| 0 <= j < k - 1 implies d[j] != NEWLINE by {
            assert(d[j] == c[j + 1]);
        }
        lemma_line_len(d, k - 1);
        if k < c.len() {
            assert(d[k - 1] == c[k]);
        }
    } else {
        lemma_line_len_bound(c);
    }
}

/// A first line is never longer than the input.
proof fn lemma_line_len_bound(c: Seq<u8>)
    ensures
        0 <= line_len(c) <= c.len(),
        c.len() > 0 ==> line_len(c) >= 1,
    decreases c.len(),
{
    if c.len() > 0 {
        lemma_line_len_bound(c.drop_first());
    }
}

impl Console {
    /// Copies committed input into `dst` without blocking: up to and
    /// including the first newline, at most `dst.len()` bytes. Returns the
    /// number of bytes copied.
    pub fn read(&mut self, dst: &mut [u8]) -> (count: usize)
        requires
            old(self).wf(),
        ensures
            final(self).wf(),
            count == read_count(old(self).view().committed, old(dst)@.len() as int),
            final(self).view().committed == old(self).view().committed.skip(count as int),
            final(self).view().editing == old(self).view().editing,
            final(dst)@.len() == old(dst)@.len(),
            final(dst)@.take(count as int) == old(self).view().committed.take(count as int),
            final(dst)@.skip(count as int) == old(dst)@.skip(count as int),
    {
        let ghost c0 = self.view().committed;
        let ghost ed0 = self.view().editing;
        let ghost d0 = dst@;
        let mut count: usize = 0;
        proof {
            lemma_line_len_bound(c0);
        }
        loop
            invariant_except_break
                self.wf(),
                count <= dst@.len(),
                dst@.len() == d0.len(),
                count <= c0.len(),
                self.view().committed == c0.skip(count as int),
                self.view().editing == ed0,
                forall|j: int| 0 <= j < count ==> c0[j] != NEWLINE,
                forall|j: int| 0 <= j < count ==> dst@[j] == c0[j],
                forall|j: int| count <= j < d0.len() ==> dst@[j] == d0[j],
            ensures
                self.wf(),
                count <= dst@.len(),
                dst@.len() == d0.len(),
                count == read_count(c0, d0.len() as int),
                self.view().committed == c0.skip(count as int),
                self.view().editing == ed0,
                forall|j: int| 0 <= j < count ==> dst@[j] == c0[j],
                forall|j: int| count <= j < d0.len() ==> dst@[j] == d0[j],
            decreases c0.len() - count,
        {
            if count >= dst.len() || self.r == self.w {
                proof {
                    if self.r == self.w {
                        assert(self.view().committed.len() == 0);
                        assert(count == c0.len());
                    }
                    lemma_line_len(c0, count as int);
                }
                break;
            }
            let ghost v = self.view();
            let ch: u8 = self.buf[self.r];
            proof {
                assert(v.committed.len() > 0);
                assert(v.committed[0] == ch);
                assert(c0.skip(count as int)[0] == c0[count as int]);
            }
            self.r = Console::next(self.r);
            dst[count] = ch;
            count = count + 1;
            proof {
                let nc = self.view().committed;
                assert(nc.len() == v.committed.len() - 1);
                assert forall|i: int| 0 <= i < nc.len() implies nc[i] == v.committed[i + 1] by {}
                assert(nc =~= v.committed.drop_first());
                assert(c0.skip(count - 1).drop_first() =~= c0.skip(count as int));
                assert(self.view().editing =~= ed0);
            }
            if ch == NEWLINE {
                proof {
                    lemma_line_len(c0, count - 1);
                }
                break;
            }
        }
        assert(dst@.take(count as int) =~= c0.take(count as int));
        assert(dst@.skip(count as int) =~= d0.skip(count as int));
        count
    }
}


/// Every byte of the edit line is a text byte.
pub open spec fn all_text(s: Seq<u8>) -> bool {
    forall|i: int| 0 <= i < s.len() ==> is_text(#[trigger] s[i])
}

impl Console {
    /// Law: committed input and the edit line together never fill the
    /// ring.
    pub proof fn lemma_capacity(&self)
        requires
            self.wf(),
        ensures
            self.view().committed.len() + self.view().editing.len() < INPUT_CAPACITY,
    {
    }
}

/// Law: typing only ever puts text bytes into the edit line; in
/// particular it never holds a newline.
pub proof fn lemma_input_keeps_text(v: ConsoleView, ch: u8)
    requires
        all_text(v.editing),
    ensures
        all_text(input_effect(v, ch).0.editing),
{
    let e2 = input_effect(v, ch).0.editing;
    if e2.len() > 0 && e2 != v.editing {
        assert forall|i: int| 0 <= i < e2.len() implies is_text(#[trigger] e2[i]) by {
            if i < v.editing.len() {
                assert(e2[i] == v.editing[i]);
            }
        }
    }
}

/// Law: Enter makes the line being edited readable. The committed input
/// keeps what it held and gains the edited text, followed by a newline
/// when the ring has room for one; the edit line is left empty.
pub proof fn lemma_enter_commits_line(v: ConsoleView)
    ensures
        input_effect(v, CARRIAGE_RETURN).0.committed == v.committed + (if v.committed.len()
            + v.editing.len() + 1 < INPUT_CAPACITY {
            v.editing.push(NEWLINE)
        } else {
            v.editing
        }),
        input_effect(v, CARRIAGE_RETURN).0.editing == Seq::<u8>::empty(),
{
    if v.committed.len() + v.editing.len() + 1 < INPUT_CAPACITY {
        assert(v.committed + v.editing.push(NEWLINE) =~= v.committed + v.editing.push(NEWLINE));
    }
}

/// Law: no input byte ever removes committed input: what was committed
/// before stays, in order, at the front of what is committed after.
pub proof fn lemma_input_keeps_committed(v: ConsoleView, ch: u8)
    ensures
        input_effect(v, ch).0.committed.len() >= v.committed.len(),
        input_effect(v, ch).0.committed.take(v.committed.len() as int) == v.committed,
{
    let c2 = input_effect(v, ch).0.committed;
    assert(c2.take(v.committed.len() as int) =~= v.committed);
}

/// Law: after Enter on an otherwise empty console, a read with room for
/// the line returns exactly the edited text, followed by a newline when
/// the ring had room for one, and leaves nothing committed.
pub proof fn lemma_enter_then_read(v: ConsoleView, n: int)
    requires
        v.committed.len() == 0,
        all_text(v.editing),
        v.editing.len() < INPUT_CAPACITY,
        n >= v.editing.len() + 1,
    ensures
        ({
            let c = input_effect(v, CARRIAGE_RETURN).0.committed;
            let k = read_count(c, n);
            &&& k == c.len()
            &&& c.take(k) == (if v.editing.len() + 1 < INPUT_CAPACITY {
                v.editing.push(NEWLINE)
            } else {
                v.editing
            })
            &&& c.skip(k) == Seq::<u8>::empty()
        }),
{
    let c = input_effect(v, CARRIAGE_RETURN).0.committed;
    if v.editing.len() + 1 < INPUT_CAPACITY {
        assert(c =~= v.editing.push(NEWLINE));
    } else {
        assert(c =~= v.editing);
    }
    assert forall|j: int| 0 <= j < v.editing.len() implies c[j] != NEWLINE by {
        assert(c[j] == v.editing[j]);
        assert(is_text(v.editing[j]));
    }
    lemma_line_len(c, v.editing.len() as int);
    assert(c.take(c.len() as int) =~= c);
    assert(c.skip(c.len() as int) =~= Seq::<u8>::empty());
}

/// Law: typing a tab or a printable character (space to `~`) while the
/// ring has room appends exactly that character to the line being edited,
/// echoes exactly it, and leaves committed input alone.
pub proof fn lemma_text_byte_appends(v: ConsoleView, c: u8)
    requires
        c == 0x09 || (0x20 <= c && c <= 0x7e),
        v.committed.len() + v.editing.len() + 1 < INPUT_CAPACITY,
    ensures
        input_effect(v, c).0.editing == v.editing.push(c),
        input_effect(v, c).0.committed == v.committed,
        input_effect(v, c).1 == seq![c],
{
}

/// Law: a byte that is neither text, Enter, backspace, delete nor Ctrl-U
/// changes nothing and echoes nothing.
pub proof fn lemma_other_bytes_ignored(v: ConsoleView, c: u8)
    requires
        !(c == 0x09 || (0x20 <= c && c <= 0x7e)),
        c != 0x0a && c != 0x0d && c != 0x08 && c != 0x7f && c != 0x15,
    ensures
        input_effect(v, c).0 == v,
        input_effect(v, c).1 == Seq::<u8>::empty(),
{
}

/// Law: a character erased with backspace before Enter is never
/// committed: the committed line is the edit line without its last
/// character.
pub proof fn lemma_erase_then_enter(v: ConsoleView, erase: u8)
    requires
        erase == BACKSPACE || erase == DELETE,
        v.editing.len() > 0,
        v.committed.len() + v.editing.len() < INPUT_CAPACITY,
    ensures
        input_effect(input_effect(v, erase).0, CARRIAGE_RETURN).0.committed == v.committed
            + v.editing.drop_last().push(NEWLINE),
{
}

/// Law: Ctrl-U discards the whole edit line and leaves committed input
/// untouched.
pub proof fn lemma_kill_discards_line(v: ConsoleView)
    ensures
        input_effect(v, CTRL_U).0.committed == v.committed,
        input_effect(v, CTRL_U).0.editing == Seq::<u8>::empty(),
{
}


/// Law: backspace and delete erase the last character of the line being
/// edited and echo backspace, space, backspace; with nothing to erase they
/// do nothing and echo nothing.
pub proof fn lemma_backspace_erases(v: ConsoleView, ch: u8)
    requires
        ch == 0x08 || ch == 0x7f,
    ensures
        v.editing.len() > 0 ==> input_effect(v, ch).0.editing == v.editing.drop_last()
            && input_effect(v, ch).1 == seq![0x08u8, 0x20u8, 0x08u8],
        v.editing.len() == 0 ==> input_effect(v, ch).0 == v && input_effect(v, ch).1 == Seq::<
            u8,
        >::empty(),
        input_effect(v, ch).0.committed == v.committed,
{
}

/// Law: Enter, typed as carriage return or newline, echoes carriage return
/// and newline.
pub proof fn lemma_enter_echo(v: ConsoleView, ch: u8)
    requires
        ch == 0x0d || ch == 0x0a,
    ensures
        input_effect(v, ch).1 == seq![0x0du8, 0x0au8],
        input_effect(v, ch).0.editing == Seq::<u8>::empty(),
{
}

/// Law: Ctrl-U echoes backspace, space, backspace once per erased
/// character.
pub proof fn lemma_kill_echo(v: ConsoleView)
    ensures
        input_effect(v, 0x15).1 == Seq::new(
            3 * v.editing.len(),
            |j: int|
                if j % 3 == 1 {
                    0x20u8
                } else {
                    0x08u8
                },
        ),
{
    lemma_erase_echoes(v.editing.len());
}

/// The echo that erases `n` characters is `n` copies of the one that
/// erases one.
proof fn lemma_erase_echoes(n: nat)
    ensures
        erase_echoes(n) == Seq::new(
            3 * n,
            |j: int|
                if j % 3 == 1 {
                    0x20u8
                } else {
                    0x08u8
                },
        ),
    decreases n,
{
    if n > 0 {
        lemma_erase_echoes((n - 1) as nat);
        assert(erase_echoes(n) =~= Seq::new(
            3 * n,
            |j: int|
                if j % 3 == 1 {
                    0x20u8
                } else {
                    0x08u8
                },
        ));
    }
}

} // verus!
