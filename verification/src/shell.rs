//! The interactive shell's handling of an input line.

use vstd::prelude::*;

verus! {

/// Size of the shell's line buffer.
pub const SHELL_INPUT_CAPACITY: usize = 128;

/// The length of the command in `line`: the bytes before the first
/// newline, or all of them when there is none.
pub open spec fn command_len_spec(line: Seq<u8>) -> int
    decreases line.len(),
{
    if line.len() == 0 {
        0
    } else if line[0] == 0x0a {
        0
    } else {
        1 + command_len_spec(line.drop_first())
    }
}

/// With no newline among the first `k` bytes, the command is at least `k`
/// long; it ends at a newline at `k`, or at the end of the line.
proof fn lemma_command_len(line: Seq<u8>, k: int)
    requires
        0 <= k <= line.len(),
        forall|j: int| 0 <= j < k ==> line[j] != 0x0a,
    ensures
        k <= command_len_spec(line) <= line.len(),
        k < line.len() && line[k] == 0x0a ==> command_len_spec(line) == k,
        k == line.len() ==> command_len_spec(line) == k,
    decreases k,
{
    if k > 0 {
        let d = line.drop_first();
        assert forall|j: int| 0 <= j < k - 1 implies d[j] != 0x0a by {
            assert(d[j] == line[j + 1]);
        }
        lemma_command_len(d, k - 1);
        if k < line.len() {
            assert(d[k - 1] == line[k]);
        }
    } else {
        lemma_command_len_bound(line);
    }
}

/// A command is never longer than its line.
proof fn lemma_command_len_bound(line: Seq<u8>)
    ensures
        0 <= command_len_spec(line) <= line.len(),
    decreases line.len(),
{
    if line.len() > 0 {
        lemma_command_len_bound(line.drop_first());
    }
}

/// The length of the command among the first `count` bytes of `line`.
pub fn command_len(line: &[u8], count: usize) -> (r: usize)
    requires
        count <= line@.len(),
    ensures
        r == command_len_spec(line@.take(count as int)),
{
    let ghost s = line@.take(count as int);
    let mut i: usize = 0;
    while i < count
        invariant
            i <= count,
            count <= line@.len(),
            s == line@.take(count as int),
            forall|j: int| 0 <= j < i ==> s[j] != 0x0a,
        decreases count - i,
    {
        if line[i] == 0x0a {
            proof {
                assert(s[i as int] == line@[i as int]);
                lemma_command_len(s, i as int);
            }
            return i;
        }
        assert(s[i as int] == line@[i as int]);
        i = i + 1;
    }
    proof {
        lemma_command_len(s, i as int);
    }
    i
}


/// Law: the command is the line up to its first newline: none of its
/// bytes is a newline, and it ends at a newline or at the end of the line.
pub proof fn lemma_command_is_first_line(line: Seq<u8>)
    ensures
        0 <= command_len_spec(line) <= line.len(),
        forall|j: int| 0 <= j < command_len_spec(line) ==> line[j] != 0x0a,
        command_len_spec(line) == line.len() || line[command_len_spec(line)] == 0x0a,
    decreases line.len(),
{
    lemma_command_len_bound(line);
    if line.len() > 0 && line[0] != 0x0a {
        let d = line.drop_first();
        lemma_command_is_first_line(d);
        assert forall|j: int| 0 <= j < command_len_spec(line) implies line[j] != 0x0a by {
            if j > 0 {
                assert(line[j] == d[j - 1]);
            }
        }
        if command_len_spec(d) < d.len() {
            assert(line[command_len_spec(line)] == d[command_len_spec(d)]);
        }
    }
}

} // verus!
