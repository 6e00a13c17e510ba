//! Bus transactions: a sequence of writes and reads, where a write directly
//! followed by a read sets up the address that the read starts at.

use vstd::prelude::*;

use crate::addressing::{command_offset, ram_after_command, ram_read};
use crate::mock::{I2cMock, I2cMockError};

verus! {

/// One step of a bus transaction.
pub enum Operation {
    /// Read into the buffer, as many bytes as it holds.
    Read(Vec<u8>),
    /// Write the bytes.
    Write(Vec<u8>),
}

/// What an operation holds, as plain sequences.
pub enum OperationView {
    /// The read buffer's bytes.
    Read(Seq<u8>),
    /// The bytes to write.
    Write(Seq<u8>),
}

impl View for Operation {
    type V = OperationView;

    open spec fn view(&self) -> OperationView {
        match self {
            Operation::Read(b) => OperationView::Read(b@),
            Operation::Write(b) => OperationView::Write(b@),
        }
    }
}

/// The bytes of an operation, read buffer or written bytes.
pub open spec fn op_bytes(op: OperationView) -> Seq<u8> {
    match op {
        OperationView::Read(b) => b,
        OperationView::Write(b) => b,
    }
}

/// The operations of a transaction, each as its view.
pub open spec fn ops_view(ops: Seq<Operation>) -> Seq<OperationView> {
    Seq::new(ops.len(), |i: int| ops[i]@)
}

/// Whether a write starts at the front of `ops` and a read follows it.
pub open spec fn starts_with_write_read(ops: Seq<OperationView>) -> bool {
    ops.len() >= 2 && ops[0] is Write && ops[1] is Read
}

/// Whether every read in `ops` directly follows a write that it pairs with,
/// pairing each write with the read after it, from the front.
pub open spec fn reads_follow_writes(ops: Seq<OperationView>) -> bool
    decreases ops.len(),
{
    if ops.len() == 0 {
        true
    } else if starts_with_write_read(ops) {
        reads_follow_writes(ops.skip(2))
    } else if ops[0] is Write {
        reads_follow_writes(ops.skip(1))
    } else {
        false
    }
}

/// The outcome of running `ops` on `ram`: the RAM after, the operations
/// after (each read buffer filled), and whether all of them succeeded. A
/// write followed by a read reads from the offset of the write's first
/// byte; any other write is a write transaction. The first write without
/// bytes stops the run and fails it, with what ran before it kept.
pub open spec fn run(ram: Seq<u8>, ops: Seq<OperationView>) -> (Seq<u8>, Seq<OperationView>, bool)
    decreases ops.len(),
{
    if ops.len() == 0 {
        (ram, ops, true)
    } else if starts_with_write_read(ops) {
        let command = op_bytes(ops[0]);
        if command.len() == 0 {
            (ram, ops, false)
        } else {
            let filled = OperationView::Read(
                ram_read(ram, command_offset(command[0]), op_bytes(ops[1]).len()),
            );
            let (ram_end, rest, ok) = run(ram, ops.skip(2));
            (ram_end, seq![ops[0], filled] + rest, ok)
        }
    } else if ops[0] is Write {
        let bytes = op_bytes(ops[0]);
        if bytes.len() == 0 {
            (ram, ops, false)
        } else {
            let (ram_end, rest, ok) = run(ram_after_command(ram, bytes), ops.skip(1));
            (ram_end, seq![ops[0]] + rest, ok)
        }
    } else {
        // A read with no write before it: outside the protocol.
        (ram, ops, false)
    }
}

impl Operation {
    /// Whether this is a read.
    pub fn is_read(&self) -> (r: bool)
        ensures
            r == self@ is Read,
    {
        match self {
            Operation::Read(_) => true,
            Operation::Write(_) => false,
        }
    }

    /// The bytes this operation holds.
    pub fn bytes(&self) -> (r: &Vec<u8>)
        ensures
            r@ == op_bytes(self@),
    {
        match self {
            Operation::Read(b) => b,
            Operation::Write(b) => b,
        }
    }
}

/// A buffer of `len` zero bytes.
fn zeroed(len: usize) -> (r: Vec<u8>)
    ensures
        r@.len() == len,
{
    let mut r: Vec<u8> = Vec::new();
    let mut i: usize = 0;
    while i < len
        invariant
            i <= len,
            r@.len() == i,
        decreases len - i,
    {
        r.push(0);
        i = i + 1;
    }
    r
}

/// Whether the mock supports `operations`: every read directly follows a
/// write, pairing each write with the read after it.
pub fn is_supported_transaction(operations: &Vec<Operation>) -> (r: bool)
    ensures
        r == reads_follow_writes(ops_view(operations@)),
{
    let ghost all = ops_view(operations@);
    assert(all.skip(0) =~= all);
    let mut i: usize = 0;
    while i < operations.len()
        invariant
            i <= operations@.len(),
            all == ops_view(operations@),
            reads_follow_writes(all) == reads_follow_writes(all.skip(i as int)),
        decreases operations@.len() - i,
    {
        let ghost rest = all.skip(i as int);
        if operations[i].is_read() {
            return false;
        }
        if i + 1 < operations.len() && operations[i + 1].is_read() {
            assert(rest.skip(2) =~= all.skip(i + 2));
            i = i + 2;
        } else {
            assert(rest.skip(1) =~= all.skip(i + 1));
            i = i + 1;
        }
    }
    assert(all.skip(i as int).len() == 0);
    true
}

impl I2cMock {
    /// Run the operations of a bus transaction in order. A write directly
    /// followed by a read is one write-then-read: the write's first byte
    /// selects the row that the read starts at, and the read's buffer is
    /// filled from there. Any other write is a write transaction. Stops at
    /// the first write without bytes and fails, keeping what ran before it.
    /// A read that follows no write is outside the protocol. The slave
    /// address is ignored.
    pub fn transaction(&mut self, address: u8, operations: &mut Vec<Operation>) -> (r: Result<
        (),
        I2cMockError,
    >)
        requires
            reads_follow_writes(ops_view(old(operations)@)),
        ensures
            ({
                let (ram, ops, ok) = run(old(self).data_values@, ops_view(old(operations)@));
                &&& final(self).data_values@ == ram
                &&& ops_view(final(operations)@) == ops
                &&& (r is Ok <==> ok)
            }),
    {
        let ghost ram0 = self.data_values@;
        let ghost ops0 = ops_view(operations@);
        assert(ops0.skip(0) =~= ops0);
        assert(ops_view(operations@).take(0) + ops0 =~= ops0);
        let mut i: usize = 0;
        while i < operations.len()
            invariant
                i <= operations@.len(),
                ram0 == old(self).data_values@,
                ops0 == ops_view(old(operations)@),
                operations@.len() == ops0.len(),
                ops_view(operations@).skip(i as int) == ops0.skip(i as int),
                reads_follow_writes(ops0.skip(i as int)),
                run(ram0, ops0) == ({
                    let (ram, rest, ok) = run(self.data_values@, ops0.skip(i as int));
                    (ram, ops_view(operations@).take(i as int) + rest, ok)
                }),
            decreases operations@.len() - i,
        {
            let ghost cur = ops0.skip(i as int);
            let ghost ram_i = self.data_values@;
            let ghost ops_i = ops_view(operations@);
            assert(cur[0] == ops_i[i as int]);
            assert(ops_i =~= ops_i.take(i as int) + cur);
            if operations[i].is_read() {
                // Ruled out: every read follows a write that it pairs with.
                assert(!reads_follow_writes(cur));
                return Err(I2cMockError);
            }
            if i + 1 < operations.len() && operations[i + 1].is_read() {
                assert(cur[1] == ops_i[i + 1]);
                assert(starts_with_write_read(cur));
                let mut buf = zeroed(operations[i + 1].bytes().len());
                let r = self.write_read(address, operations[i].bytes().as_slice(), buf.as_mut_slice());
                if r.is_err() {
                    assert(op_bytes(cur[0]).len() == 0);
                    assert(run(ram_i, cur) == (ram_i, cur, false));
                    return r;
                }
                let ghost filled = OperationView::Read(buf@);
                operations.set(i + 1, Operation::Read(buf));
                proof {
                    let ops_n = ops_view(operations@);
                    assert(ops_n =~= ops_i.update(i + 1, filled));
                    assert(cur.skip(2) =~= ops0.skip(i + 2));
                    assert(ops_n.skip(i + 2) =~= ops_i.skip(i + 2));
                    assert(ops_i.skip(i + 2) =~= cur.skip(2));
                    let (ram_end, rest, ok) = run(ram_i, cur.skip(2));
                    assert(ops_n.take(i + 2) + rest =~= ops_i.take(i as int) + (seq![cur[0], filled] + rest));
                }
                i = i + 2;
            } else {
                assert(!starts_with_write_read(cur));
                let r = self.write(address, operations[i].bytes().as_slice());
                if r.is_err() {
                    assert(op_bytes(cur[0]).len() == 0);
                    assert(run(ram_i, cur) == (ram_i, cur, false));
                    return r;
                }
                proof {
                    assert(cur.skip(1) =~= ops0.skip(i + 1));
                    assert(ops_i.skip(i + 1) =~= cur.skip(1));
                    let (ram_end, rest, ok) = run(self.data_values@, cur.skip(1));
                    assert(ops_i.take(i + 1) + rest =~= ops_i.take(i as int) + (seq![cur[0]] + rest));
                }
                i = i + 1;
            }
        }
        proof {
            let ops_n = ops_view(operations@);
            assert(ops0.skip(i as int).len() == 0);
            assert(ops_n.take(i as int) + ops0.skip(i as int) =~= ops_n);
        }
        Ok(())
    }
}

} // verus!
