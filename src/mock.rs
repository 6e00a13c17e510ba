//! The mock display RAM and its two transfer operations.

use vstd::prelude::*;

use crate::addressing::{
    command_offset, ram_after_command, ram_after_write, ram_read, row_at,
    DISPLAY_DATA_ADDRESS_ROW_0, ROWS_SIZE,
};

verus! {

/// Mock error returned by the transport operations.
#[derive(Debug, PartialEq, Eq, Structural)]
pub struct I2cMockError;

/// The mock I2C state.
pub struct I2cMock {
    /// Display RAM state.
    pub data_values: [u8; ROWS_SIZE],
}

/// The row that a command byte starts at, reduced into the RAM.
fn start_row(command: u8) -> (r: usize)
    ensures
        r == row_at(command_offset(command), 0),
        r < ROWS_SIZE,
{
    ((command ^ DISPLAY_DATA_ADDRESS_ROW_0) as usize) % ROWS_SIZE
}

/// The row after `row`, wrapping from the last row back to the first.
fn next_row(row: usize, Ghost(start): Ghost<int>, Ghost(i): Ghost<int>) -> (r: usize)
    requires
        row == row_at(start, i),
        start >= 0,
        i >= 0,
    ensures
        r == row_at(start, i + 1),
        r < ROWS_SIZE,
{
    (row + 1) % ROWS_SIZE
}

impl I2cMock {
    /// Create an I2cMock with all of its display RAM cleared.
    pub fn new() -> (r: Self)
        ensures
            r.data_values@ == Seq::new(ROWS_SIZE as nat, |i: int| 0u8),
    {
        let r = I2cMock { data_values: [0u8; ROWS_SIZE] };
        assert(r.data_values@ =~= Seq::new(ROWS_SIZE as nat, |i: int| 0u8));
        r
    }

    /// Read `buffer.len()` bytes of display RAM, starting at the row that
    /// the first byte of `bytes` selects and wrapping after the last row.
    /// The slave address is ignored. Fails, touching nothing, when `bytes`
    /// is empty.
    pub fn write_read(&mut self, _address: u8, bytes: &[u8], buffer: &mut [u8]) -> (r: Result<
        (),
        I2cMockError,
    >)
        ensures
            final(self).data_values@ == old(self).data_values@,
            r is Ok <==> bytes@.len() > 0,
            bytes@.len() > 0 ==> final(buffer)@ == ram_read(
                old(self).data_values@,
                command_offset(bytes@[0]),
                old(buffer)@.len(),
            ),
            bytes@.len() == 0 ==> final(buffer)@ == old(buffer)@,
    {
        if bytes.len() == 0 {
            return Err(I2cMockError);
        }
        let ghost start = command_offset(bytes@[0]);
        let mut data_offset = start_row(bytes[0]);
        let mut i: usize = 0;
        while i < buffer.len()
            invariant
                0 <= i <= buffer@.len(),
                buffer@.len() == old(buffer)@.len(),
                start >= 0,
                data_offset == row_at(start, i as int),
                self.data_values@ == old(self).data_values@,
                forall|j: int| 0 <= j < i ==> buffer@[j] == self.data_values@[row_at(start, j)],
            decreases buffer@.len() - i,
        {
            buffer[i] = self.data_values[data_offset];
            data_offset = next_row(data_offset, Ghost(start), Ghost(i as int));
            i = i + 1;
        }
        assert(buffer@ =~= ram_read(self.data_values@, start, buffer@.len()));
        Ok(())
    }

    /// Write the payload of `bytes` (all but its first byte) into display
    /// RAM, starting at the row that the first byte selects and wrapping
    /// after the last row. A command byte alone changes nothing. The slave
    /// address is ignored. Fails, touching nothing, when `bytes` is empty.
    pub fn write(&mut self, _address: u8, bytes: &[u8]) -> (r: Result<(), I2cMockError>)
        ensures
            r is Ok <==> bytes@.len() > 0,
            bytes@.len() <= 1 ==> final(self).data_values@ == old(self).data_values@,
            final(self).data_values@ == ram_after_command(old(self).data_values@, bytes@),
    {
        if bytes.len() == 0 {
            return Err(I2cMockError);
        }
        // A command alone carries no display data.
        if bytes.len() == 1 {
            return Ok(());
        }
        let ghost start = command_offset(bytes@[0]);
        let ghost payload = bytes@.drop_first();
        let mut data_offset = start_row(bytes[0]);
        let mut i: usize = 1;
        while i < bytes.len()
            invariant
                1 <= i <= bytes@.len(),
                start == command_offset(bytes@[0]),
                start >= 0,
                payload == bytes@.drop_first(),
                data_offset == row_at(start, i - 1),
                self.data_values@ == ram_after_write(
                    old(self).data_values@,
                    start,
                    payload.take(i - 1),
                ),
            decreases bytes@.len() - i,
        {
            self.data_values[data_offset] = bytes[i];
            assert(payload.take(i as int).drop_last() =~= payload.take(i - 1));
            data_offset = next_row(data_offset, Ghost(start), Ghost(i - 1));
            i = i + 1;
        }
        assert(payload.take(i - 1) =~= payload);
        Ok(())
    }
}

} // verus!
