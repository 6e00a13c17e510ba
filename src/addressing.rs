//! The addressing model of the display RAM: how a command byte selects a
//! starting row, and what a write or a read does from there, with
//! auto-increment and wrap-around.

use vstd::prelude::*;

verus! {

/// Number of addressable display RAM rows.
pub const ROWS_SIZE: usize = 16;

/// The display-data command that selects row 0. A command for row `n` is
/// this value with `n` or-ed into its low bits.
pub const DISPLAY_DATA_ADDRESS_ROW_0: u8 = 0b0000_0000;

/// The starting offset carried by a command byte: the command with the
/// base display-data bits cleared.
pub open spec fn command_offset(command: u8) -> int {
    (command ^ DISPLAY_DATA_ADDRESS_ROW_0) as int
}

/// The RAM row reached `i` steps after starting at `start`.
pub open spec fn row_at(start: int, i: int) -> int {
    (start + i) % (ROWS_SIZE as int)
}

/// The RAM after writing `payload` byte by byte from `start`, advancing one
/// row per byte and wrapping after the last row.
pub open spec fn ram_after_write(ram: Seq<u8>, start: int, payload: Seq<u8>) -> Seq<u8>
    decreases payload.len(),
{
    if payload.len() == 0 {
        ram
    } else {
        ram_after_write(ram, start, payload.drop_last()).update(
            row_at(start, payload.len() - 1),
            payload.last(),
        )
    }
}

/// The RAM after a write transaction `bytes`: its first byte is the
/// command, the rest is the payload. A command alone leaves the RAM as is.
pub open spec fn ram_after_command(ram: Seq<u8>, bytes: Seq<u8>) -> Seq<u8> {
    if bytes.len() <= 1 {
        ram
    } else {
        ram_after_write(ram, command_offset(bytes[0]), bytes.drop_first())
    }
}

/// The `len` bytes read from `start`, advancing one row per byte and
/// wrapping after the last row.
pub open spec fn ram_read(ram: Seq<u8>, start: int, len: nat) -> Seq<u8> {
    Seq::new(len, |i: int| ram[row_at(start, i)])
}

/// Whether some of the first `len` bytes written from `start` land on `row`.
pub open spec fn row_touched(start: int, len: nat, row: int) -> bool {
    exists|i: int| 0 <= i < len && #[trigger] row_at(start, i) == row
}

/// What a write leaves in each row: the last byte written to a row holds
/// it, and every row that no byte reaches keeps its value.
pub proof fn lemma_ram_after_write_rows(ram: Seq<u8>, start: int, payload: Seq<u8>)
    requires
        ram.len() == ROWS_SIZE,
        start >= 0,
    ensures
        ram_after_write(ram, start, payload).len() == ROWS_SIZE,
        forall|i: int|
            0 <= i < payload.len() && payload.len() <= i + ROWS_SIZE ==> #[trigger] ram_after_write(
                ram,
                start,
                payload,
            )[row_at(start, i)] == payload[i],
        forall|row: int|
            0 <= row < ROWS_SIZE && !row_touched(start, payload.len(), row) ==> #[trigger] ram_after_write(
                ram,
                start,
                payload,
            )[row] == ram[row],
    decreases payload.len(),
{
    if payload.len() > 0 {
        let k = payload.len() - 1;
        let prefix = payload.drop_last();
        lemma_ram_after_write_rows(ram, start, prefix);
        assert forall|i: int|
            0 <= i < payload.len() && payload.len() <= i + ROWS_SIZE implies #[trigger] ram_after_write(
                ram,
                start,
                payload,
            )[row_at(start, i)] == payload[i] by {
            if i < k {
                assert(row_at(start, i) != row_at(start, k));
                assert(prefix[i] == payload[i]);
            }
        }
        assert forall|row: int|
            0 <= row < ROWS_SIZE && !row_touched(start, payload.len(), row) implies #[trigger] ram_after_write(
                ram,
                start,
                payload,
            )[row] == ram[row] by {
            assert(row != row_at(start, k));
            if row_touched(start, prefix.len(), row) {
                let i = choose|i: int| 0 <= i < prefix.len() && #[trigger] row_at(start, i) == row;
                assert(row_touched(start, payload.len(), row));
            }
        }
    }
}

/// A write transaction of a command and at most one RAM's worth of payload
/// puts payload byte `i` in the row `i` steps after the start, and leaves
/// every other row as it was.
pub proof fn lemma_write_locality(ram: Seq<u8>, command: u8, payload: Seq<u8>)
    requires
        ram.len() == ROWS_SIZE,
        payload.len() <= ROWS_SIZE,
    ensures
        ({
            let after = ram_after_command(ram, seq![command] + payload);
            &&& after.len() == ROWS_SIZE
            &&& forall|i: int|
                0 <= i < payload.len() ==> #[trigger] after[row_at(command_offset(command), i)]
                    == payload[i]
            &&& forall|row: int|
                0 <= row < ROWS_SIZE && !row_touched(command_offset(command), payload.len(), row)
                    ==> #[trigger] after[row] == ram[row]
        }),
{
    assert((seq![command] + payload).drop_first() =~= payload);
    lemma_ram_after_write_rows(ram, command_offset(command), payload);
}

/// A read fills output byte `i` from the row `i` steps after the start, for
/// any read length.
pub proof fn lemma_read_locality(ram: Seq<u8>, command: u8, len: nat)
    requires
        ram.len() == ROWS_SIZE,
    ensures
        ram_read(ram, command_offset(command), len).len() == len,
        forall|i: int|
            0 <= i < len ==> #[trigger] ram_read(ram, command_offset(command), len)[i]
                == ram[row_at(command_offset(command), i)],
{
}

/// A write longer than the rows left after its start goes on at row 0: for
/// any payload length, each of the last `ROWS_SIZE` payload bytes stands in
/// the row `i` steps after the start, the row after the last one being row 0.
pub proof fn lemma_write_wraps(ram: Seq<u8>, command: u8, payload: Seq<u8>)
    requires
        ram.len() == ROWS_SIZE,
    ensures
        ({
            let start = command_offset(command);
            let after = ram_after_write(ram, start, payload);
            &&& forall|i: int|
                0 <= i < payload.len() && payload.len() <= i + ROWS_SIZE
                    ==> #[trigger] after[row_at(start, i)] == payload[i]
            &&& forall|i: int|
                0 <= i && start % (ROWS_SIZE as int) + i == ROWS_SIZE ==> #[trigger] row_at(start, i)
                    == 0
        }),
{
    lemma_ram_after_write_rows(ram, command_offset(command), payload);
}

/// A read longer than the rows left after its start goes on at row 0, and
/// repeats the RAM every `ROWS_SIZE` bytes, however long it is.
pub proof fn lemma_read_wraps(ram: Seq<u8>, command: u8, len: nat)
    requires
        ram.len() == ROWS_SIZE,
    ensures
        ({
            let start = command_offset(command);
            let out = ram_read(ram, start, len);
            &&& forall|i: int|
                0 <= i < len && start % (ROWS_SIZE as int) + i == ROWS_SIZE ==> #[trigger] out[i]
                    == ram[0]
            &&& forall|i: int| 0 <= i && i + ROWS_SIZE < len ==> #[trigger] out[i + ROWS_SIZE] == out[i]
        }),
{
    let start = command_offset(command);
    let out = ram_read(ram, start, len);
    assert forall|i: int| 0 <= i && i + ROWS_SIZE < len implies #[trigger] out[i + ROWS_SIZE]
        == out[i] by {
        assert(row_at(start, i + ROWS_SIZE) == row_at(start, i));
    }
}

/// Reading back as many bytes as a write transaction wrote, from the same
/// command, gives its payload back, for a payload of at most one RAM's worth.
pub proof fn lemma_write_read_round_trip(ram: Seq<u8>, command: u8, payload: Seq<u8>)
    requires
        ram.len() == ROWS_SIZE,
        payload.len() <= ROWS_SIZE,
    ensures
        ram_read(
            ram_after_command(ram, seq![command] + payload),
            command_offset(command),
            payload.len(),
        ) == payload,
{
    assert((seq![command] + payload).drop_first() =~= payload);
    lemma_ram_after_write_rows(ram, command_offset(command), payload);
    assert(ram_read(
        ram_after_command(ram, seq![command] + payload),
        command_offset(command),
        payload.len(),
    ) =~= payload);
}

} // verus!
