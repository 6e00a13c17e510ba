//! A software stand-in for the display RAM of an HT16K33 LED-matrix driver,
//! reached over a mock I2C bus.
//!
//! The RAM follows the chip's addressing: the first byte of a transaction
//! selects a starting row, and each following byte goes to (or comes from)
//! the next row, wrapping from the last row back to the first.

pub mod addressing;
pub mod mock;
pub mod transaction;

pub use addressing::{DISPLAY_DATA_ADDRESS_ROW_0, ROWS_SIZE};
pub use mock::{I2cMock, I2cMockError};
pub use transaction::Operation;
