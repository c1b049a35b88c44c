//! Rolling CRC-32 over a fixed-size sliding window of a byte stream, using
//! the standard reflected polynomial (ISO 3309, IEEE 802.3).
//!
//! Each checksum of the stream after the first one is obtained in constant
//! time from the previous one, whatever the window size, through a
//! per-window-size correction table that retires the oldest byte.
pub mod checksum;
pub mod rolling;
pub mod stream;
pub mod table;

pub use checksum::{calc_crc, finish_crc, make_rolling_crc_table, update_crc};
pub use rolling::{RollingCRC, RollingCRCContext};
pub use stream::{RollingCRCMap, RollingCRCMapResult};
pub use table::{CRCTable, INIT_CRC, POLY_CRC, make_crc_table_fast};
