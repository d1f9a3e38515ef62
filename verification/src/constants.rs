use vstd::prelude::*;

verus! {

/// Number of bytes of sample data in one audio frame.
pub const AUDIO_PAYLOAD_LEN: usize = 4000;

/// Number of bytes of the sequence field that follows the sample data.
pub const SEQUENCE_FIELD_LEN: usize = 4;

/// Number of bytes of the synchronization marker in the reference deployment.
pub const SYNC_LEN: usize = 8;

/// Total on-wire length of one audio frame in the reference deployment.
/// The three lengths above form one configuration unit; this sum keeps them
/// consistent.
pub const PACKET_LENGTH: usize = AUDIO_PAYLOAD_LEN + SEQUENCE_FIELD_LEN + SYNC_LEN;

/// How many bytes the serial reader asks for per read.
pub const SERIAL_READ_SIZE: usize = 8192;

/// Serial link speed of the reference deployment.
pub const BAUDRATE: u32 = 2_000_000;

/// The synchronization marker of the reference deployment.
pub const TARGET_SEQUENCE: [u8; 8] = [0xFF, 0x01, 0xFF, 0x02, 0xFF, 0x03, 0xFF, 0x04];

} // verus!
