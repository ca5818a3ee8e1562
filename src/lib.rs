//! Baseband core of an acoustic modem: the bit framing, the frame checks and
//! the streaming frame search that turn audio samples back into bytes.
pub mod finder;
pub mod framing;
pub mod modem;
pub mod scan;
pub mod timing;
