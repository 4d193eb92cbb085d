//! Verified core of a Mode-S / ADS-B beamforming receiver.
//!
//! The library holds the integer logic of the pipeline: the 24-bit CRC
//! engine with its 1-2 bit error-correction table, the frame decoder for
//! the downlink formats of interest, the compact-position (CPR) global
//! decoder in exact fixed-point arithmetic, the per-aircraft entity
//! tracker, the pipe (steering-vector slot) manager, and the per-buffer
//! merge and chunking rules of the orchestrator.  Floating-point signal
//! processing (magnitude synthesis, preamble scoring) and all I/O live
//! outside the library and exchange plain values with it.

pub mod crc;
pub mod cpr;
pub mod decode;
pub mod entity;
pub mod pipemgmt;
pub mod orchestrate;

use vstd::prelude::*;

verus! {

/// Length in bytes of a long (112 bit) Mode-S message.
pub const MODES_LONG_MSG_BYTES: usize = 14;

/// Length in bytes of a short (56 bit) Mode-S message.
pub const MODES_SHORT_MSG_BYTES: usize = 7;

/// Length in bits of a long Mode-S message.
pub const MODES_LONG_MSG_BITS: usize = 112;

/// Length in bits of a short Mode-S message.
pub const MODES_SHORT_MSG_BITS: usize = 56;

/// Half-bit samples spanned by the 8 microsecond preamble at 2 Msps.
pub const MODES_PREAMBLE_SAMPLES: usize = 16;

/// Half-bit samples spanned by a long message payload at 2 Msps.
pub const MODES_LONG_MSG_SAMPLES: usize = 224;

/// Nominal sample rate of the I/Q stream, in samples per second.
pub const SAMPLE_RATE: u64 = 2000000;

} // verus!
