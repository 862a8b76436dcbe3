//! A producer/consumer handoff of columnar batches through a shared staging
//! file: the producer frames a batch into a pre-sized region and announces
//! only the file's name and the valid byte range over a small control
//! message; the consumer decodes the frame straight from that range and
//! acknowledges, which alone permits the producer to delete the file.

pub mod batch;
pub mod frame;
pub mod protocol;
pub mod staging;
pub mod wire;
