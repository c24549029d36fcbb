//! The engine: what a box holds, what it keeps, and who gets to read it.

pub mod box_state;
pub mod broadcast;
pub mod eviction;
pub mod filters;
pub mod read;
pub mod wal_glue;

pub use self::broadcast::{
    coherent, frame_text, framed, law_a_frame_is_shared, law_each_projection_has_its_slot,
    law_first_frame_wins, law_ring_drops_the_lowest, law_sharing_changes_no_text,
    law_variants_are_independent, published, serialize_frame, BroadcastCache, CacheState,
    FrameVariant, N_VARIANTS, RING_CAP,
};
