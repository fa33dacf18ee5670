//! The passes that run every tick: light first, then sight.

pub mod field_of_view;
pub mod illumination;
