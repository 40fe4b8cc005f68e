//! Tracking of enemy markers on a game minimap.
//!
//! Each frame yields a list of candidate marker centres. The registry keeps a
//! short-lived set of tracked entities, associates every candidate with the
//! entity nearest to it, re-identifies candidates by visual similarity once
//! the registry is full, and lets entities that are no longer seen age and
//! eventually leave.
//!
//! The library works on plain values and leaves the images to its caller.
//! For each frame the caller
//!
//! 1. turns the frame into a mask with [`mask::color_filter`] and finds the
//!    circles in it,
//! 2. hands the centre of each circle to [`registry::Registry::associate`]
//!    and does what the outcome asks for: cut a signature out of the frame
//!    for [`registry::Registry::create`], or score it against the signature
//!    of every entity for [`registry::Registry::reidentify`],
//! 3. ends the tick with [`registry::Registry::end_tick`] and draws the
//!    ghosts that it names.
//!
//! What holds of these steps in general is proved in [`laws`].

pub mod geometry;
pub mod mask;
pub mod signature;
pub mod ranking;
pub mod entity;
pub mod registry;
pub mod laws;
