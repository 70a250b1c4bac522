//! A small library for building a flat JSON object interactively, one
//! key-value pair at a time.
//!
//! [`state::EditorState`] holds the committed key-value mapping, the current
//! screen mode and the scratch buffers of the pair being typed.  The input
//! reducer in [`reducer`] is the only mutation path: it maps one input event
//! to the next state and a side effect.  [`json`] serializes the mapping as a
//! JSON object, member order being insertion order.
//!
//! Two edge-case policies: committing while the pending key is empty changes
//! nothing, and committing an existing key overwrites its value in place,
//! keeping the member's position.

pub mod json;
pub mod reducer;
pub mod state;
mod strbuf;
