//! Core of a video-analysis pipeline: restoring strict frame order after
//! parallel processing, smoothing noisy per-frame detection signals into
//! stable presence spans, and merging per-frame text guesses into one
//! committed text value per span.

pub mod components;
pub mod det_accum;
pub mod filled;
pub mod min_max_record;
pub mod neighbor;
pub mod rat;
pub mod segments;
pub mod seq_buf;
pub mod stages;
pub mod text_accum;
pub mod time;
pub mod time_text;
pub mod vec2d;
