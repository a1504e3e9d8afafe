//! Width-aware text wrapping for fixed-width display surfaces.
//!
//! Characters are classified by display width (narrow or wide), and input is
//! packed greedily into output lines that stay within a caller-supplied width
//! budget: character by character for lines holding CJK text, word by word for
//! everything else. Helpers chunk oversized input, validate it, and report
//! text statistics.

pub mod batch;
pub mod chars;
pub mod chunks;
pub mod classify;
pub mod idem;
pub mod justify;
pub mod stats;
pub mod wrap;

pub use batch::{batch_justify_list, batch_justify_text};
pub use chunks::process_text_chunks;
pub use classify::{calculate_text_width, get_char_width, is_cjk, is_cjk_char};
pub use justify::{justify_text, validate_text_input};
pub use stats::{compute_text_stats, get_text_stats, TextStats};
pub use wrap::{justify_text_cjk, justify_text_english};
