//! Compile-time color literals: turn the text of a string literal holding
//! hex-encoded color data (`"#4c4c4c"`) into the three or four bytes it
//! encodes, rejecting anything that is not a well-formed RGB or RGBA color.

mod model;
mod scanner;

pub use model::HexError;
pub use model::NibbleScan;
pub use model::all_scannable;
pub use model::decode_pairs;
pub use model::encode_byte;
pub use model::encode_bytes;
pub use model::first_invalid;
pub use model::hex_char_of;
pub use model::hex_digit_value;
pub use model::hex_digits_of;
pub use model::hex_outcome;
pub use model::invalid_char_error;
pub use model::is_hex_digit;
pub use model::is_hex_ws;
pub use model::is_scannable;
pub use model::leading_ws;
pub use model::lemma_case_invariance;
pub use model::lemma_hash_invariance;
pub use model::lemma_round_trip;
pub use model::lemma_valid_decoding;
pub use model::lemma_whitespace_invariance;
pub use model::literal_body;
pub use model::lower_hex_char;
pub use model::pair_value;
pub use model::quoted;
pub use model::scan_nibble;
pub use scanner::TokenTreeIter;
pub use scanner::color_from_hex;
