//! Canonical bencode encoding of byte strings, integers, lists and
//! dictionaries, with the byte-level grammar stated as spec functions.

mod decimal;
mod encode;
mod framing;
mod laws;
mod order;
mod value;

pub use decimal::{
    decimal_int, decimal_nat, digit_byte, digits_value, is_digit, MINUS, ZERO, lemma_decimal_int_injective,
    lemma_decimal_nat_injective, lemma_decimal_nat_well_formed, push_decimal_int,
    push_decimal_nat,
};
pub use encode::{
    lemma_entries_encoding_congruent, lemma_items_encoding_congruent, COLON, DICT_START, END,
    INTEGER_START, LIST_START, bytes_encoding, encode_bytes, encode_integer, encode_list, encoding, entries_encoding,
    integer_encoding, items_encoding,
};
pub use framing::lemma_encoding_self_delimiting;
pub use laws::{
    encodings, entry_encodings, lemma_bytes_encoding_injective, lemma_bytes_encoding_prefix_free,
    lemma_dict_encoding, lemma_encoding_deterministic, lemma_integer_encoding_injective,
    lemma_list_encoding,
};
pub use order::{
    bytes_less, bytes_lt, lemma_bytes_lt_irreflexive, lemma_bytes_lt_total,
    lemma_bytes_lt_transitive,
};
pub use value::{has_key, keys_ascending, BencodeValue, Dict};
