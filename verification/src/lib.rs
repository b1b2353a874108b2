//! A small library for managing an ordered collection of symmetric secret
//! keys: lookup of the active key, need-based rotation, throttled reload from
//! durable storage, and the line-oriented persistence format.

mod codec;
mod commons;
mod file_store;
mod key_manager;
mod mem_store;
mod utils;

pub use codec::{
    all_digits, decimal_int, decimal_of, digits_val, format_keys, lemma_round_trip, line_of,
    parse_content, parse_keys, render, FileParse, LineParse,
};
pub use commons::{
    all_valid, key_views, valid_record, KeyManagerConfig, KeyMaterial, KeyModel, KeyStore,
    KeyStoreError,
};
pub use file_store::FileKeyStore;
pub use key_manager::{
    find_kid, has_kid, insert_key, lemma_find_kid, lemma_generate_key_uniqueness,
    lemma_insert_key, lemma_load_keys, lemma_load_keys_identity, lemma_reload_throttling,
    lemma_rotation_deficit, lemma_temp_kid_distinct, load_keys, remove_kid, rotated_kid,
    temp_kid, unique_kids, KeyManager, KeyManagerBuilder,
};
pub use mem_store::{parsed_records, MemKeyStore};
pub use utils::{
    generate_secret, lemma_secret_charset_carriable, recommended_rotation_interval,
    secret_charset,
};
