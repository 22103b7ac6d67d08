pub mod arrar_hash_table;
pub mod chain_hash_table;
pub mod open_addr_hash_table;
