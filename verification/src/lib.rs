//! A rule-based DNS forwarder: the decisions it takes on names, messages,
//! rules, cached answers and upstream replies.
pub mod addr;
pub mod address_laws;
pub mod answer_laws;
pub mod answers;
pub mod cache;
pub mod chase;
pub mod chase_laws;
pub mod config;
pub mod config_laws;
pub mod decimal;
pub mod dns;
pub mod domain_file;
pub mod error;
pub mod extra_domain;
pub mod forwarder;
pub mod lifetime;
pub mod message_laws;
pub mod name_laws;
pub mod nft;
pub mod nft_laws;
pub mod resolve_laws;
pub mod routing_laws;
pub mod rules;
pub mod rules_laws;
pub mod section_laws;
pub mod server;
pub mod server_laws;
pub mod text;
pub mod trie;
pub mod whitespace;
pub mod wire;
