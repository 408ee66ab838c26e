//! Peer filtering, IP network lists and user accounts for an SMTP mail proxy.

pub mod config_rules;
pub mod ip;
pub mod ip_net_list;
pub mod text;
pub mod text_set;
pub mod user;
pub mod peer_filter;
