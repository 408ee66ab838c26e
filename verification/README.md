# mail_proxy

The configuration core of an SMTP-to-Microsoft-Graph mail proxy, verified with Verus:

- `src/ip.rs` — IP addresses and CIDR networks; parsing and display go through `ipnet`.
- `src/ip_net_list.rs` — sets of networks that peers are checked against.
- `src/peer_filter.rs` — allow/deny rules, their evaluation order and the precedence laws.
- `src/user.rs` — users, Argon2 password hashes (through `argon2`) and allowed sender addresses.
- `src/text.rs`, `src/text_set.rs` — character-level text helpers and a set of texts.
- `src/config_rules.rs` — decisions of the configuration commands on peer lists and authentication.

`app/` holds the serde documents of these types and conversions to `std::net` and `ipnet`.
