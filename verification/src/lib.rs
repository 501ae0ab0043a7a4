//! Reverse-DNS probe for checking that a host can exchange packets over XDP.
//!
//! A probe asks a public resolver for the PTR record of the resolver's own address. The library
//! builds the query, checks what comes back, and decides when to stop waiting. Sending and
//! receiving is left to the program around it.

pub mod address;
pub mod config;
pub mod cpus;
pub mod laws;
pub mod name;
pub mod query;
pub mod question;
pub mod response;
pub mod session;
pub mod split;
pub mod txid;
pub mod wire;

pub use address::{reverse_ptr_qname, Ipv4Addr};
pub use config::{configure, parse_args, CliArgs, Config, ConfigError, RetransmitConfig};
pub use cpus::{is_expandable, validate_cpu_list};
pub use name::encode_qname;
pub use query::{build_dns_query, endpoint_query};
pub use question::dns_question_end;
pub use response::{check_packet, validate_dns_response, DnsValidationError};
pub use session::{deadline_passed, RecvEvent, RecvResult, RecvSession, RecvStep};
pub use txid::random_txid;
pub use wire::DNS_RECV_BUF_SIZE;
