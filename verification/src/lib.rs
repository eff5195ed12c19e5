pub mod header;
pub mod ip;
pub mod laws;
pub mod text;

pub use header::parse_forwarded_header;
pub use header::ForwardedHeader;
pub use ip::to_ip_addresses;
pub use ip::IpAddress;
