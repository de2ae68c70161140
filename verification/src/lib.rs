//! Inspection of IP addresses and CIDR network ranges: parsing of IPv4 and
//! IPv6 address text, CIDR notation, network-address derivation, overlap
//! detection between CIDR blocks, and a small catalogue of crawler IP sources.
mod addr;
mod cidr;
mod crawler;
mod parse;
mod text;
mod v4text;
mod v6text;

pub use addr::IpAddress;
pub use addr::get_ip_info;
pub use cidr::get_network_address;
pub use crawler::CrawlerIpSource;
pub use crawler::StaticCrawlerIpSource;
pub use crawler::builtin_crawler_sources;
pub use crawler::default_additional_crawler_sources;
pub use crawler::get_all_crawler_sources;
pub use crawler::get_crawler_sources_by_name;
pub use crawler::sample_config_sources;
pub use cidr::networks_overlap;
pub use crawler::sources_with_additional;
pub use parse::IpParseError;
pub use parse::evaluate_cidr_overlap;
pub use parse::format_address;
pub use parse::format_cidr;
pub use parse::parse_cidr;
pub use parse::parse_ip_address;
