//! Compactor: an adapter-driven URL redirection service, as a verified library.

pub mod errors;
pub mod text;
pub mod redirect;
pub mod cache;
pub mod ip;
pub mod headers;
pub mod forwarding;
pub mod web_url;
pub mod spelling;
pub mod fields;
pub mod source;
pub mod adapter;
pub mod service;
pub mod config;
pub mod string_map;

pub use adapter::{HttpEndpointConfig, HttpRedirectEventSink, HttpRedirectSource, HttpTransportConfig};
pub use cache::RedirectCachePolicy;
pub use config::{Config, RedirectEventSinkConfig, RedirectSourceConfig};
pub use errors::{HttpAdapterConfigError, RedirectEventSinkError, RedirectSourceError};
pub use forwarding::ProxyConfig;
pub use headers::HeaderCaptureLimits;
pub use redirect::{CanonicalUrl, RedirectDefinition, RedirectId, RedirectStatus, ResponseHeaders};
pub use service::{ClientInfo, EventId, RedirectOutcome, RequestInfo, ResponseInfo};
pub use source::JsonRedirectSource;
