//! A binary codec for DNS protocol messages: domain names and resource
//! records, between their wire format and validated in-memory values.

pub mod domain_name;
pub mod error;
pub mod labels;
pub mod rr;
pub mod text;
pub mod wire;

pub use error::DecodeError;
pub use domain_name::{
    DomainName, DomainNameError, DOMAIN_NAME_MAX_LABEL_LENGTH, DOMAIN_NAME_MAX_LENGTH,
    DOMAIN_NAME_MAX_RECURSION,
};
pub use rr::rfc_3658::{SSHFPAlgorithm, SSHFPType, SSHFP};
pub use rr::{Class, Type, RR};
