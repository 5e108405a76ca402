//! The optional credential layer: identifiers derived from public
//! commitments and the credentials that bind them to claims.

pub mod credential;
pub mod issuer;
