//! Routing rules of the form `SOURCE to DEST`: parsing them, matching
//! request paths against them, and resolving where a request goes.

pub mod dest_location;
pub mod dispatch;
pub mod error;
pub mod matcher;
pub mod pattern;
pub mod routes;
pub mod src_location;
pub mod text;
pub mod utils;

pub use dest_location::{DestLocation, DestLocationInner, ResolvedLocation};
pub use error::Error;
pub use matcher::Matcher;
pub use routes::{from_args, Route, RouteError};
pub use src_location::{Matches, SrcLocation};
pub use utils::{Protocol, SplitUrl};
