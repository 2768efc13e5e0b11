//! Reading and writing of packaged resource index (PRI) containers: a file header,
//! a table of contents, framed sections and a file footer, with redundant fields
//! that must all agree. Also the identifiers of the devices and the package
//! metadata that the surrounding tools work with.
pub mod config;
pub mod container;
pub mod devices;
pub mod error;
pub mod laws;
pub mod le;
pub mod section;

pub use config::Config;
pub use container::{PriFile, TocEntry};
pub use devices::{Backend, Device, DeviceError};
pub use error::PriError;
pub use section::{Section, SectionData, UnknownSection};
