//! Local semantic code index: workspace scanning, structural chunking,
//! vector persistence in a checksummed binary format, and confidence-gated
//! top-K retrieval, together with the surrounding report and version helpers.

pub mod analytics;
pub mod bytesutil;
pub mod chunk;
pub mod digest;
pub mod globpat;
pub mod ignore;
pub mod jsonio;
pub mod maintain;
pub mod manifest;
pub mod markdown;
pub mod metafile;
pub mod query;
pub mod report;
pub mod scan;
pub mod store;
pub mod tsparse;
pub mod vecfile;
pub mod version;
