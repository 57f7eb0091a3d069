//! Offline matching of a CPE inventory against a local High/Critical NVD
//! mirror, with the decisions of the NVD download.
pub mod cli;
pub mod cpe;
pub mod csv_inv;
pub mod db;
pub mod error;
pub mod html;
pub mod nvd;
pub mod text;

pub use error::Error;
