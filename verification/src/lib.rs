mod gzip;
pub mod text;
pub mod xml;
pub mod sitemap;
pub mod names;
pub mod fetch;
pub mod stats;
pub mod find;
pub mod extract;
pub mod cli;
