pub mod date;
pub mod partition;
pub mod vectors;
pub mod ivf_format;
pub mod knn;
pub mod lsh;
pub mod service;
pub mod indexing;
pub mod index_files;
