pub mod buffered_io;
pub mod collections;
pub mod cosine;
pub mod euclidean;
pub mod node_cache;
pub mod serializer;
pub mod simorder;
pub mod storage;
pub mod vector_store;
