//! Settings of the chunker.
use vstd::prelude::*;

verus! {

/// How a document is cut into chunks.
#[derive(Debug, Clone)]
pub struct ChunkingConfig {
    /// The size in bytes that a section has to exceed to be split.
    pub max_chunk_size: usize,
    /// The size up to which small sections are put together. The maximum size if
    /// it is not given.
    pub target_chunk_size: Option<usize>,
    /// Whether the description of the document is put before each chunk.
    pub prepend_description: bool,
    /// Whether the headings that a chunk is nested under are put before it.
    pub prepend_heading_path: bool,
    /// Whether chunks are kept to one section each.
    pub heading_metadata: bool,
}

/// The size up to which small sections are put together.
pub open spec fn target_size(config: ChunkingConfig) -> usize {
    match config.target_chunk_size {
        Some(target) => target,
        None => config.max_chunk_size,
    }
}

impl ChunkingConfig {
    /// The size up to which small sections are put together.
    pub fn target(&self) -> (r: usize)
        ensures
            r == target_size(*self),
    {
        match self.target_chunk_size {
            Some(target) => target,
            None => self.max_chunk_size,
        }
    }
}

impl Default for ChunkingConfig {
    /// Chunks of up to 1500 bytes, with a description and a heading path, merged
    /// across headings.
    fn default() -> (r: ChunkingConfig)
        ensures
            r.max_chunk_size == 1500,
            r.target_chunk_size is None,
            r.prepend_description,
            r.prepend_heading_path,
            !r.heading_metadata,
    {
        ChunkingConfig {
            max_chunk_size: 1500,
            target_chunk_size: None,
            prepend_description: true,
            prepend_heading_path: true,
            heading_metadata: false,
        }
    }
}

/// Without a target size the maximum size is the target.
pub proof fn the_maximum_is_the_target_without_one(config: ChunkingConfig)
    ensures
        config.target_chunk_size is None ==> target_size(config) == config.max_chunk_size,
        config.target_chunk_size matches Some(size) ==> target_size(config) == size,
{
}

} // verus!
