//! A snapshot's Merkle Patricia trie, for storage engines to provide.
use vstd::prelude::*;

verus! {

/// The types that a storage engine has for the parts of a trie.
pub trait SnapshotMptTypes {
    type MerkleHash;

    /// A path to look up.
    type CompressedPath;

    /// A path that is handed out.
    type CompressedPathRaw;

    type VanillaTrieNode;

    type ChunkKey;

    type RangedManifest;

    type Chunk;

    type Error;
}

/// Reads a trie.
pub trait SnapshotMptTraitReadOnly<M: SnapshotMptTypes> {
    fn get_merkle_root(&self) -> &M::MerkleHash;

    fn load_node(&mut self, path: &M::CompressedPath) -> Result<
        Option<M::VanillaTrieNode>,
        M::Error,
    >;

    fn iterate_subtree_trie_nodes_without_root(&mut self, path: &M::CompressedPath) -> Result<
        Box<dyn SnapshotMptIteraterTrait<M> + '_>,
        M::Error,
    >;

    fn get_manifest(&self, start_chunk: &M::ChunkKey) -> Result<
        Option<M::RangedManifest>,
        M::Error,
    >;

    fn get_chunk(&self, key: &M::ChunkKey) -> Result<Option<M::Chunk>, M::Error>;
}

/// Reads a trie and, with nobody else writing, changes it.
pub trait SnapshotMptTraitSingleWriter<M: SnapshotMptTypes>: SnapshotMptTraitReadOnly<M> {
    fn delete_node(&mut self, path: &M::CompressedPath) -> Result<(), M::Error>;

    fn write_node(
        &mut self,
        path: &M::CompressedPath,
        trie_node: &M::VanillaTrieNode,
    ) -> Result<(), M::Error>;
}

/// Hands out the nodes of a subtree one after the other, each with its path and
/// a number that the storage engine keeps with it.
pub trait SnapshotMptIteraterTrait<M: SnapshotMptTypes> {
    /// The next node; `None` is for the end.
    fn next(&mut self) -> Result<
        Option<(M::CompressedPathRaw, M::VanillaTrieNode, i64)>,
        M::Error,
    >;
}

} // verus!
