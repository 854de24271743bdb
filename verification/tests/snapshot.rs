use txpool::snapshot_mpt::{
    SnapshotMptIteraterTrait, SnapshotMptTraitReadOnly, SnapshotMptTraitSingleWriter,
    SnapshotMptTypes,
};

struct Memory;

impl SnapshotMptTypes for Memory {
    type MerkleHash = u64;
    type CompressedPath = Vec<u8>;
    type CompressedPathRaw = Vec<u8>;
    type VanillaTrieNode = u32;
    type ChunkKey = u8;
    type RangedManifest = ();
    type Chunk = ();
    type Error = String;
}

struct Store {
    root: u64,
    nodes: Vec<(Vec<u8>, u32)>,
}

struct Nodes<'a> {
    rest: &'a [(Vec<u8>, u32)],
}

impl<'a> SnapshotMptIteraterTrait<Memory> for Nodes<'a> {
    fn next(&mut self) -> Result<Option<(Vec<u8>, u32, i64)>, String> {
        match self.rest.split_first() {
            Some((first, rest)) => {
                self.rest = rest;
                Ok(Some((first.0.clone(), first.1, 1)))
            }
            None => Ok(None),
        }
    }
}

impl SnapshotMptTraitReadOnly<Memory> for Store {
    fn get_merkle_root(&self) -> &u64 {
        &self.root
    }

    fn load_node(&mut self, path: &Vec<u8>) -> Result<Option<u32>, String> {
        for (known, node) in self.nodes.iter() {
            if known == path {
                return Ok(Some(*node));
            }
        }
        Ok(None)
    }

    fn iterate_subtree_trie_nodes_without_root(
        &mut self,
        _path: &Vec<u8>,
    ) -> Result<Box<dyn SnapshotMptIteraterTrait<Memory> + '_>, String> {
        Ok(Box::new(Nodes { rest: &self.nodes }))
    }

    fn get_manifest(&self, _start_chunk: &u8) -> Result<Option<()>, String> {
        Ok(None)
    }

    fn get_chunk(&self, _key: &u8) -> Result<Option<()>, String> {
        Err("no chunks".to_string())
    }
}

impl SnapshotMptTraitSingleWriter<Memory> for Store {
    fn delete_node(&mut self, path: &Vec<u8>) -> Result<(), String> {
        self.nodes.retain(|(known, _)| known != path);
        Ok(())
    }

    fn write_node(&mut self, path: &Vec<u8>, trie_node: &u32) -> Result<(), String> {
        self.delete_node(path)?;
        self.nodes.push((path.clone(), *trie_node));
        Ok(())
    }
}

#[test]
fn a_store_can_provide_a_trie() {
    let mut store = Store {
        root: 5,
        nodes: Vec::new(),
    };
    store.write_node(&vec![1], &10).unwrap();
    store.write_node(&vec![2], &20).unwrap();
    store.delete_node(&vec![1]).unwrap();
    assert_eq!(*store.get_merkle_root(), 5);
    assert_eq!(store.load_node(&vec![1]), Ok(None));
    assert_eq!(store.load_node(&vec![2]), Ok(Some(20)));
    assert_eq!(store.get_manifest(&0), Ok(None));
    assert_eq!(store.get_chunk(&0), Err("no chunks".to_string()));
    let mut nodes = store
        .iterate_subtree_trie_nodes_without_root(&Vec::new())
        .unwrap();
    assert_eq!(nodes.next(), Ok(Some((vec![2], 20, 1))));
    assert_eq!(nodes.next(), Ok(None));
}
