//! The trie as it is held in memory.

use super::model::{NodeModel, Pair, PointerModel};
use crate::cid::Cid;
use vstd::prelude::*;

verus! {

/// A key with its value, the value being one CBOR item.
#[derive(Debug)]
pub struct KeyValue {
    pub key: Vec<u8>,
    pub value: Vec<u8>,
}

impl View for KeyValue {
    type V = Pair;

    open spec fn view(&self) -> Pair {
        (self.key@, self.value@)
    }
}

/// What a slot of a node holds.
#[derive(Debug)]
pub enum Pointer {
    /// A bucket of pairs.
    Values(Vec<KeyValue>),
    /// A child that has not been read from the store yet.
    Link(Cid),
    /// A child held in memory. `stored` is the identifier under which the
    /// store holds it; a child that has changed since it was read or written
    /// has none and is dirty.
    Resolved { node: Box<Node>, stored: Option<Cid> },
}

/// A node of the trie.
#[derive(Debug)]
pub struct Node {
    pub slots: Vec<Option<Pointer>>,
}

/// The pairs of a bucket.
pub open spec fn pairs_model(pairs: Seq<KeyValue>) -> Seq<Pair> {
    Seq::new(pairs.len(), |i: int| pairs[i]@)
}

/// An identifier that may be absent, as its bytes.
pub open spec fn stored_model(stored: Option<Cid>) -> Option<Seq<u8>> {
    match stored {
        Some(cid) => Some(cid@),
        None => None,
    }
}

impl Pointer {
    /// The pointer in the model.
    pub open spec fn model(self) -> PointerModel
        decreases self,
    {
        match self {
            Pointer::Values(pairs) => PointerModel::Values(pairs_model(pairs@)),
            Pointer::Link(cid) => PointerModel::Link(cid@),
            Pointer::Resolved { node, stored } => PointerModel::Resolved(
                Box::new(node.model()),
                stored_model(stored),
            ),
        }
    }
}

/// A slot in the model.
pub open spec fn slot_model(slot: Option<Pointer>) -> Option<PointerModel>
    decreases slot,
{
    match slot {
        Some(p) => Some(p.model()),
        None => None,
    }
}

impl Node {
    /// The node in the model.
    pub open spec fn model(self) -> NodeModel
        decreases self,
    {
        NodeModel {
            slots: Seq::new(
                self.slots@.len(),
                |i: int|
                    if 0 <= i < self.slots@.len() {
                        slot_model(self.slots@[i])
                    } else {
                        None
                    },
            ),
        }
    }
}

} // verus!
