//! Rooms.

use vstd::prelude::*;

verus! {

/// A room of the map. `layer` numbers the generation pass that placed it,
/// counting from zero. `key` names the layer whose locked connections the key
/// lying in this room opens; a room holds one key or none.
#[derive(Copy, Clone, Debug, PartialEq, Eq, Structural)]
pub struct Node {
    pub layer: u8,
    pub key: Option<u8>,
}

impl Default for Node {
    /// A room of layer zero without a key.
    fn default() -> (r: Node)
        ensures
            r == (Node { layer: 0, key: None }),
    {
        Node { layer: 0, key: None }
    }
}

impl Node {
    /// A room of the given layer without a key.
    pub fn with_layer(layer: u8) -> (r: Node)
        ensures
            r == (Node { layer, key: None }),
    {
        Node { layer, key: None }
    }

    /// The same room holding the key of `layer`.
    pub fn with_key(self, layer: u8) -> (r: Node)
        ensures
            r == (Node { layer: self.layer, key: Some(layer) }),
    {
        Node { layer: self.layer, key: Some(layer) }
    }
}

} // verus!
