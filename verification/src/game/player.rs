//! Player state: the current position in the world graph, the carried
//! inventory, and the set of places visited so far.

use vstd::prelude::*;

use crate::game::item::Inventory;
use crate::graph::NodeIndex;

verus! {

/// Where the player is, what they carry, and where they have been.
pub struct PlayerState {
    pub position: NodeIndex,
    pub inventory: Inventory,
    pub visited_places: Vec<NodeIndex>,
}

impl PlayerState {
    /// The set of places the player has moved to so far; the starting
    /// position is not in it until the player returns there.
    pub closed spec fn visited_set(&self) -> Set<NodeIndex> {
        Set::new(|v: NodeIndex| self.visited_places@.contains(v))
    }

    /// Creates a player standing at `position`, carrying nothing, having
    /// visited nothing.
    pub fn new(position: NodeIndex) -> (p: Self)
        ensures
            p.position == position,
            p.inventory.wf(),
            p.inventory.entries() == Seq::<(crate::game::item::ItemIndex, u32)>::empty(),
            p.visited_set() == Set::<NodeIndex>::empty(),
    {
        let p = Self { position, inventory: Inventory::new(), visited_places: Vec::new() };
        proof {
            assert(p.visited_set() =~= Set::<NodeIndex>::empty());
        }
        p
    }

    /// Moves the player to `node` and records it as visited; the inventory
    /// is untouched.
    pub fn goto(&mut self, node: NodeIndex)
        ensures
            final(self).position == node,
            final(self).inventory == old(self).inventory,
            final(self).visited_set() == old(self).visited_set().insert(node),
    {
        self.position = node;
        let len = self.visited_places.len();
        let mut i: usize = 0;
        while i < len
            invariant
                len == self.visited_places@.len(),
                i <= len,
                forall|k: int| 0 <= k < i ==> self.visited_places@[k] != node,
                self.position == node,
                self.visited_places == old(self).visited_places,
                self.inventory == old(self).inventory,
            decreases len - i,
        {
            if self.visited_places[i] == node {
                proof {
                    assert(self.visited_places@.contains(node));
                    assert(self.visited_set() =~= old(self).visited_set().insert(node));
                }
                return ;
            }
            i += 1;
        }
        let ghost old_places = self.visited_places@;
        self.visited_places.push(node);
        proof {
            assert forall|v: NodeIndex| #[trigger]
                self.visited_places@.contains(v) implies (old_places.contains(v) || v
                == node) by {
                let k = choose|k: int|
                    0 <= k < self.visited_places@.len() && self.visited_places@[k] == v;
                if k < old_places.len() {
                    assert(old_places[k] == v);
                } else {
                    assert(self.visited_places@[k] == node);
                }
            }
            assert forall|v: NodeIndex|
                old_places.contains(v) || v == node implies #[trigger] self.visited_places@.contains(
                v,
            ) by {
                if old_places.contains(v) {
                    let k = choose|k: int| 0 <= k < old_places.len() && old_places[k] == v;
                    assert(self.visited_places@[k] == v);
                } else {
                    assert(self.visited_places@[self.visited_places@.len() - 1] == node);
                }
            }
            assert(self.visited_set() =~= old(self).visited_set().insert(node));
        }
    }
}

} // verus!
