//! The top-level runtime graph: loading (and reloading) circuit definitions
//! and advancing the simulation tick by tick.
//!
//! A load event instantiates one definition. If a top-level block with the
//! definition's id already exists, its entire previous subtree — all
//! descendant blocks, connections and wires — is discarded before the new
//! subtree is grafted: replacement is total, never incremental, and no signal
//! state migrates across a reload.

use vstd::prelude::*;
use crate::definition::BlockDefinition;
use crate::graph::{Block, is_propagation};
use crate::instantiate::{instantiate, is_instantiation};

verus! {

/// The live runtime graph: the top-level blocks, each owning its subtree.
#[derive(Debug)]
pub struct CircuitGraph {
    pub blocks: Vec<Block>,
}

/// `blocks` with the first block carrying `id` removed, or unchanged when
/// none does.
pub open spec fn spec_remove_block(blocks: Seq<Block>, id: usize) -> Seq<Block>
    decreases blocks.len(),
{
    if blocks.len() == 0 {
        blocks
    } else if blocks[0].id == id {
        blocks.drop_first()
    } else {
        seq![blocks[0]] + spec_remove_block(blocks.drop_first(), id)
    }
}

proof fn lemma_remove_block_at(blocks: Seq<Block>, id: usize, i: int)
    requires
        0 <= i < blocks.len(),
        blocks[i].id == id,
        forall|j: int| 0 <= j < i ==> (#[trigger] blocks[j]).id != id,
    ensures
        spec_remove_block(blocks, id) == blocks.remove(i),
    decreases blocks.len(),
{
    if i == 0 {
        assert(blocks.remove(0) =~= blocks.drop_first());
    } else {
        lemma_remove_block_at(blocks.drop_first(), id, i - 1);
        assert(blocks.remove(i) =~= seq![blocks[0]] + blocks.drop_first().remove(i - 1));
    }
}

proof fn lemma_remove_block_none(blocks: Seq<Block>, id: usize)
    requires
        forall|j: int| 0 <= j < blocks.len() ==> (#[trigger] blocks[j]).id != id,
    ensures
        spec_remove_block(blocks, id) == blocks,
    decreases blocks.len(),
{
    if blocks.len() > 0 {
        lemma_remove_block_none(blocks.drop_first(), id);
        assert(seq![blocks[0]] + blocks.drop_first() =~= blocks);
    }
}

/// Removal by id is total: if at most one top-level block carries the id,
/// no block carrying it survives the removal.
pub proof fn lemma_remove_block_total(blocks: Seq<Block>, id: usize)
    requires
        forall|i: int, j: int|
            0 <= i < j < blocks.len() ==> !((#[trigger] blocks[i]).id == id && (
            #[trigger] blocks[j]).id == id),
    ensures
        forall|k: int|
            0 <= k < spec_remove_block(blocks, id).len() ==> (#[trigger] spec_remove_block(
                blocks,
                id,
            )[k]).id != id,
    decreases blocks.len(),
{
    if blocks.len() > 0 {
        if blocks[0].id == id {
            assert forall|k: int| 0 <= k < blocks.drop_first().len() implies (
            #[trigger] blocks.drop_first()[k]).id != id by {
                assert(blocks.drop_first()[k] == blocks[k + 1]);
                assert(!(blocks[0].id == id && blocks[k + 1].id == id));
            }
        } else {
            assert forall|i: int, j: int|
                0 <= i < j < blocks.drop_first().len() implies !((#[trigger] blocks.drop_first()[i]).id
                == id && (#[trigger] blocks.drop_first()[j]).id == id) by {
                assert(blocks.drop_first()[i] == blocks[i + 1]);
                assert(blocks.drop_first()[j] == blocks[j + 1]);
            }
            lemma_remove_block_total(blocks.drop_first(), id);
            let rest = spec_remove_block(blocks.drop_first(), id);
            assert forall|k: int| 0 <= k < (seq![blocks[0]] + rest).len() implies (#[trigger] (seq![
                blocks[0],
            ] + rest)[k]).id != id by {
                if k > 0 {
                    assert((seq![blocks[0]] + rest)[k] == rest[k - 1]);
                }
            }
        }
    }
}

/// The reload law: when at most one existing top-level block carried the
/// definition's id, then after the reload every top-level block carrying that
/// id is the freshly instantiated one — nothing of the old subtree (blocks,
/// connections or wires) remains in the graph. `pre` and `post` stand for the
/// top-level blocks before and after a `load`, as its `ensures` describes
/// them.
pub proof fn lemma_reload_replaces(pre: Seq<Block>, post: Seq<Block>, def: BlockDefinition)
    requires
        forall|i: int, j: int|
            0 <= i < j < pre.len() ==> !((#[trigger] pre[i]).id == def.id && (#[trigger] pre[j]).id
                == def.id),
        post.len() == spec_remove_block(pre, def.id).len() + 1,
        post.drop_last() == spec_remove_block(pre, def.id),
        is_instantiation(def, post.last()),
    ensures
        forall|k: int|
            0 <= k < post.len() && (#[trigger] post[k]).id == def.id ==> post[k] == post.last()
                && is_instantiation(def, post[k]),
{
    lemma_remove_block_total(pre, def.id);
    assert forall|k: int| 0 <= k < post.len() && (#[trigger] post[k]).id == def.id implies post[k]
        == post.last() && is_instantiation(def, post[k]) by {
        if k < post.len() - 1 {
            assert(post[k] == post.drop_last()[k]);
        }
    }
}

fn find_block(blocks: &Vec<Block>, id: usize) -> (r: Option<usize>)
    ensures
        match r {
            Some(i) => i < blocks@.len() && blocks@[i as int].id == id && forall|j: int|
                0 <= j < i ==> (#[trigger] blocks@[j]).id != id,
            None => forall|j: int| 0 <= j < blocks@.len() ==> (#[trigger] blocks@[j]).id != id,
        },
{
    let mut i: usize = 0;
    while i < blocks.len()
        invariant
            i <= blocks@.len(),
            forall|j: int| 0 <= j < i ==> (#[trigger] blocks@[j]).id != id,
        decreases blocks@.len() - i,
    {
        if blocks[i].id == id {
            return Some(i);
        }
        i += 1;
    }
    None
}

impl CircuitGraph {
    /// Every top-level block is well formed.
    pub open spec fn wf(self) -> bool {
        forall|i: int| 0 <= i < self.blocks@.len() ==> (#[trigger] self.blocks@[i]).wf()
    }

    /// An empty graph.
    pub fn new() -> (g: CircuitGraph)
        ensures
            g.blocks@.len() == 0,
            g.wf(),
    {
        CircuitGraph { blocks: Vec::new() }
    }

    /// Load (or reload) a circuit definition. If a top-level block with the
    /// definition's id already exists, that block and its whole subtree are
    /// discarded first; the freshly instantiated subtree is then appended.
    pub fn load(&mut self, def: &BlockDefinition)
        ensures
            final(self).blocks@.len() == spec_remove_block(old(self).blocks@, def.id).len() + 1,
            final(self).blocks@.drop_last() == spec_remove_block(old(self).blocks@, def.id),
            is_instantiation(*def, final(self).blocks@.last()),
            old(self).wf() ==> final(self).wf(),
    {
        match find_block(&self.blocks, def.id) {
            Some(i) => {
                self.blocks.remove(i);
                proof {
                    lemma_remove_block_at(old(self).blocks@, def.id, i as int);
                    if old(self).wf() {
                        assert forall|k: int| 0 <= k < self.blocks@.len() implies (
                        #[trigger] self.blocks@[k]).wf() by {
                            if k < i {
                                assert(self.blocks@[k] == old(self).blocks@[k]);
                            } else {
                                assert(self.blocks@[k] == old(self).blocks@[k + 1]);
                            }
                        }
                    }
                }
            },
            None => {
                proof {
                    lemma_remove_block_none(old(self).blocks@, def.id);
                }
            },
        }
        let ghost removed = self.blocks@;
        assert(old(self).wf() ==> forall|k: int|
            0 <= k < removed.len() ==> (#[trigger] removed[k]).wf());
        let b = instantiate(def);
        self.blocks.push(b);
        proof {
            assert(self.blocks@.drop_last() =~= removed);
            if old(self).wf() {
                assert forall|k: int| 0 <= k < self.blocks@.len() implies (
                #[trigger] self.blocks@[k]).wf() by {
                    if k < self.blocks@.len() - 1 {
                        assert(self.blocks@[k] == removed[k]);
                    }
                }
            }
        }
    }

    /// Advance the simulation one tick: run the propagator once on every
    /// top-level block's subtree.
    pub fn tick(&mut self)
        requires
            old(self).wf(),
        ensures
            final(self).wf(),
            final(self).blocks@.len() == old(self).blocks@.len(),
            forall|i: int|
                0 <= i < old(self).blocks@.len() ==> is_propagation(
                    old(self).blocks@[i],
                    #[trigger] final(self).blocks@[i],
                ),
    {
        let n = self.blocks.len();
        let mut i: usize = 0;
        while i < n
            invariant
                old(self).wf(),
                i <= n,
                n == self.blocks@.len(),
                self.blocks@.len() == old(self).blocks@.len(),
                forall|j: int| i <= j < n ==> self.blocks@[j] == old(self).blocks@[j],
                forall|j: int|
                    0 <= j < i ==> is_propagation(
                        old(self).blocks@[j],
                        #[trigger] self.blocks@[j],
                    ),
                forall|j: int| 0 <= j < i ==> (#[trigger] self.blocks@[j]).wf(),
            decreases n - i,
        {
            self.blocks[i].propagate();
            i += 1;
        }
    }
}

} // verus!
