//! Instantiation: expanding a declarative `BlockDefinition` into a live
//! `Block` subtree.
//!
//! Instantiation is depth-first. At each level it creates one connection per
//! declared input and output (inputs first, each with its declared role and
//! initial value), instantiates every inner block, and then resolves the
//! level's wire declarations. A wire endpoint resolves only against the
//! connections declared directly on the block that declares the wire: an
//! endpoint naming a different `parent_block`, or an id that is not declared
//! here, is dropped and the rest of the wire is kept — malformed references
//! degrade locally, they never abort instantiation.

use vstd::prelude::*;
use crate::definition::{BlockDefinition, ConnectionDefinition, ConnectionDefinitionRef};
use crate::graph::{Block, Connection, Role, Wire};

verus! {

/// The position of the first declared connection with the given id, if any.
pub open spec fn spec_find_id(conns: Seq<ConnectionDefinition>, id: usize) -> Option<int>
    decreases conns.len(),
{
    if conns.len() == 0 {
        None
    } else if conns[0].id == id {
        Some(0 as int)
    } else {
        match spec_find_id(conns.drop_first(), id) {
            Some(i) => Some(i + 1),
            None => None,
        }
    }
}

/// `spec_find_id` returns the first match: a found position is in bounds,
/// carries the id, and nothing before it does; `None` means no position does.
proof fn lemma_find_id_first(conns: Seq<ConnectionDefinition>, id: usize)
    ensures
        match spec_find_id(conns, id) {
            Some(i) => 0 <= i < conns.len() && conns[i].id == id && forall|j: int|
                0 <= j < i ==> (#[trigger] conns[j]).id != id,
            None => forall|j: int| 0 <= j < conns.len() ==> (#[trigger] conns[j]).id != id,
        },
    decreases conns.len(),
{
    if conns.len() > 0 {
        lemma_find_id_first(conns.drop_first(), id);
        assert forall|j: int| 0 <= j < conns.len() - 1 implies #[trigger] conns.drop_first()[j]
            == conns[j + 1] by {}
        if conns[0].id != id {
            match spec_find_id(conns.drop_first(), id) {
                Some(i) => {
                    assert(spec_find_id(conns, id) == Some(i + 1));
                    assert forall|j: int| 0 <= j < i + 1 implies (#[trigger] conns[j]).id
                        != id by {
                        if j > 0 {
                            assert(conns.drop_first()[j - 1].id != id);
                        }
                    }
                },
                None => {
                    assert forall|j: int| 0 <= j < conns.len() implies (#[trigger] conns[j]).id
                        != id by {
                        if j > 0 {
                            assert(conns.drop_first()[j - 1].id != id);
                        }
                    }
                },
            }
        }
    }
}

fn find_connection_id(conns: &Vec<ConnectionDefinition>, id: usize) -> (r: Option<usize>)
    ensures
        match r {
            Some(u) => spec_find_id(conns@, id) == Some(u as int),
            None => spec_find_id(conns@, id) is None,
        },
{
    proof {
        lemma_find_id_first(conns@, id);
    }
    let mut i: usize = 0;
    while i < conns.len()
        invariant
            i <= conns@.len(),
            forall|j: int| 0 <= j < i ==> (#[trigger] conns@[j]).id != id,
        decreases conns@.len() - i,
    {
        if conns[i].id == id {
            proof {
                lemma_find_id_first(conns@, id);
            }
            return Some(i);
        }
        i += 1;
    }
    None
}

/// Resolve one wire endpoint against the block being built. An endpoint whose
/// `parent_block` is not this block's id is dropped — a wire may reference
/// only connections declared directly on the block that declares it. An id is
/// looked up among the declared inputs first, then among the outputs (whose
/// connections sit after the inputs in the built block's connection list).
pub open spec fn spec_resolve_ref(def: BlockDefinition, r: ConnectionDefinitionRef) -> Option<
    int,
> {
    if r.parent_block != def.id {
        None
    } else {
        match spec_find_id(def.inputs@, r.id) {
            Some(i) => Some(i),
            None => match spec_find_id(def.outputs@, r.id) {
                Some(j) => Some(def.inputs@.len() + j),
                None => None,
            },
        }
    }
}

/// Resolve a wire declaration's endpoints in order, dropping the ones that do
/// not resolve.
pub open spec fn spec_resolve_refs(
    def: BlockDefinition,
    refs: Seq<ConnectionDefinitionRef>,
) -> Seq<usize>
    decreases refs.len(),
{
    if refs.len() == 0 {
        Seq::empty()
    } else {
        let rest = spec_resolve_refs(def, refs.drop_last());
        match spec_resolve_ref(def, refs.last()) {
            Some(i) => rest.push(i as usize),
            None => rest,
        }
    }
}

/// Every resolved endpoint is a valid index into the built block's connection
/// list (the declared inputs followed by the declared outputs).
proof fn lemma_resolve_refs_bounds(def: BlockDefinition, refs: Seq<ConnectionDefinitionRef>)
    ensures
        forall|k: int|
            0 <= k < spec_resolve_refs(def, refs).len() ==> (#[trigger] spec_resolve_refs(
                def,
                refs,
            )[k]) < def.inputs@.len() + def.outputs@.len(),
    decreases refs.len(),
{
    if refs.len() > 0 {
        lemma_resolve_refs_bounds(def, refs.drop_last());
        lemma_find_id_first(def.inputs@, refs.last().id);
        lemma_find_id_first(def.outputs@, refs.last().id);
        let rest = spec_resolve_refs(def, refs.drop_last());
        let bound = def.inputs@.len() + def.outputs@.len();
        match spec_resolve_ref(def, refs.last()) {
            Some(i) => {
                assert(0 <= i < bound);
                assert forall|k: int| 0 <= k < rest.push(i as usize).len() implies (
                #[trigger] rest.push(i as usize)[k]) < bound by {
                    if k < rest.len() {
                        assert(rest.push(i as usize)[k] == rest[k]);
                    }
                }
            },
            None => {},
        }
    }
}

/// An endpoint that names a `parent_block` other than the declaring block is
/// dropped without affecting how the remaining endpoints resolve: the wire is
/// built from the rest exactly as if the foreign endpoint were absent.
pub proof fn lemma_foreign_endpoint_dropped(
    def: BlockDefinition,
    refs: Seq<ConnectionDefinitionRef>,
    k: int,
)
    requires
        0 <= k < refs.len(),
        refs[k].parent_block != def.id,
    ensures
        spec_resolve_refs(def, refs) == spec_resolve_refs(def, refs.remove(k)),
    decreases refs.len(),
{
    if k == refs.len() - 1 {
        assert(refs.remove(k) =~= refs.drop_last());
    } else {
        lemma_foreign_endpoint_dropped(def, refs.drop_last(), k);
        assert(refs.remove(k).drop_last() =~= refs.drop_last().remove(k));
        assert(refs.remove(k).last() == refs.last());
    }
}

/// The connection list an instantiation creates: one connection per declared
/// input, in order and with the `Input` role, followed by one per declared
/// output with the `Output` role, each holding its declared initial value.
pub open spec fn spec_connections(def: BlockDefinition) -> Seq<Connection> {
    Seq::new(
        def.inputs@.len() + def.outputs@.len(),
        |i: int|
            if i < def.inputs@.len() {
                Connection { role: Role::Input, value: def.inputs@[i].value }
            } else {
                Connection { role: Role::Output, value: def.outputs@[i - def.inputs@.len()].value }
            },
    )
}

/// `b` is the instantiation of `def`: same identity and size, the declared
/// connections with their declared roles and initial values, each wire
/// declaration resolved in order, and every inner definition instantiated
/// recursively.
pub open spec fn is_instantiation(def: BlockDefinition, b: Block) -> bool
    decreases def,
{
    &&& b.id == def.id
    &&& b.size_x == def.size_x
    &&& b.size_y == def.size_y
    &&& b.input_count == def.inputs@.len()
    &&& b.connections@ == spec_connections(def)
    &&& b.wires@.len() == def.wires@.len()
    &&& forall|k: int|
        0 <= k < def.wires@.len() ==> (#[trigger] b.wires@[k]).connections@ == spec_resolve_refs(
            def,
            def.wires@[k].connections@,
        )
    &&& b.children@.len() == def.inner_blocks@.len()
    &&& forall|k: int|
        0 <= k < def.inner_blocks@.len() ==> is_instantiation(
            def.inner_blocks@[k],
            #[trigger] b.children@[k],
        )
}

/// Build the live block subtree a definition describes. The result is well
/// formed, so it is ready for propagation.
pub fn instantiate(def: &BlockDefinition) -> (b: Block)
    ensures
        is_instantiation(*def, b),
        b.wf(),
    decreases *def,
{
    // The connections: declared inputs first, then declared outputs.
    let mut connections: Vec<Connection> = Vec::new();
    let input_count = def.inputs.len();
    let mut i: usize = 0;
    while i < input_count
        invariant
            i <= input_count,
            input_count == def.inputs@.len(),
            connections@.len() == i,
            forall|j: int|
                0 <= j < i ==> (#[trigger] connections@[j]) == spec_connections(*def)[j],
        decreases input_count - i,
    {
        connections.push(Connection { role: Role::Input, value: def.inputs[i].value });
        i += 1;
    }
    let mut o: usize = 0;
    while o < def.outputs.len()
        invariant
            o <= def.outputs@.len(),
            input_count == def.inputs@.len(),
            connections@.len() == input_count + o,
            forall|j: int|
                0 <= j < connections@.len() ==> (#[trigger] connections@[j]) == spec_connections(
                    *def,
                )[j],
        decreases def.outputs@.len() - o,
    {
        connections.push(Connection { role: Role::Output, value: def.outputs[o].value });
        o += 1;
    }
    proof {
        assert(connections@ =~= spec_connections(*def));
    }
    let connection_count = connections.len();

    // The child blocks, each from its inner definition.
    let mut children: Vec<Block> = Vec::new();
    let mut c: usize = 0;
    while c < def.inner_blocks.len()
        invariant
            c <= def.inner_blocks@.len(),
            children@.len() == c,
            forall|k: int|
                0 <= k < c ==> is_instantiation(def.inner_blocks@[k], #[trigger] children@[k]),
            forall|k: int| 0 <= k < c ==> (#[trigger] children@[k]).wf(),
        decreases def.inner_blocks@.len() - c,
    {
        proof {
            assert(decreases_to!(*def => def.inner_blocks));
            assert(decreases_to!(def.inner_blocks => def.inner_blocks@[c as int]));
        }
        let child = instantiate(&def.inner_blocks[c]);
        children.push(child);
        c += 1;
    }

    // The wires, each from its declaration, endpoints resolved in order.
    let mut wires: Vec<Wire> = Vec::new();
    let mut w: usize = 0;
    while w < def.wires.len()
        invariant
            w <= def.wires@.len(),
            wires@.len() == w,
            input_count == def.inputs@.len(),
            connection_count == def.inputs@.len() + def.outputs@.len(),
            forall|k: int|
                0 <= k < w ==> (#[trigger] wires@[k]).connections@ == spec_resolve_refs(
                    *def,
                    def.wires@[k].connections@,
                ),
        decreases def.wires@.len() - w,
    {
        let ghost refs = def.wires@[w as int].connections@;
        let mut members: Vec<usize> = Vec::new();
        let mut k: usize = 0;
        while k < def.wires[w].connections.len()
            invariant
                w < def.wires@.len(),
                k <= refs.len(),
                refs == def.wires@[w as int].connections@,
                input_count == def.inputs@.len(),
                connection_count == def.inputs@.len() + def.outputs@.len(),
                members@ == spec_resolve_refs(*def, refs.take(k as int)),
            decreases refs.len() - k,
        {
            let r = def.wires[w].connections[k];
            if r.parent_block != def.id {
                // Endpoint in another block's scope: dropped, the wire goes on
                // without it.
            } else if let Some(idx) = find_connection_id(&def.inputs, r.id) {
                members.push(idx);
            } else if let Some(idx) = find_connection_id(&def.outputs, r.id) {
                proof {
                    lemma_find_id_first(def.outputs@, r.id);
                }
                members.push(input_count + idx);
            }
            proof {
                assert(refs.take(k as int + 1).drop_last() =~= refs.take(k as int));
                assert(refs.take(k as int + 1).last() == refs[k as int]);
            }
            k += 1;
        }
        proof {
            assert(refs.take(refs.len() as int) =~= refs);
        }
        wires.push(Wire { connections: members });
        w += 1;
    }

    let b = Block {
        id: def.id,
        size_x: def.size_x,
        size_y: def.size_y,
        input_count,
        connections,
        children,
        wires,
    };
    proof {
        assert(b.connections@ == spec_connections(*def));
        assert forall|idx: int| 0 <= idx < b.connections@.len() implies (
        #[trigger] b.connections@[idx]).role == (if idx < b.input_count {
            Role::Input
        } else {
            Role::Output
        }) by {}
        assert forall|wk: int, j: int|
            0 <= wk < b.wires@.len() && 0 <= j < b.wires@[wk].connections@.len() implies (
        #[trigger] b.wires@[wk].connections@[j]) < b.connections@.len() by {
            lemma_resolve_refs_bounds(*def, def.wires@[wk].connections@);
        }
    }
    b
}

} // verus!
