use logic_sim::{
    Block, BlockDefinition, CircuitGraph, ConnectionDefinition, ConnectionDefinitionRef,
    ConnectionValues, Role, WireDefinition, instantiate,
};

fn leaf_def(
    id: usize,
    inputs: Vec<(usize, ConnectionValues)>,
    outputs: Vec<(usize, ConnectionValues)>,
    wires: Vec<Vec<(usize, usize)>>,
) -> BlockDefinition {
    BlockDefinition {
        id,
        size_x: 100,
        size_y: 60,
        name: format!("block {}", id),
        inner_blocks: Vec::new(),
        wires: wires
            .into_iter()
            .map(|refs| WireDefinition {
                connections: refs
                    .into_iter()
                    .map(|(parent_block, cid)| ConnectionDefinitionRef { parent_block, id: cid })
                    .collect(),
            })
            .collect(),
        inputs: inputs
            .into_iter()
            .map(|(cid, value)| ConnectionDefinition { id: cid, value })
            .collect(),
        outputs: outputs
            .into_iter()
            .map(|(cid, value)| ConnectionDefinition { id: cid, value })
            .collect(),
    }
}

#[test]
fn instantiate_creates_declared_connections() {
    let def = leaf_def(
        1,
        vec![(10, ConnectionValues::Byte(0xAA)), (11, ConnectionValues::Single(true))],
        vec![(20, ConnectionValues::X16(0))],
        vec![],
    );
    let b = instantiate(&def);
    assert_eq!(b.id, 1);
    assert_eq!(b.size_x, 100);
    assert_eq!(b.size_y, 60);
    assert_eq!(b.input_count, 2);
    assert_eq!(b.connections.len(), 3);
    assert_eq!(b.connections[0].role, Role::Input);
    assert_eq!(b.connections[0].value, ConnectionValues::Byte(0xAA));
    assert_eq!(b.connections[1].role, Role::Input);
    assert_eq!(b.connections[1].value, ConnectionValues::Single(true));
    assert_eq!(b.connections[2].role, Role::Output);
    assert_eq!(b.connections[2].value, ConnectionValues::X16(0));
    assert_eq!(b.children.len(), 0);
    assert_eq!(b.wires.len(), 0);
}

#[test]
fn one_tick_drives_the_output_from_the_input() {
    // one 4-bit input holding 1010, one 4-bit output holding 0000, one wire
    let input_value = ConnectionValues::HalfByte(false, true, false, true); // 1010, bit 0 first
    let def = leaf_def(
        1,
        vec![(10, input_value)],
        vec![(20, ConnectionValues::HalfByte(false, false, false, false))],
        vec![vec![(1, 10), (1, 20)]],
    );
    let mut graph = CircuitGraph::new();
    graph.load(&def);
    assert_eq!(graph.blocks.len(), 1);
    assert_eq!(graph.blocks[0].wires.len(), 1);
    assert_eq!(graph.blocks[0].wires[0].connections, vec![0, 1]);

    graph.tick();
    let block = &graph.blocks[0];
    assert_eq!(block.connections[0].value, input_value); // input untouched
    assert_eq!(block.connections[1].value, input_value); // output driven
}

#[test]
fn foreign_parent_endpoint_is_dropped() {
    // the wire names a parent_block id that is not the declaring block's id:
    // that endpoint is dropped, the rest of the wire still forms
    let def = leaf_def(
        1,
        vec![(10, ConnectionValues::Single(true))],
        vec![(20, ConnectionValues::Single(false))],
        vec![vec![(99, 10), (1, 10), (1, 20)]],
    );
    let b = instantiate(&def);
    assert_eq!(b.wires.len(), 1);
    assert_eq!(b.wires[0].connections, vec![0, 1]);
}

#[test]
fn unknown_connection_id_is_dropped() {
    let def = leaf_def(
        1,
        vec![(10, ConnectionValues::Single(true))],
        vec![(20, ConnectionValues::Single(false))],
        vec![vec![(1, 777), (1, 20)]],
    );
    let b = instantiate(&def);
    assert_eq!(b.wires.len(), 1);
    assert_eq!(b.wires[0].connections, vec![1]);
}

#[test]
fn all_endpoints_dropped_leaves_an_empty_wire() {
    let def = leaf_def(
        1,
        vec![(10, ConnectionValues::Single(true))],
        vec![],
        vec![vec![(2, 10), (1, 999)]],
    );
    let b = instantiate(&def);
    assert_eq!(b.wires.len(), 1);
    assert_eq!(b.wires[0].connections, Vec::<usize>::new());
}

#[test]
fn duplicate_id_resolves_to_the_first_declared_input() {
    // the id is looked up among the inputs first, then the outputs
    let def = leaf_def(
        1,
        vec![(10, ConnectionValues::Single(true))],
        vec![(10, ConnectionValues::Single(false))],
        vec![vec![(1, 10)]],
    );
    let b = instantiate(&def);
    assert_eq!(b.wires[0].connections, vec![0]);
}

#[test]
fn nested_children_are_instantiated_and_propagated() {
    let child = leaf_def(
        7,
        vec![(1, ConnectionValues::Byte(0x0F))],
        vec![(2, ConnectionValues::Byte(0))],
        vec![vec![(7, 1), (7, 2)]],
    );
    let mut def = leaf_def(1, vec![], vec![], vec![]);
    def.inner_blocks.push(child);

    let mut graph = CircuitGraph::new();
    graph.load(&def);
    let child_block = &graph.blocks[0].children[0];
    assert_eq!(child_block.id, 7);
    assert_eq!(child_block.connections[1].value, ConnectionValues::Byte(0));

    graph.tick();
    let child_block = &graph.blocks[0].children[0];
    assert_eq!(child_block.connections[1].value, ConnectionValues::Byte(0x0F));
}

#[test]
fn wire_without_inputs_drives_the_seed_value() {
    // a wire with no input members folds to the one-bit false seed and
    // overwrites its outputs with it, whatever they held before
    let def = leaf_def(
        1,
        vec![],
        vec![(20, ConnectionValues::Byte(0xFF))],
        vec![vec![(1, 20)]],
    );
    let mut graph = CircuitGraph::new();
    graph.load(&def);
    graph.tick();
    assert_eq!(
        graph.blocks[0].connections[0].value,
        ConnectionValues::Single(false)
    );
}

#[test]
fn output_members_contribute_nothing_to_the_fold() {
    let def = leaf_def(
        1,
        vec![],
        vec![
            (20, ConnectionValues::Byte(0xFF)),
            (21, ConnectionValues::Byte(0x55)),
        ],
        vec![vec![(1, 20), (1, 21)]],
    );
    let mut graph = CircuitGraph::new();
    graph.load(&def);
    graph.tick();
    // both outputs are overwritten with the seed, not each other's value
    assert_eq!(graph.blocks[0].connections[0].value, ConnectionValues::Single(false));
    assert_eq!(graph.blocks[0].connections[1].value, ConnectionValues::Single(false));
}

#[test]
fn merged_inputs_drive_the_output() {
    let def = leaf_def(
        1,
        vec![
            (10, ConnectionValues::Byte(0b0000_1111)),
            (11, ConnectionValues::X16(0xFF00)),
        ],
        vec![(20, ConnectionValues::Single(false))],
        vec![vec![(1, 10), (1, 11), (1, 20)]],
    );
    let mut graph = CircuitGraph::new();
    graph.load(&def);
    graph.tick();
    assert_eq!(graph.blocks[0].connections[2].value, ConnectionValues::X16(0xFF0F));
}

fn collect_values(b: &Block, out: &mut Vec<ConnectionValues>) {
    for c in &b.connections {
        out.push(c.value);
    }
    for child in &b.children {
        collect_values(child, out);
    }
}

#[test]
fn reload_replaces_the_whole_subtree() {
    let old_child = leaf_def(5, vec![(1, ConnectionValues::Byte(0xAA))], vec![], vec![]);
    let mut old_def = leaf_def(1, vec![(10, ConnectionValues::X32(0xAAAA_AAAA))], vec![], vec![]);
    old_def.inner_blocks.push(old_child);

    let mut graph = CircuitGraph::new();
    graph.load(&old_def);
    assert_eq!(graph.blocks.len(), 1);

    let new_def = leaf_def(
        1,
        vec![(10, ConnectionValues::Byte(0x55))],
        vec![(20, ConnectionValues::Single(true))],
        vec![],
    );
    graph.load(&new_def);

    // still exactly one top-level block with this id, and nothing of the old
    // subtree's connections survives anywhere in the graph
    assert_eq!(graph.blocks.len(), 1);
    assert_eq!(graph.blocks[0].id, 1);
    assert_eq!(graph.blocks[0].children.len(), 0);
    let mut values = Vec::new();
    for b in &graph.blocks {
        collect_values(b, &mut values);
    }
    assert!(!values.contains(&ConnectionValues::Byte(0xAA)));
    assert!(!values.contains(&ConnectionValues::X32(0xAAAA_AAAA)));
    assert_eq!(
        values,
        vec![ConnectionValues::Byte(0x55), ConnectionValues::Single(true)]
    );
}

#[test]
fn load_keeps_blocks_with_other_ids() {
    let mut graph = CircuitGraph::new();
    graph.load(&leaf_def(1, vec![], vec![], vec![]));
    graph.load(&leaf_def(2, vec![], vec![], vec![]));
    graph.load(&leaf_def(1, vec![(10, ConnectionValues::Single(true))], vec![], vec![]));
    assert_eq!(graph.blocks.len(), 2);
    assert_eq!(graph.blocks[0].id, 2);
    assert_eq!(graph.blocks[1].id, 1);
    assert_eq!(graph.blocks[1].connections.len(), 1);
}

#[test]
fn output_driven_by_two_wires_holds_the_last_wire_value() {
    // connection 2 (the output) is a member of both wires; the wire processed
    // last wins, and the result is one wire's value, never a mixture
    let def = leaf_def(
        1,
        vec![
            (10, ConnectionValues::Byte(0x0F)),
            (11, ConnectionValues::Byte(0xF0)),
        ],
        vec![(20, ConnectionValues::Byte(0))],
        vec![vec![(1, 10), (1, 20)], vec![(1, 11), (1, 20)]],
    );
    let mut graph = CircuitGraph::new();
    graph.load(&def);
    graph.tick();
    let held = graph.blocks[0].connections[2].value;
    let candidate_a = ConnectionValues::Byte(0x0F);
    let candidate_b = ConnectionValues::Byte(0xF0);
    assert!(held == candidate_a || held == candidate_b);
    assert_eq!(held, candidate_b); // the later wire
}

#[test]
fn propagation_is_single_pass_per_tick() {
    // wire order: the wire writing the output runs before the wire that would
    // feed it, so the value crosses one wire per tick
    let def = leaf_def(
        1,
        vec![(10, ConnectionValues::Single(true))],
        vec![
            (20, ConnectionValues::Single(false)),
            (21, ConnectionValues::Single(false)),
        ],
        vec![vec![(1, 20), (1, 21)], vec![(1, 10), (1, 20)]],
    );
    let mut graph = CircuitGraph::new();
    graph.load(&def);
    graph.tick();
    // wire 0 ran before wire 1 wrote connection 1, and outputs never feed a
    // fold, so connection 2 still holds the seed
    assert_eq!(graph.blocks[0].connections[1].value, ConnectionValues::Single(true));
    assert_eq!(graph.blocks[0].connections[2].value, ConnectionValues::Single(false));
}
