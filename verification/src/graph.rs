//! The live circuit graph and the per-tick propagator.
//!
//! A `Block` owns its connections, its nested child blocks, and the wires
//! declared at its own nesting level. A wire's members are indices into the
//! owning block's connection list, so a block subtree is a self-contained
//! value: discarding a block discards its whole subtree.
//!
//! Each tick, every wire independently folds the values of its `Input`-role
//! members with `merge` (seeded with a one-bit `false` value) and writes the
//! folded value to all of its `Output`-role members. Wires are processed in
//! declaration order; a connection written by two wires ends the tick with
//! the later wire's value. Propagation is single-pass: it does not iterate to
//! a fixed point within a tick.

use vstd::prelude::*;
use crate::signal::ConnectionValues;
use crate::signal::spec_merge;

verus! {

/// The direction of a connection relative to its owning block.
#[derive(Clone, Copy, Debug, PartialEq, Eq, Structural)]
pub enum Role {
    Input,
    Output,
}

/// A single signal endpoint, owned by exactly one block.
#[derive(Clone, Copy, Debug, PartialEq, Eq, Structural)]
pub struct Connection {
    pub role: Role,
    pub value: ConnectionValues,
}

/// A wire joins connections of its owning block: the members are indices into
/// that block's connection list.
#[derive(Debug)]
pub struct Wire {
    pub connections: Vec<usize>,
}

/// A live block: its identity, a size placeholder kept for the renderer
/// (uninterpreted here), its connections (inputs first, then outputs), its
/// nested child blocks, and the wires declared at its level.
#[derive(Debug)]
pub struct Block {
    pub id: usize,
    pub size_x: i32,
    pub size_y: i32,
    pub input_count: usize,
    pub connections: Vec<Connection>,
    pub children: Vec<Block>,
    pub wires: Vec<Wire>,
}

/// Every member index of every wire is within bounds for a connection list of
/// length `n`.
pub open spec fn wires_in_bounds(wires: Seq<Wire>, n: int) -> bool {
    forall|w: int, j: int|
        0 <= w < wires.len() && 0 <= j < wires[w].connections@.len() ==> (
        #[trigger] wires[w].connections@[j]) < n
}

impl Block {
    /// Well-formedness: the first `input_count` connections are the inputs
    /// and carry the `Input` role, the rest carry the `Output` role, every
    /// wire member is in bounds, and all children are well formed.
    pub open spec fn wf(self) -> bool
        decreases self,
    {
        &&& self.input_count <= self.connections@.len()
        &&& forall|i: int|
            0 <= i < self.connections@.len() ==> (#[trigger] self.connections@[i]).role == (if i
                < self.input_count {
                Role::Input
            } else {
                Role::Output
            })
        &&& wires_in_bounds(self.wires@, self.connections@.len() as int)
        &&& forall|c: int| 0 <= c < self.children@.len() ==> (#[trigger] self.children@[c]).wf()
    }
}

/// The folded value a wire drives: the `merge` of the values of its
/// `Input`-role members, in member order, seeded with a one-bit `false`.
/// Members that are out of bounds or not inputs contribute nothing.
pub open spec fn spec_wire_fold(conns: Seq<Connection>, members: Seq<usize>) -> ConnectionValues
    decreases members.len(),
{
    if members.len() == 0 {
        ConnectionValues::Single(false)
    } else {
        let prev = spec_wire_fold(conns, members.drop_last());
        let m = members.last() as int;
        if 0 <= m < conns.len() && conns[m].role == Role::Input {
            spec_merge(prev, conns[m].value)
        } else {
            prev
        }
    }
}

/// The connection list after a wire writes its folded value `v` to each of
/// its `Output`-role members, in member order.
pub open spec fn spec_write_members(
    conns: Seq<Connection>,
    members: Seq<usize>,
    v: ConnectionValues,
) -> Seq<Connection>
    decreases members.len(),
{
    if members.len() == 0 {
        conns
    } else {
        let prev = spec_write_members(conns, members.drop_last(), v);
        let m = members.last() as int;
        if 0 <= m < prev.len() && prev[m].role == Role::Output {
            prev.update(m, Connection { role: Role::Output, value: v })
        } else {
            prev
        }
    }
}

/// One wire's full effect: gather and fold the inputs, then write the folded
/// value to the outputs. The fold reads the list as the wire finds it.
pub open spec fn spec_apply_wire(conns: Seq<Connection>, members: Seq<usize>) -> Seq<Connection> {
    spec_write_members(conns, members, spec_wire_fold(conns, members))
}

/// The connection list after all wires have been applied, in declaration
/// order; each wire reads the state the previous wires left behind.
pub open spec fn spec_run_wires(conns: Seq<Connection>, wires: Seq<Wire>) -> Seq<Connection>
    decreases wires.len(),
{
    if wires.len() == 0 {
        conns
    } else {
        spec_apply_wire(spec_run_wires(conns, wires.drop_last()), wires.last().connections@)
    }
}

/// `post` is the state of `pre` after one propagation tick: its own wires
/// applied in order to its connections, every child propagated recursively,
/// and everything else unchanged.
pub open spec fn is_propagation(pre: Block, post: Block) -> bool
    decreases pre,
{
    &&& post.id == pre.id
    &&& post.size_x == pre.size_x
    &&& post.size_y == pre.size_y
    &&& post.input_count == pre.input_count
    &&& post.wires == pre.wires
    &&& post.connections@ == spec_run_wires(pre.connections@, pre.wires@)
    &&& post.children@.len() == pre.children@.len()
    &&& forall|c: int|
        0 <= c < pre.children@.len() ==> is_propagation(
            pre.children@[c],
            #[trigger] post.children@[c],
        )
}

/// Writing a wire's value never changes the list's length or any
/// connection's role.
proof fn lemma_write_members_shape(conns: Seq<Connection>, members: Seq<usize>, v: ConnectionValues)
    ensures
        spec_write_members(conns, members, v).len() == conns.len(),
        forall|i: int|
            0 <= i < conns.len() ==> (#[trigger] spec_write_members(conns, members, v)[i]).role
                == conns[i].role,
    decreases members.len(),
{
    if members.len() > 0 {
        lemma_write_members_shape(conns, members.drop_last(), v);
    }
}

/// Running wires never changes the list's length or any connection's role.
proof fn lemma_run_wires_shape(conns: Seq<Connection>, wires: Seq<Wire>)
    ensures
        spec_run_wires(conns, wires).len() == conns.len(),
        forall|i: int|
            0 <= i < conns.len() ==> (#[trigger] spec_run_wires(conns, wires)[i]).role
                == conns[i].role,
    decreases wires.len(),
{
    if wires.len() > 0 {
        lemma_run_wires_shape(conns, wires.drop_last());
        lemma_write_members_shape(
            spec_run_wires(conns, wires.drop_last()),
            wires.last().connections@,
            spec_wire_fold(spec_run_wires(conns, wires.drop_last()), wires.last().connections@),
        );
    }
}

/// A wire's write reaches each of its `Output`-role members: that member ends
/// the write holding exactly the wire's folded value.
proof fn lemma_write_members_hit(
    conns: Seq<Connection>,
    members: Seq<usize>,
    v: ConnectionValues,
    c: int,
)
    requires
        0 <= c < conns.len(),
        conns[c].role == Role::Output,
        exists|k: int| 0 <= k < members.len() && members[k] == c,
    ensures
        spec_write_members(conns, members, v)[c] == (Connection { role: Role::Output, value: v }),
    decreases members.len(),
{
    lemma_write_members_shape(conns, members.drop_last(), v);
    let prev = spec_write_members(conns, members.drop_last(), v);
    if members.last() == c {
        assert(prev[c].role == Role::Output);
    } else {
        let k = choose|k: int| 0 <= k < members.len() && members[k] == c;
        assert(members.drop_last()[k] == c);
        lemma_write_members_hit(conns, members.drop_last(), v, c);
    }
}

/// A wire's write leaves every connection that is not among its members
/// untouched.
proof fn lemma_write_members_miss(
    conns: Seq<Connection>,
    members: Seq<usize>,
    v: ConnectionValues,
    c: int,
)
    requires
        0 <= c < conns.len(),
        forall|j: int| 0 <= j < members.len() ==> (#[trigger] members[j]) != c,
    ensures
        spec_write_members(conns, members, v)[c] == conns[c],
    decreases members.len(),
{
    if members.len() > 0 {
        lemma_write_members_shape(conns, members.drop_last(), v);
        lemma_write_members_miss(conns, members.drop_last(), v, c);
        assert(members[members.len() - 1] != c);
        assert(members.last() == members[members.len() - 1]);
    }
}

/// A wire's write leaves every connection that does not carry the `Output`
/// role untouched, member of the wire or not.
proof fn lemma_write_members_skips_non_outputs(
    conns: Seq<Connection>,
    members: Seq<usize>,
    v: ConnectionValues,
    c: int,
)
    requires
        0 <= c < conns.len(),
        conns[c].role != Role::Output,
    ensures
        spec_write_members(conns, members, v)[c] == conns[c],
    decreases members.len(),
{
    if members.len() > 0 {
        lemma_write_members_shape(conns, members.drop_last(), v);
        lemma_write_members_skips_non_outputs(conns, members.drop_last(), v, c);
    }
}

/// A tick never changes an `Input`-role connection: wires write only to their
/// `Output`-role members, so the values gathered into a fold all date from
/// before the tick.
pub proof fn lemma_inputs_unchanged(conns: Seq<Connection>, wires: Seq<Wire>, c: int)
    requires
        0 <= c < conns.len(),
        conns[c].role == Role::Input,
    ensures
        spec_run_wires(conns, wires)[c] == conns[c],
    decreases wires.len(),
{
    if wires.len() > 0 {
        lemma_inputs_unchanged(conns, wires.drop_last(), c);
        lemma_run_wires_shape(conns, wires.drop_last());
        lemma_write_members_skips_non_outputs(
            spec_run_wires(conns, wires.drop_last()),
            wires.last().connections@,
            spec_wire_fold(spec_run_wires(conns, wires.drop_last()), wires.last().connections@),
            c,
        );
    }
}

/// The hazard a connection driven by more than one wire resolves to: the last
/// wire that lists it as a member wins. If connection `c` has the `Output`
/// role, is a member of wire `w`, and is a member of no later wire, then the
/// tick leaves `c` holding exactly wire `w`'s folded value, computed in the
/// state wire `w` found — one driving wire's value, never a mixture.
pub proof fn lemma_last_wire_wins(conns: Seq<Connection>, wires: Seq<Wire>, w: int, c: int)
    requires
        0 <= w < wires.len(),
        0 <= c < conns.len(),
        conns[c].role == Role::Output,
        exists|k: int| 0 <= k < wires[w].connections@.len() && wires[w].connections@[k] == c,
        forall|w2: int, j: int|
            w < w2 < wires.len() && 0 <= j < wires[w2].connections@.len() ==> (
            #[trigger] wires[w2].connections@[j]) != c,
    ensures
        spec_run_wires(conns, wires)[c].value == spec_wire_fold(
            spec_run_wires(conns, wires.take(w)),
            wires[w].connections@,
        ),
    decreases wires.len(),
{
    let mid = spec_run_wires(conns, wires.drop_last());
    lemma_run_wires_shape(conns, wires.drop_last());
    if w == wires.len() - 1 {
        assert(wires.drop_last() =~= wires.take(w));
        lemma_write_members_hit(
            mid,
            wires[w].connections@,
            spec_wire_fold(mid, wires[w].connections@),
            c,
        );
    } else {
        assert forall|w2: int, j: int|
            w < w2 < wires.drop_last().len() && 0 <= j < wires.drop_last()[w2].connections@.len()
                implies (#[trigger] wires.drop_last()[w2].connections@[j]) != c by {
            assert(wires.drop_last()[w2] == wires[w2]);
            assert(wires[w2].connections@[j] != c);
        }
        let k0 = choose|k: int|
            0 <= k < wires[w].connections@.len() && wires[w].connections@[k] == c;
        assert(wires.drop_last()[w] == wires[w]);
        assert(wires.drop_last()[w].connections@[k0] == c);
        lemma_last_wire_wins(conns, wires.drop_last(), w, c);
        assert(wires.drop_last().take(w) =~= wires.take(w));
        assert forall|j: int|
            0 <= j < wires.last().connections@.len() implies (#[trigger] wires.last().connections@[j])
            != c by {
            assert(wires.last() == wires[wires.len() - 1]);
            assert(wires[wires.len() - 1].connections@[j] != c);
        }
        lemma_write_members_miss(
            mid,
            wires.last().connections@,
            spec_wire_fold(mid, wires.last().connections@),
            c,
        );
    }
}

impl Block {
    /// Run one propagation tick on this block's subtree: apply this block's
    /// wires to its connections in declaration order, then propagate every
    /// child.
    pub fn propagate(&mut self)
        requires
            old(self).wf(),
        ensures
            final(self).wf(),
            is_propagation(*old(self), *final(self)),
        decreases *old(self),
    {
        let wire_count = self.wires.len();
        let mut w: usize = 0;
        while w < wire_count
            invariant
                old(self).wf(),
                w <= wire_count,
                wire_count == self.wires@.len(),
                self.id == old(self).id,
                self.size_x == old(self).size_x,
                self.size_y == old(self).size_y,
                self.input_count == old(self).input_count,
                self.wires == old(self).wires,
                self.children == old(self).children,
                self.connections@ == spec_run_wires(
                    old(self).connections@,
                    old(self).wires@.take(w as int),
                ),
                self.connections@.len() == old(self).connections@.len(),
                forall|i: int|
                    0 <= i < self.connections@.len() ==> (#[trigger] self.connections@[i]).role
                        == old(self).connections@[i].role,
            decreases wire_count - w,
        {
            let ghost mid = *self;
            let member_count = self.wires[w].connections.len();

            // Gather and fold the values of the wire's input members.
            let mut acc = ConnectionValues::Single(false);
            let mut k: usize = 0;
            while k < member_count
                invariant
                    old(self).wf(),
                    *self == mid,
                    w < mid.wires@.len(),
                    member_count == mid.wires@[w as int].connections@.len(),
                    k <= member_count,
                    mid.connections@.len() == old(self).connections@.len(),
                    wires_in_bounds(mid.wires@, mid.connections@.len() as int),
                    acc == spec_wire_fold(
                        mid.connections@,
                        mid.wires@[w as int].connections@.take(k as int),
                    ),
                decreases member_count - k,
            {
                let ghost members = mid.wires@[w as int].connections@;
                let m = self.wires[w].connections[k];
                assert(m < self.connections@.len());
                let c = self.connections[m];
                if c.role == Role::Input {
                    acc = acc.merge(c.value);
                }
                proof {
                    assert(members.take(k as int + 1).drop_last() =~= members.take(k as int));
                    assert(members.take(k as int + 1).last() == members[k as int]);
                }
                k += 1;
            }

            // Write the folded value to the wire's output members.
            proof {
                assert(mid.wires@[w as int].connections@.take(member_count as int)
                    =~= mid.wires@[w as int].connections@);
            }
            let mut j: usize = 0;
            while j < member_count
                invariant
                    old(self).wf(),
                    w < mid.wires@.len(),
                    member_count == mid.wires@[w as int].connections@.len(),
                    j <= member_count,
                    self.id == mid.id,
                    self.size_x == mid.size_x,
                    self.size_y == mid.size_y,
                    self.input_count == mid.input_count,
                    self.wires == mid.wires,
                    self.children == mid.children,
                    mid.connections@.len() == old(self).connections@.len(),
                    wires_in_bounds(mid.wires@, mid.connections@.len() as int),
                    self.connections@ == spec_write_members(
                        mid.connections@,
                        mid.wires@[w as int].connections@.take(j as int),
                        acc,
                    ),
                    self.connections@.len() == mid.connections@.len(),
                    forall|i: int|
                        0 <= i < self.connections@.len() ==> (#[trigger] self.connections@[i]).role
                            == mid.connections@[i].role,
                decreases member_count - j,
            {
                let ghost members = mid.wires@[w as int].connections@;
                let m = self.wires[w].connections[j];
                assert(m < self.connections@.len());
                let c = self.connections[m];
                if c.role == Role::Output {
                    self.connections.set(m, Connection { role: Role::Output, value: acc });
                }
                proof {
                    assert(members.take(j as int + 1).drop_last() =~= members.take(j as int));
                    assert(members.take(j as int + 1).last() == members[j as int]);
                }
                j += 1;
            }

            proof {
                assert(mid.wires@[w as int].connections@.take(member_count as int)
                    =~= mid.wires@[w as int].connections@);
                assert(old(self).wires@.take(w as int + 1).drop_last() =~= old(self).wires@.take(
                    w as int,
                ));
                assert(old(self).wires@.take(w as int + 1).last() == old(self).wires@[w as int]);
                assert(self.connections@ == spec_run_wires(
                    old(self).connections@,
                    old(self).wires@.take(w as int + 1),
                ));
            }
            w += 1;
        }
        proof {
            assert(old(self).wires@.take(wire_count as int) =~= old(self).wires@);
        }

        // Propagate every child block.
        let child_count = self.children.len();
        let mut i: usize = 0;
        while i < child_count
            invariant
                old(self).wf(),
                i <= child_count,
                child_count == self.children@.len(),
                self.children@.len() == old(self).children@.len(),
                self.id == old(self).id,
                self.size_x == old(self).size_x,
                self.size_y == old(self).size_y,
                self.input_count == old(self).input_count,
                self.wires == old(self).wires,
                self.connections@ == spec_run_wires(old(self).connections@, old(self).wires@),
                self.connections@.len() == old(self).connections@.len(),
                forall|ci: int|
                    0 <= ci < self.connections@.len() ==> (
                    #[trigger] self.connections@[ci]).role == old(self).connections@[ci].role,
                forall|c: int|
                    i <= c < child_count ==> self.children@[c] == old(self).children@[c],
                forall|c: int|
                    0 <= c < i ==> is_propagation(
                        old(self).children@[c],
                        #[trigger] self.children@[c],
                    ),
                forall|c: int| 0 <= c < i ==> (#[trigger] self.children@[c]).wf(),
            decreases child_count - i,
        {
            proof {
                assert(self.children@[i as int] == old(self).children@[i as int]);
                assert(decreases_to!(*old(self) => old(self).children));
                assert(decreases_to!(old(self).children => old(self).children@[i as int]));
            }
            self.children[i].propagate();
            i += 1;
        }
    }
}

} // verus!
