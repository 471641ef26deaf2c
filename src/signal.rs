//! Typed, thread-tagged handles to the nodes of a runtime, and the operations on them.
use crate::graph::MAX_INDEX;
use crate::runtime::{effect_recorded, rerun_recorded, write_outcome, NodeState, Runtime};
use crate::value::HasSchema;
use std::marker::PhantomData;
use vstd::prelude::*;

verus! {

/// The identity of a node: its index in the graph and the thread that created it.
#[derive(Clone, Copy, Debug)]
pub struct NodeId {
    idx: usize,
    thread: u64,
}

impl NodeId {
    pub closed spec fn spec_idx(self) -> nat {
        self.idx as nat
    }

    pub closed spec fn spec_thread(self) -> u64 {
        self.thread
    }

    /// The node `idx`, created on thread `thread`.
    pub fn new(idx: usize, thread: u64) -> (r: NodeId)
        ensures
            r.spec_idx() == idx,
            r.spec_thread() == thread,
    {
        NodeId { idx, thread }
    }

    /// The thread that this node was created on.
    pub fn thread(&self) -> (r: u64)
        ensures
            r == self.spec_thread(),
    {
        self.thread
    }

    /// The node's index in the graph.
    pub fn idx(&self) -> (r: usize)
        ensures
            r == self.spec_idx(),
    {
        self.idx
    }

    /// Whether this node belongs to the runtime `rt`, that is to the thread that owns it.
    pub fn is_local(&self, rt: &Runtime) -> (r: bool)
        ensures
            r == (self.spec_thread() == rt.owner()),
    {
        self.thread == rt.thread()
    }
}

/// The handle `id` may be used on `rt` for values of type `T`: it was created on the thread
/// that owns `rt`, and its node exists and holds a `T`.
pub open spec fn node_valid<T: HasSchema>(id: NodeId, rt: &Runtime) -> bool {
    &&& id.spec_thread() == rt.owner()
    &&& id.spec_idx() < rt.len()
    &&& rt.values()[id.spec_idx() as int].spec_schema() == T::schema_of()
}

/// A handle created on another thread than the one that owns `rt` is never valid for it, so
/// no operation on a handle can be made from a foreign thread.
pub proof fn lemma_foreign_handle_invalid<T: HasSchema>(id: NodeId, rt: &Runtime)
    requires
        id.spec_thread() != rt.owner(),
    ensures
        !node_valid::<T>(id, rt),
{
}

/// Reads the node of a valid handle, recording the read in the open scope if there is one.
fn read_typed<T: HasSchema>(rt: &mut Runtime, id: NodeId) -> (r: T)
    requires
        old(rt).wf(),
        node_valid::<T>(id, old(rt)),
    ensures
        final(rt).wf(),
        r.to_value() == old(rt).values()[id.spec_idx() as int],
        final(rt).scope() == (match old(rt).scope() {
            Some(s) => Some(s.push(id.spec_idx() as usize)),
            None => None,
        }),
        final(rt).states() == old(rt).states(),
        final(rt).values() == old(rt).values(),
        final(rt).edges() == old(rt).edges(),
        final(rt).owner() == old(rt).owner(),
        final(rt).len() == old(rt).len(),
{
    let v = rt.read(id.idx());
    match T::cast(&v) {
        Some(x) => x,
        None => {
            proof {
                assert(false);
            }
            T::cast(&v).unwrap()
        },
    }
}

/// Write `value` to the node of a valid handle; returns the effects to evaluate again.
fn write_typed<T: HasSchema>(rt: &mut Runtime, id: NodeId, value: T) -> (effects: Vec<usize>)
    requires
        old(rt).wf(),
        node_valid::<T>(id, old(rt)),
    ensures
        final(rt).wf(),
        final(rt).extends(old(rt)),
        final(rt).values() == old(rt).values().update(id.spec_idx() as int, value.to_value()),
        final(rt).edges() == old(rt).edges(),
        final(rt).scope() == old(rt).scope(),
        final(rt).len() == old(rt).len(),
        effects@.no_duplicates(),
        forall|x: usize|
            effects@.contains(x) <==> crate::runtime::scheduled_by(
                old(rt).edges(),
                id.spec_idx(),
                x as nat,
            ),
        forall|i: int|
            0 <= i < old(rt).len() ==> #[trigger] final(rt).states()[i]
                == crate::runtime::state_after_write(
                old(rt).edges(),
                old(rt).states(),
                id.spec_idx(),
                i as nat,
            ),
{
    let v = value.into_value();
    proof {
        rt.lemma_wf_facts();
    }
    let effects = rt.write(id.idx(), v);
    proof {
        rt.lemma_wf_facts();
    }
    effects
}

/// A handle that reads a signal.
pub struct ReadSignal<T> {
    id: NodeId,
    _phantom: PhantomData<T>,
}

/// A handle that writes a signal.
pub struct WriteSignal<T> {
    id: NodeId,
    _phantom: PhantomData<T>,
}

/// A handle that both reads and writes a signal.
pub struct RwSignal<T> {
    id: NodeId,
    _phantom: PhantomData<T>,
}

/// A handle to the node that holds an effect's latest result.
pub struct Effect<R> {
    id: NodeId,
    _phantom: PhantomData<R>,
}

impl<T: HasSchema> ReadSignal<T> {
    pub closed spec fn id(&self) -> NodeId {
        self.id
    }

    pub open spec fn valid(&self, rt: &Runtime) -> bool {
        node_valid::<T>(self.id(), rt)
    }

    fn from_id(id: NodeId) -> (r: Self)
        ensures
            r.id() == id,
    {
        ReadSignal { id, _phantom: PhantomData }
    }

    /// The signal's node.
    pub fn node(&self) -> (r: NodeId)
        ensures
            r == self.id(),
    {
        self.id
    }

    /// The signal's value; inside an effect body the read becomes a dependency.
    pub fn get(&self, rt: &mut Runtime) -> (r: T)
        requires
            old(rt).wf(),
            self.valid(old(rt)),
        ensures
            final(rt).wf(),
            r.to_value() == old(rt).values()[self.id().spec_idx() as int],
            final(rt).scope() == (match old(rt).scope() {
                Some(s) => Some(s.push(self.id().spec_idx() as usize)),
                None => None,
            }),
            final(rt).states() == old(rt).states(),
            final(rt).values() == old(rt).values(),
            final(rt).edges() == old(rt).edges(),
            final(rt).owner() == old(rt).owner(),
            final(rt).len() == old(rt).len(),
    {
        read_typed(rt, self.id)
    }

    /// Applies `f` to the signal's value; inside an effect body the read becomes a dependency.
    pub fn with<F: FnOnce(&T) -> R, R>(&self, rt: &mut Runtime, f: F) -> (r: R)
        requires
            old(rt).wf(),
            self.valid(old(rt)),
            forall|x: &T| #[trigger] f.requires((x,)),
        ensures
            final(rt).wf(),
            exists|x: T| x.to_value() == old(rt).values()[self.id().spec_idx() as int] && f.ensures((&x,), r),
            final(rt).scope() == (match old(rt).scope() {
                Some(s) => Some(s.push(self.id().spec_idx() as usize)),
                None => None,
            }),
            final(rt).states() == old(rt).states(),
            final(rt).values() == old(rt).values(),
            final(rt).edges() == old(rt).edges(),
            final(rt).owner() == old(rt).owner(),
            final(rt).len() == old(rt).len(),
    {
        let x: T = read_typed(rt, self.id);
        f(&x)
    }
}

impl<T: HasSchema> WriteSignal<T> {
    pub closed spec fn id(&self) -> NodeId {
        self.id
    }

    pub open spec fn valid(&self, rt: &Runtime) -> bool {
        node_valid::<T>(self.id(), rt)
    }

    fn from_id(id: NodeId) -> (r: Self)
        ensures
            r.id() == id,
    {
        WriteSignal { id, _phantom: PhantomData }
    }

    /// The signal's node.
    pub fn node(&self) -> (r: NodeId)
        ensures
            r == self.id(),
    {
        self.id
    }

    /// Stores `value`, marks the signal `Dirty` and propagates; returns, each once, the
    /// effects that depend on the signal and must be evaluated again.
    pub fn set(&self, rt: &mut Runtime, value: T) -> (effects: Vec<usize>)
        requires
            old(rt).wf(),
            self.valid(old(rt)),
        ensures
            final(rt).wf(),
            final(rt).extends(old(rt)),
            write_outcome(*old(rt), *final(rt), self.id().spec_idx(), value.to_value(), effects@),
            forall|i: int|
                0 <= i < old(rt).len() ==> #[trigger] final(rt).states()[i]
                    == crate::runtime::state_after_write(
                    old(rt).edges(),
                    old(rt).states(),
                    self.id().spec_idx(),
                    i as nat,
                ),
    {
        write_typed(rt, self.id, value)
    }
}

impl<T: HasSchema> RwSignal<T> {
    pub closed spec fn id(&self) -> NodeId {
        self.id
    }

    pub open spec fn valid(&self, rt: &Runtime) -> bool {
        node_valid::<T>(self.id(), rt)
    }

    fn from_id(id: NodeId) -> (r: Self)
        ensures
            r.id() == id,
    {
        RwSignal { id, _phantom: PhantomData }
    }

    /// The signal's node.
    pub fn node(&self) -> (r: NodeId)
        ensures
            r == self.id(),
    {
        self.id
    }

    /// A handle that reads and writes the signal of `read`.
    pub fn from_read(read: &ReadSignal<T>) -> (r: Self)
        ensures
            r.id() == read.id(),
    {
        RwSignal::from_id(read.id)
    }

    /// The signal's value; inside an effect body the read becomes a dependency.
    pub fn get(&self, rt: &mut Runtime) -> (r: T)
        requires
            old(rt).wf(),
            self.valid(old(rt)),
        ensures
            final(rt).wf(),
            r.to_value() == old(rt).values()[self.id().spec_idx() as int],
            final(rt).scope() == (match old(rt).scope() {
                Some(s) => Some(s.push(self.id().spec_idx() as usize)),
                None => None,
            }),
            final(rt).states() == old(rt).states(),
            final(rt).values() == old(rt).values(),
            final(rt).edges() == old(rt).edges(),
            final(rt).owner() == old(rt).owner(),
            final(rt).len() == old(rt).len(),
    {
        read_typed(rt, self.id)
    }

    /// Applies `f` to the signal's value; inside an effect body the read becomes a dependency.
    pub fn with<F: FnOnce(&T) -> R, R>(&self, rt: &mut Runtime, f: F) -> (r: R)
        requires
            old(rt).wf(),
            self.valid(old(rt)),
            forall|x: &T| #[trigger] f.requires((x,)),
        ensures
            final(rt).wf(),
            exists|x: T| x.to_value() == old(rt).values()[self.id().spec_idx() as int] && f.ensures((&x,), r),
            final(rt).scope() == (match old(rt).scope() {
                Some(s) => Some(s.push(self.id().spec_idx() as usize)),
                None => None,
            }),
            final(rt).states() == old(rt).states(),
            final(rt).values() == old(rt).values(),
            final(rt).edges() == old(rt).edges(),
            final(rt).owner() == old(rt).owner(),
            final(rt).len() == old(rt).len(),
    {
        let x: T = read_typed(rt, self.id);
        f(&x)
    }

    /// Stores `value`, marks the signal `Dirty` and propagates; returns, each once, the
    /// effects that depend on the signal and must be evaluated again.
    pub fn set(&self, rt: &mut Runtime, value: T) -> (effects: Vec<usize>)
        requires
            old(rt).wf(),
            self.valid(old(rt)),
        ensures
            final(rt).wf(),
            final(rt).extends(old(rt)),
            write_outcome(*old(rt), *final(rt), self.id().spec_idx(), value.to_value(), effects@),
            forall|i: int|
                0 <= i < old(rt).len() ==> #[trigger] final(rt).states()[i]
                    == crate::runtime::state_after_write(
                    old(rt).edges(),
                    old(rt).states(),
                    self.id().spec_idx(),
                    i as nat,
                ),
    {
        write_typed(rt, self.id, value)
    }
}

impl<R: HasSchema> Effect<R> {
    pub closed spec fn id(&self) -> NodeId {
        self.id
    }

    pub open spec fn valid(&self, rt: &Runtime) -> bool {
        node_valid::<R>(self.id(), rt)
    }

    /// A handle to the effect node `id`.
    pub fn from_id(id: NodeId) -> (r: Self)
        ensures
            r.id() == id,
    {
        Effect { id, _phantom: PhantomData }
    }

    /// The effect's node.
    pub fn node(&self) -> (r: NodeId)
        ensures
            r == self.id(),
    {
        self.id
    }

    /// The effect's latest result, read without recording a dependency.
    pub fn value(&self, rt: &Runtime) -> (r: R)
        requires
            rt.wf(),
            self.valid(rt),
        ensures
            r.to_value() == rt.values()[self.id().spec_idx() as int],
    {
        let v = rt.peek(self.id.idx());
        match R::cast(&v) {
            Some(x) => x,
            None => {
                proof {
                    assert(false);
                }
                R::cast(&v).unwrap()
            },
        }
    }

    /// Opens the tracking scope for the effect's re-evaluation and returns its previous
    /// result, which the evaluation receives.
    pub fn begin_rerun(&self, rt: &mut Runtime) -> (prev: R)
        requires
            old(rt).wf(),
            self.valid(old(rt)),
            old(rt).scope() is None,
        ensures
            final(rt).wf(),
            prev.to_value() == old(rt).values()[self.id().spec_idx() as int],
            final(rt).scope() == Some(Seq::<usize>::empty()),
            final(rt).states() == old(rt).states(),
            final(rt).values() == old(rt).values(),
            final(rt).edges() == old(rt).edges(),
            final(rt).owner() == old(rt).owner(),
            final(rt).len() == old(rt).len(),
    {
        let v = rt.begin_rerun(self.id.idx());
        match R::cast(&v) {
            Some(x) => x,
            None => {
                proof {
                    assert(false);
                }
                R::cast(&v).unwrap()
            },
        }
    }

    /// Records the re-evaluation's result `value`: the effect becomes `Clean` and depends on
    /// exactly the nodes read since `begin_rerun`.
    pub fn finish_rerun(&self, rt: &mut Runtime, value: R)
        requires
            old(rt).wf(),
            self.valid(old(rt)),
            old(rt).scope() is Some,
            old(rt).edges().len() + old(rt).scope()->0.len() <= MAX_INDEX,
        ensures
            final(rt).wf(),
            final(rt).extends(old(rt)),
            rerun_recorded(*old(rt), *final(rt), self.id().spec_idx(), value.to_value()),
    {
        let v = value.into_value();
        proof {
            rt.lemma_wf_facts();
        }
        rt.finish_rerun(self.id.idx(), v);
        proof {
            rt.lemma_wf_facts();
        }
    }
}

/// Records a new effect whose first evaluation, run with the scope that `begin_tracking`
/// opened, produced `value`: a `Clean` node holding it, depending on exactly the nodes read.
pub fn create_effect<R: HasSchema>(rt: &mut Runtime, value: R) -> (r: Effect<R>)
    requires
        old(rt).wf(),
        old(rt).scope() is Some,
        old(rt).len() < MAX_INDEX,
        old(rt).edges().len() + old(rt).scope()->0.len() <= MAX_INDEX,
    ensures
        final(rt).wf(),
        final(rt).extends(old(rt)),
        r.valid(final(rt)),
        r.id().spec_idx() == old(rt).len(),
        effect_recorded(*old(rt), *final(rt), value.to_value()),
{
    let v = value.into_value();
    proof {
        rt.lemma_wf_facts();
    }
    let idx = rt.finish_effect(v);
    proof {
        rt.lemma_wf_facts();
    }
    Effect::from_id(NodeId::new(idx, rt.thread()))
}

/// Creates a signal holding `value`: a new `Dirty` node, with a read and a write handle to it.
pub fn create_signal<T: HasSchema>(rt: &mut Runtime, value: T) -> (r: (ReadSignal<T>, WriteSignal<T>))
    requires
        old(rt).wf(),
        old(rt).len() < MAX_INDEX,
    ensures
        final(rt).wf(),
        final(rt).extends(old(rt)),
        r.0.id() == r.1.id(),
        r.0.id().spec_idx() == old(rt).len(),
        r.0.valid(final(rt)),
        r.1.valid(final(rt)),
        final(rt).states() == old(rt).states().push(NodeState::Dirty),
        final(rt).values() == old(rt).values().push(value.to_value()),
        final(rt).edges() == old(rt).edges(),
        final(rt).scope() == old(rt).scope(),
        final(rt).len() == old(rt).len() + 1,
{
    let v = value.into_value();
    proof {
        rt.lemma_wf_facts();
    }
    let idx = rt.add_node(NodeState::Dirty, v);
    proof {
        rt.lemma_wf_facts();
    }
    let id = NodeId::new(idx, rt.thread());
    (ReadSignal::from_id(id), WriteSignal::from_id(id))
}

} // verus!
