//! Capacity-managed storage for items of one schema: the layout of an item, a resizable
//! buffer measured in items of that layout, and an untyped vector over it.
use crate::value::{Schema, Value};
use vstd::prelude::*;

verus! {

/// The largest size in bytes an allocation may have.
pub const ISIZE_MAX: usize = usize::MAX / 2;

pub open spec fn is_pow2(n: nat) -> bool
    decreases n,
{
    if n <= 1 {
        n == 1
    } else {
        n % 2 == 0 && is_pow2(n / 2)
    }
}

/// `size` rounded up to a multiple of `align`.
pub open spec fn round_up(size: nat, align: nat) -> nat
    recommends
        align > 0,
{
    if size % align == 0 {
        size
    } else {
        (size + (align - size % align)) as nat
    }
}

/// The size and alignment of one item.
#[derive(Clone, Copy, Debug, PartialEq, Eq, Structural)]
pub struct Layout {
    size: usize,
    align: usize,
}

impl Layout {
    pub closed spec fn spec_size(self) -> nat {
        self.size as nat
    }

    pub closed spec fn spec_align(self) -> nat {
        self.align as nat
    }

    /// The alignment is a power of two and the size, rounded up to it, fits an allocation.
    pub open spec fn wf(self) -> bool {
        &&& is_pow2(self.spec_align())
        &&& round_up(self.spec_size(), self.spec_align()) <= ISIZE_MAX
    }

    /// The layout of `size` bytes aligned to `align`, or `None` when `align` is not a power
    /// of two or the padded size does not fit an allocation.
    pub fn from_size_align(size: usize, align: usize) -> (r: Option<Layout>)
        ensures
            r.is_some() <==> (is_pow2(align as nat) && round_up(size as nat, align as nat)
                <= ISIZE_MAX),
            r matches Some(l) ==> l.spec_size() == size && l.spec_align() == align && l.wf(),
    {
        if !is_power_of_two(align) {
            return None;
        }
        if size > ISIZE_MAX {
            return None;
        }
        let rem = size % align;
        if rem == 0 {
            Some(Layout { size, align })
        } else if align - rem > ISIZE_MAX - size {
            None
        } else {
            Some(Layout { size, align })
        }
    }

    /// The size in bytes.
    pub fn size(&self) -> (r: usize)
        ensures
            r == self.spec_size(),
    {
        self.size
    }

    /// The alignment in bytes.
    pub fn align(&self) -> (r: usize)
        ensures
            r == self.spec_align(),
    {
        self.align
    }

    /// This layout with its size rounded up to a multiple of its alignment.
    pub fn pad_to_align(&self) -> (r: Layout)
        requires
            self.wf(),
        ensures
            r.spec_size() == round_up(self.spec_size(), self.spec_align()),
            r.spec_align() == self.spec_align(),
            r.wf(),
    {
        let rem = self.size % self.align;
        let size = if rem == 0 {
            self.size
        } else {
            self.size + (self.align - rem)
        };
        proof {
            assert(size % self.align == 0) by {
                if rem != 0 {
                    lemma_round_up_multiple(self.size as nat, self.align as nat);
                }
            }
        }
        Layout { size, align: self.align }
    }
}

proof fn lemma_round_up_multiple(size: nat, align: nat)
    requires
        align > 0,
        size % align != 0,
    ensures
        (size + (align - size % align)) % (align as int) == 0,
{
    let q = size / align;
    let r = size % align;
    assert(size == q * align + r) by (nonlinear_arith)
        requires
            q == size / align,
            r == size % align,
            align > 0,
    ;
    assert(size + (align - r) == (q + 1) * align) by (nonlinear_arith)
        requires
            size == q * align + r,
    ;
    vstd::arithmetic::div_mod::lemma_mod_multiples_basic((q + 1) as int, align as int);
}

/// Whether `n` is a power of two.
fn is_power_of_two(n: usize) -> (r: bool)
    ensures
        r == is_pow2(n as nat),
{
    let mut m = n;
    while m > 1
        invariant
            m <= n,
            is_pow2(n as nat) == is_pow2(m as nat),
        decreases m,
    {
        if m % 2 != 0 {
            return false;
        }
        m = m / 2;
    }
    m == 1
}

impl Schema {
    /// The layout of one value of this schema.
    pub fn layout(&self) -> (r: Layout)
        ensures
            r.wf(),
    {
        let (size, align): (usize, usize) = match self {
            Schema::Unit => (0, 1),
            Schema::Bool => (1, 1),
            Schema::I32 => (4, 4),
            Schema::U32 => (4, 4),
            Schema::I64 => (8, 8),
            Schema::U64 => (8, 8),
        };
        proof {
            reveal_with_fuel(is_pow2, 4);
        }
        Layout { size, align }
    }
}

/// A buffer's requested size overflowed what an allocation may hold.
#[derive(Clone, Copy, Debug, PartialEq, Eq, Structural)]
pub struct LayoutError;

/// A resizable buffer with room for `capacity` items of one layout.
pub struct ResizableAlloc {
    layout: Layout,
    padded: Layout,
    cap: usize,
}

impl ResizableAlloc {
    pub closed spec fn spec_layout(&self) -> Layout {
        self.layout
    }

    pub closed spec fn spec_capacity(&self) -> nat {
        self.cap as nat
    }

    pub closed spec fn wf(&self) -> bool {
        &&& self.layout.wf()
        &&& self.padded.spec_size() == round_up(self.layout.spec_size(), self.layout.spec_align())
        &&& self.padded.spec_size() * self.cap <= ISIZE_MAX
    }

    /// Whether `n` items, each padded to its alignment, fit an allocation.
    pub closed spec fn fits(&self, n: nat) -> bool {
        self.padded.spec_size() * n <= ISIZE_MAX
    }

    /// An empty buffer for items of `layout`; nothing is allocated yet.
    pub fn new(layout: Layout) -> (r: Self)
        requires
            layout.wf(),
        ensures
            r.wf(),
            r.spec_layout() == layout,
            r.spec_capacity() == 0,
    {
        ResizableAlloc { layout, padded: layout.pad_to_align(), cap: 0 }
    }

    /// Changes the capacity to `new_capacity` items; fails, leaving the buffer as it was, when
    /// that many padded items do not fit an allocation.
    pub fn resize(&mut self, new_capacity: usize) -> (r: Result<(), LayoutError>)
        requires
            old(self).wf(),
        ensures
            final(self).wf(),
            final(self).spec_layout() == old(self).spec_layout(),
            r.is_ok() <==> old(self).fits(new_capacity as nat),
            r.is_ok() ==> final(self).spec_capacity() == new_capacity,
            r.is_err() ==> final(self).spec_capacity() == old(self).spec_capacity(),
            forall|n: nat| #[trigger] final(self).fits(n) == old(self).fits(n),
    {
        if self.cap == new_capacity {
            return Ok(());
        }
        let size = self.padded.size();
        if size == 0 {
            self.cap = new_capacity;
            return Ok(());
        }
        if new_capacity > ISIZE_MAX / size {
            proof {
                assert(size * new_capacity > ISIZE_MAX) by (nonlinear_arith)
                    requires
                        new_capacity > ISIZE_MAX / size,
                        size > 0,
                ;
            }
            return Err(LayoutError);
        }
        proof {
            assert(size * new_capacity <= ISIZE_MAX) by (nonlinear_arith)
                requires
                    new_capacity <= ISIZE_MAX / size,
                    size > 0,
            ;
        }
        self.cap = new_capacity;
        Ok(())
    }

    /// The layout of the items.
    pub fn layout(&self) -> (r: Layout)
        ensures
            r == self.spec_layout(),
    {
        self.layout
    }

    /// The capacity, in items.
    pub fn capacity(&self) -> (r: usize)
        ensures
            r == self.spec_capacity(),
    {
        self.cap
    }
}

/// An item's schema differs from the vector's.
#[derive(Clone, Copy, Debug, PartialEq, Eq, Structural)]
pub struct SchemaMismatchError;

/// The capacity a full buffer of capacity `cap` grows to.
pub open spec fn grown(cap: nat) -> nat {
    if cap == 0 {
        1
    } else {
        cap * 2
    }
}

/// A vector of values that all have one schema.
pub struct SchemaVec {
    buffer: ResizableAlloc,
    items: Vec<Value>,
    schema: Schema,
}

impl View for SchemaVec {
    type V = Seq<Value>;

    closed spec fn view(&self) -> Seq<Value> {
        self.items@
    }
}

impl SchemaVec {
    pub closed spec fn spec_schema(&self) -> Schema {
        self.schema
    }

    pub closed spec fn spec_capacity(&self) -> nat {
        self.buffer.spec_capacity()
    }

    /// Whether the buffer can grow once more.
    pub closed spec fn can_grow(&self) -> bool {
        &&& self.buffer.fits(grown(self.buffer.spec_capacity()))
        &&& grown(self.buffer.spec_capacity()) <= usize::MAX
    }

    pub closed spec fn wf(&self) -> bool {
        &&& self.buffer.wf()
        &&& self.items@.len() <= self.buffer.spec_capacity()
        &&& forall|i: int|
            0 <= i < self.items@.len() ==> (#[trigger] self.items@[i]).spec_schema() == self.schema
    }

    /// An empty vector for values of `schema`.
    pub fn new(schema: Schema) -> (r: Self)
        ensures
            r.wf(),
            r@ == Seq::<Value>::empty(),
            r.spec_schema() == schema,
            r.spec_capacity() == 0,
    {
        let layout = schema.layout();
        SchemaVec { buffer: ResizableAlloc::new(layout), items: Vec::new(), schema }
    }

    /// Doubles the capacity, or makes room for one item when there is none.
    fn grow(&mut self)
        requires
            old(self).wf(),
            old(self).can_grow(),
        ensures
            final(self).wf(),
            final(self)@ == old(self)@,
            final(self).spec_schema() == old(self).spec_schema(),
            final(self).spec_capacity() == grown(old(self).spec_capacity()),
    {
        let cap = self.buffer.capacity();
        if cap == 0 {
            let r = self.buffer.resize(1);
        } else {
            let r = self.buffer.resize(cap * 2);
        }
    }

    /// Appends `item`, growing the buffer when it is full; fails, changing nothing, when the
    /// item's schema differs from the vector's.
    pub fn try_push(&mut self, item: Value) -> (r: Result<(), SchemaMismatchError>)
        requires
            old(self).wf(),
            old(self)@.len() < old(self).spec_capacity() || old(self).can_grow(),
        ensures
            final(self).wf(),
            final(self).spec_schema() == old(self).spec_schema(),
            r.is_ok() <==> item.spec_schema() == old(self).spec_schema(),
            r.is_ok() ==> final(self)@ == old(self)@.push(item),
            r.is_err() ==> final(self)@ == old(self)@ && final(self).spec_capacity()
                == old(self).spec_capacity(),
    {
        if item.schema() != self.schema {
            return Err(SchemaMismatchError);
        }
        if self.items.len() == self.buffer.capacity() {
            self.grow();
        }
        self.items.push(item);
        Ok(())
    }

    /// Appends `item`, which must have the vector's schema.
    pub fn push(&mut self, item: Value)
        requires
            old(self).wf(),
            item.spec_schema() == old(self).spec_schema(),
            old(self)@.len() < old(self).spec_capacity() || old(self).can_grow(),
        ensures
            final(self).wf(),
            final(self).spec_schema() == old(self).spec_schema(),
            final(self)@ == old(self)@.push(item),
    {
        let r = self.try_push(item);
    }

    /// Removes and returns the last item, or `None` when the vector is empty.
    pub fn pop(&mut self) -> (r: Option<Value>)
        requires
            old(self).wf(),
        ensures
            final(self).wf(),
            final(self).spec_schema() == old(self).spec_schema(),
            final(self).spec_capacity() == old(self).spec_capacity(),
            old(self)@.len() == 0 ==> r is None && final(self)@ == old(self)@,
            old(self)@.len() > 0 ==> r == Some(old(self)@.last()) && final(self)@
                == old(self)@.drop_last(),
    {
        self.items.pop()
    }

    /// The item at `idx`, or `None` past the end.
    pub fn get(&self, idx: usize) -> (r: Option<Value>)
        ensures
            idx < self@.len() ==> r == Some(self@[idx as int]),
            idx >= self@.len() ==> r is None,
    {
        if idx >= self.items.len() {
            None
        } else {
            Some(self.items[idx])
        }
    }

    /// The number of items.
    pub fn len(&self) -> (r: usize)
        ensures
            r == self@.len(),
    {
        self.items.len()
    }

    /// Whether the vector has no items.
    pub fn is_empty(&self) -> (r: bool)
        ensures
            r == (self@.len() == 0),
    {
        self.len() == 0
    }

    /// The capacity of the backing buffer, in items.
    pub fn capacity(&self) -> (r: usize)
        ensures
            r == self.spec_capacity(),
    {
        self.buffer.capacity()
    }

    /// The schema of the items.
    pub fn schema(&self) -> (r: &Schema)
        ensures
            *r == self.spec_schema(),
    {
        &self.schema
    }
}

} // verus!
