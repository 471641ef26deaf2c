use bones_reactive::storage::{Layout, LayoutError, ResizableAlloc, SchemaMismatchError, SchemaVec};
use bones_reactive::value::{Schema, Value};

#[test]
fn resizable_allocation() {
    // The layout of `(u32, u8)`.
    let layout = Layout::from_size_align(5, 4).unwrap();
    let mut a = ResizableAlloc::new(layout);
    assert_eq!(a.capacity(), 0);
    a.resize(3).unwrap();
    assert_eq!(a.capacity(), 3);
    a.resize(4).unwrap();
    assert_eq!(a.capacity(), 4);
    a.resize(1).unwrap();
    assert_eq!(a.capacity(), 1);
    a.resize(0).unwrap();
    assert_eq!(a.capacity(), 0);
    assert_eq!(a.layout(), layout);
}

#[test]
fn resize_past_the_allocation_limit_fails() {
    let layout = Layout::from_size_align(5, 4).unwrap();
    let mut a = ResizableAlloc::new(layout);
    a.resize(2).unwrap();
    // 8 padded bytes per item.
    assert_eq!(a.resize(usize::MAX / 16 + 1), Err(LayoutError));
    assert_eq!(a.capacity(), 2);
    assert_eq!(a.resize(usize::MAX / 16), Ok(()));
}

#[test]
fn zero_sized_items_never_overflow() {
    let layout = Layout::from_size_align(0, 1).unwrap();
    let mut a = ResizableAlloc::new(layout);
    assert_eq!(a.resize(usize::MAX), Ok(()));
    assert_eq!(a.capacity(), usize::MAX);
}

#[test]
fn layout_checks_alignment_and_size() {
    assert!(Layout::from_size_align(4, 3).is_none());
    assert!(Layout::from_size_align(4, 0).is_none());
    assert!(Layout::from_size_align(usize::MAX, 1).is_none());
    assert!(Layout::from_size_align(usize::MAX / 2, 8).is_none());
    let l = Layout::from_size_align(5, 4).unwrap();
    assert_eq!(l.size(), 5);
    assert_eq!(l.align(), 4);
    let p = l.pad_to_align();
    assert_eq!(p.size(), 8);
    assert_eq!(p.align(), 4);
    assert_eq!(Layout::from_size_align(8, 8).unwrap().pad_to_align().size(), 8);
    assert_eq!(Schema::U32.layout().size(), 4);
}

#[test]
fn schema_vec_push_pop_get() {
    let mut v = SchemaVec::new(Schema::I64);
    assert!(v.is_empty());
    assert_eq!(v.capacity(), 0);
    assert_eq!(*v.schema(), Schema::I64);
    v.push(Value::I64(1));
    assert_eq!(v.capacity(), 1);
    v.push(Value::I64(2));
    assert_eq!(v.capacity(), 2);
    v.push(Value::I64(3));
    assert_eq!(v.capacity(), 4);
    assert_eq!(v.len(), 3);
    assert_eq!(v.get(1), Some(Value::I64(2)));
    assert_eq!(v.get(3), None);
    assert_eq!(v.pop(), Some(Value::I64(3)));
    assert_eq!(v.len(), 2);
    assert_eq!(v.capacity(), 4);
    assert_eq!(v.pop(), Some(Value::I64(2)));
    assert_eq!(v.pop(), Some(Value::I64(1)));
    assert_eq!(v.pop(), None);
    assert!(v.is_empty());
}

#[test]
fn schema_vec_rejects_another_schema() {
    let mut v = SchemaVec::new(Schema::Bool);
    assert_eq!(v.try_push(Value::U32(1)), Err(SchemaMismatchError));
    assert_eq!(v.len(), 0);
    assert_eq!(v.capacity(), 0);
    assert_eq!(v.try_push(Value::Bool(true)), Ok(()));
    assert_eq!(v.get(0), Some(Value::Bool(true)));
}
