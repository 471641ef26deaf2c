//! The type-erased value cell that every node holds: a tagged union of the value types a
//! signal or an effect may carry, checked against the expected type on every access.
use vstd::prelude::*;

verus! {

/// The runtime identity of a value's type.
#[derive(Clone, Copy, Debug, PartialEq, Eq, Structural)]
pub enum Schema {
    Unit,
    Bool,
    I32,
    U32,
    I64,
    U64,
}

/// One value of one of the supported types.
#[derive(Clone, Copy, Debug, PartialEq, Eq, Structural)]
pub enum Value {
    Unit,
    Bool(bool),
    I32(i32),
    U32(u32),
    I64(i64),
    U64(u64),
}

impl Value {
    pub open spec fn spec_schema(self) -> Schema {
        match self {
            Value::Unit => Schema::Unit,
            Value::Bool(_) => Schema::Bool,
            Value::I32(_) => Schema::I32,
            Value::U32(_) => Schema::U32,
            Value::I64(_) => Schema::I64,
            Value::U64(_) => Schema::U64,
        }
    }

    /// The schema of the stored value.
    pub fn schema(&self) -> (r: Schema)
        ensures
            r == self.spec_schema(),
    {
        match self {
            Value::Unit => Schema::Unit,
            Value::Bool(_) => Schema::Bool,
            Value::I32(_) => Schema::I32,
            Value::U32(_) => Schema::U32,
            Value::I64(_) => Schema::I64,
            Value::U64(_) => Schema::U64,
        }
    }
}

/// A type that can live in a value cell: it has a schema, goes into a `Value`, and comes back
/// out of one only when the schemas agree.
pub trait HasSchema: Sized {
    spec fn schema_of() -> Schema;

    spec fn to_value(self) -> Value;

    fn schema() -> (r: Schema)
        ensures
            r == Self::schema_of(),
    ;

    fn into_value(self) -> (v: Value)
        ensures
            v == self.to_value(),
            v.spec_schema() == Self::schema_of(),
    ;

    /// The typed content of `v`, or `None` when `v` holds another type.
    fn cast(v: &Value) -> (r: Option<Self>)
        ensures
            r.is_some() <==> v.spec_schema() == Self::schema_of(),
            r matches Some(x) ==> x.to_value() == *v,
    ;
}

impl HasSchema for () {
    open spec fn schema_of() -> Schema {
        Schema::Unit
    }

    open spec fn to_value(self) -> Value {
        Value::Unit
    }

    fn schema() -> (r: Schema) {
        Schema::Unit
    }

    fn into_value(self) -> (v: Value) {
        Value::Unit
    }

    fn cast(v: &Value) -> (r: Option<Self>) {
        match v {
            Value::Unit => Some(()),
            _ => None,
        }
    }
}

impl HasSchema for bool {
    open spec fn schema_of() -> Schema {
        Schema::Bool
    }

    open spec fn to_value(self) -> Value {
        Value::Bool(self)
    }

    fn schema() -> (r: Schema) {
        Schema::Bool
    }

    fn into_value(self) -> (v: Value) {
        Value::Bool(self)
    }

    fn cast(v: &Value) -> (r: Option<Self>) {
        match v {
            Value::Bool(x) => Some(*x),
            _ => None,
        }
    }
}

impl HasSchema for i32 {
    open spec fn schema_of() -> Schema {
        Schema::I32
    }

    open spec fn to_value(self) -> Value {
        Value::I32(self)
    }

    fn schema() -> (r: Schema) {
        Schema::I32
    }

    fn into_value(self) -> (v: Value) {
        Value::I32(self)
    }

    fn cast(v: &Value) -> (r: Option<Self>) {
        match v {
            Value::I32(x) => Some(*x),
            _ => None,
        }
    }
}

impl HasSchema for u32 {
    open spec fn schema_of() -> Schema {
        Schema::U32
    }

    open spec fn to_value(self) -> Value {
        Value::U32(self)
    }

    fn schema() -> (r: Schema) {
        Schema::U32
    }

    fn into_value(self) -> (v: Value) {
        Value::U32(self)
    }

    fn cast(v: &Value) -> (r: Option<Self>) {
        match v {
            Value::U32(x) => Some(*x),
            _ => None,
        }
    }
}

impl HasSchema for i64 {
    open spec fn schema_of() -> Schema {
        Schema::I64
    }

    open spec fn to_value(self) -> Value {
        Value::I64(self)
    }

    fn schema() -> (r: Schema) {
        Schema::I64
    }

    fn into_value(self) -> (v: Value) {
        Value::I64(self)
    }

    fn cast(v: &Value) -> (r: Option<Self>) {
        match v {
            Value::I64(x) => Some(*x),
            _ => None,
        }
    }
}

impl HasSchema for u64 {
    open spec fn schema_of() -> Schema {
        Schema::U64
    }

    open spec fn to_value(self) -> Value {
        Value::U64(self)
    }

    fn schema() -> (r: Schema) {
        Schema::U64
    }

    fn into_value(self) -> (v: Value) {
        Value::U64(self)
    }

    fn cast(v: &Value) -> (r: Option<Self>) {
        match v {
            Value::U64(x) => Some(*x),
            _ => None,
        }
    }
}

} // verus!
