use vstd::prelude::*;

verus! {

/// A single value of the host data model. The engine only ever moves
/// these; aggregation compares and orders them.
#[derive(Clone, Debug)]
pub enum Field {
    UInt(u64),
    Int(i64),
    Boolean(bool),
    Text(String),
    Null,
}

impl PartialEq for Field {
    fn eq(&self, o: &Field) -> (r: bool) {
        match (self, o) {
            (Field::UInt(a), Field::UInt(b)) => *a == *b,
            (Field::Int(a), Field::Int(b)) => *a == *b,
            (Field::Boolean(a), Field::Boolean(b)) => *a == *b,
            (Field::Text(a), Field::Text(b)) => *a == *b,
            (Field::Null, Field::Null) => true,
            _ => false,
        }
    }
}

impl vstd::std_specs::cmp::PartialEqSpecImpl for Field {
    open spec fn obeys_eq_spec() -> bool {
        true
    }

    open spec fn eq_spec(&self, o: &Field) -> bool {
        match (self, o) {
            (Field::UInt(a), Field::UInt(b)) => a == b,
            (Field::Int(a), Field::Int(b)) => a == b,
            (Field::Boolean(a), Field::Boolean(b)) => a == b,
            (Field::Text(a), Field::Text(b)) => a@ == b@,
            (Field::Null, Field::Null) => true,
            _ => false,
        }
    }
}

/// Two fields carry the same value.
pub open spec fn field_eq(a: Field, b: Field) -> bool {
    match (a, b) {
        (Field::UInt(x), Field::UInt(y)) => x == y,
        (Field::Int(x), Field::Int(y)) => x == y,
        (Field::Boolean(x), Field::Boolean(y)) => x == y,
        (Field::Text(x), Field::Text(y)) => x@ == y@,
        (Field::Null, Field::Null) => true,
        _ => false,
    }
}

/// A structural copy of a field.
pub fn copy_field(f: &Field) -> (r: Field)
    ensures
        r == *f,
        field_eq(r, *f),
{
    match f {
        Field::UInt(x) => Field::UInt(*x),
        Field::Int(x) => Field::Int(*x),
        Field::Boolean(x) => Field::Boolean(*x),
        Field::Text(x) => Field::Text(x.clone()),
        Field::Null => Field::Null,
    }
}

/// The type a field is expected to have.
#[derive(Clone, Copy, Debug, PartialEq, Eq, Structural)]
pub enum FieldType {
    UInt,
    Int,
    Boolean,
    Text,
}

/// One record of the host data model: a row of field values.
#[derive(Clone, Debug, PartialEq)]
pub struct Record {
    pub values: Vec<Field>,
}

impl Record {
    pub fn new(values: Vec<Field>) -> (r: Self)
        ensures
            r.values == values,
    {
        Self { values }
    }
}

/// A schema of the host data model, carried and persisted in its
/// serialized form; the engine never looks inside.
#[derive(Clone, Debug, PartialEq, Eq)]
pub struct Schema {
    pub repr: Vec<u8>,
}

impl View for Schema {
    type V = Seq<u8>;

    open spec fn view(&self) -> Seq<u8> {
        self.repr@
    }
}

impl Schema {
    pub fn new(repr: Vec<u8>) -> (r: Self)
        ensures
            r@ == repr@,
    {
        Self { repr }
    }
}

/// A change-data-capture operation, as operators consume it.
#[derive(Clone, Debug, PartialEq)]
pub enum Operation {
    Delete { old: Record },
    Insert { new: Record },
    Update { old: Record, new: Record },
}

} // verus!
