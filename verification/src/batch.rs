//! The columnar batch: a schema of named, typed, nullable fields and one
//! equal-length value array per field.

use vstd::prelude::*;

verus! {

/// The value type of one column.
#[derive(Clone, Copy, PartialEq, Eq, Structural, Debug)]
pub enum ColumnType {
    Utf8,
    Int32,
    Boolean,
}

/// One schema entry: a column name, its value type, and whether values may be
/// null. Nullability is carried through the frame but placeholder batches
/// never set it.
#[derive(Debug)]
pub struct Field {
    pub name: Vec<u8>,
    pub ty: ColumnType,
    pub nullable: bool,
}

/// One column's values.
#[derive(Debug)]
pub enum Column {
    Utf8(Vec<Vec<u8>>),
    Int32(Vec<i32>),
    Boolean(Vec<bool>),
}

/// A batch: a schema plus one column per field.
#[derive(Debug)]
pub struct Batch {
    pub fields: Vec<Field>,
    pub columns: Vec<Column>,
    pub num_rows: u64,
}

/// Mathematical view of a field.
pub struct FieldModel {
    pub name: Seq<u8>,
    pub ty: ColumnType,
    pub nullable: bool,
}

/// Mathematical view of a column.
pub enum ColumnModel {
    Utf8(Seq<Seq<u8>>),
    Int32(Seq<i32>),
    Boolean(Seq<bool>),
}

/// Mathematical view of a batch.
pub struct BatchModel {
    pub fields: Seq<FieldModel>,
    pub columns: Seq<ColumnModel>,
    pub num_rows: nat,
}

impl View for Field {
    type V = FieldModel;

    open spec fn view(&self) -> FieldModel {
        FieldModel { name: self.name@, ty: self.ty, nullable: self.nullable }
    }
}

impl View for Column {
    type V = ColumnModel;

    open spec fn view(&self) -> ColumnModel {
        match self {
            Column::Utf8(vs) => ColumnModel::Utf8(vs@.map_values(|v: Vec<u8>| v@)),
            Column::Int32(vs) => ColumnModel::Int32(vs@),
            Column::Boolean(vs) => ColumnModel::Boolean(vs@),
        }
    }
}

impl View for Batch {
    type V = BatchModel;

    open spec fn view(&self) -> BatchModel {
        BatchModel {
            fields: self.fields@.map_values(|f: Field| f@),
            columns: self.columns@.map_values(|c: Column| c@),
            num_rows: self.num_rows as nat,
        }
    }
}

impl ColumnModel {
    /// How many rows the column holds.
    pub open spec fn len(self) -> nat {
        match self {
            ColumnModel::Utf8(vs) => vs.len(),
            ColumnModel::Int32(vs) => vs.len(),
            ColumnModel::Boolean(vs) => vs.len(),
        }
    }

    /// Whether the column's values are of the given type.
    pub open spec fn matches_type(self, ty: ColumnType) -> bool {
        match self {
            ColumnModel::Utf8(_) => ty == ColumnType::Utf8,
            ColumnModel::Int32(_) => ty == ColumnType::Int32,
            ColumnModel::Boolean(_) => ty == ColumnType::Boolean,
        }
    }
}

impl BatchModel {
    /// The batch invariant: one column per field, every column of its field's
    /// type, every column exactly `num_rows` long, and field names unique.
    pub open spec fn wf(self) -> bool {
        &&& self.columns.len() == self.fields.len()
        &&& forall|i: int|
            0 <= i < self.fields.len() ==> (#[trigger] self.columns[i]).matches_type(
                self.fields[i].ty,
            )
        &&& forall|i: int|
            0 <= i < self.fields.len() ==> (#[trigger] self.columns[i]).len() == self.num_rows
        &&& forall|i: int, j: int|
            0 <= i < j < self.fields.len() ==> (#[trigger] self.fields[i].name) != (
            #[trigger] self.fields[j].name)
    }
}

/// Whether two byte strings are equal.
pub fn bytes_eq(a: &[u8], b: &[u8]) -> (r: bool)
    ensures
        r == (a@ == b@),
{
    if a.len() != b.len() {
        proof {
            assert(a@ != b@);
        }
        return false;
    }
    let n = a.len();
    let mut i: usize = 0;
    while i < n
        invariant
            n == a@.len() && n == b@.len(),
            0 <= i <= n,
            forall|k: int| 0 <= k < i ==> a@[k] == b@[k],
        decreases n - i,
    {
        if a[i] != b[i] {
            proof {
                assert(a@[i as int] != b@[i as int]);
            }
            return false;
        }
        i = i + 1;
    }
    proof {
        assert(a@ =~= b@);
    }
    true
}

impl Column {
    /// How many rows the column holds.
    pub fn len(&self) -> (r: usize)
        ensures
            r == self@.len(),
    {
        match self {
            Column::Utf8(vs) => vs.len(),
            Column::Int32(vs) => vs.len(),
            Column::Boolean(vs) => vs.len(),
        }
    }

    /// Whether the column's values are of the given type.
    pub fn matches_type(&self, ty: ColumnType) -> (r: bool)
        ensures
            r == self@.matches_type(ty),
    {
        match self {
            Column::Utf8(_) => ty == ColumnType::Utf8,
            Column::Int32(_) => ty == ColumnType::Int32,
            Column::Boolean(_) => ty == ColumnType::Boolean,
        }
    }
}

impl Batch {
    /// Checks the batch invariant: column count, types, lengths, and unique
    /// field names.
    pub fn is_well_formed(&self) -> (r: bool)
        ensures
            r == self@.wf(),
    {
        if self.columns.len() != self.fields.len() {
            return false;
        }
        let n = self.fields.len();
        let mut i: usize = 0;
        while i < n
            invariant
                n == self@.fields.len() && n == self@.columns.len(),
                n == self.fields@.len() && n == self.columns@.len(),
                self@.fields.len() == self.fields@.len(),
                self@.columns.len() == self.columns@.len(),
                0 <= i <= n,
                forall|k: int|
                    0 <= k < i ==> (#[trigger] self@.columns[k]).matches_type(self@.fields[k].ty)
                        && self@.columns[k].len() == self@.num_rows,
            decreases n - i,
        {
            proof {
                assert(self@.columns[i as int] == self.columns@[i as int]@);
                assert(self@.fields[i as int] == self.fields@[i as int]@);
            }
            if !self.columns[i].matches_type(self.fields[i].ty) {
                return false;
            }
            if self.columns[i].len() as u64 != self.num_rows {
                return false;
            }
            i = i + 1;
        }
        let mut a: usize = 0;
        while a < n
            invariant
                n == self@.fields.len() && n == self.fields@.len(),
                0 <= a <= n,
                forall|p: int, q: int|
                    0 <= p < q < n && p < a ==> (#[trigger] self@.fields[p].name) != (
                    #[trigger] self@.fields[q].name),
                self@.columns.len() == n,
                forall|k: int|
                    0 <= k < n ==> (#[trigger] self@.columns[k]).matches_type(self@.fields[k].ty)
                        && self@.columns[k].len() == self@.num_rows,
            decreases n - a,
        {
            let mut b: usize = a + 1;
            while b < n
                invariant
                    n == self@.fields.len() && n == self.fields@.len(),
                    0 <= a < n,
                    a < b <= n,
                    forall|q: int|
                        a < q < b ==> (#[trigger] self@.fields[q].name) != self@.fields[
                            a as int
                        ].name,
                decreases n - b,
            {
                if bytes_eq(self.fields[a].name.as_slice(), self.fields[b].name.as_slice()) {
                    proof {
                        assert(self@.fields[a as int].name == self@.fields[b as int].name);
                    }
                    return false;
                }
                b = b + 1;
            }
            a = a + 1;
        }
        true
    }
}

} // verus!
