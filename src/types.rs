//! Logical column types and fields.
use vstd::prelude::*;

verus! {

/// Resolution of a timestamp.
#[derive(Debug, Clone, Copy, PartialEq, Eq, Structural)]
pub enum TimeUnit {
    Millisecond,
    Nanosecond,
}

/// Layout of a union column.
#[derive(Debug, Clone, Copy, PartialEq, Eq, Structural)]
pub enum UnionMode {
    /// Only the selected variant's column grows; rows carry an offset into it.
    Dense,
    /// Every variant's column has one slot per row.
    Sparse,
}

/// The leaf types of a column.
#[derive(Debug, Clone, Copy, PartialEq, Eq, Structural)]
pub enum ScalarKind {
    Boolean,
    Int8,
    Int16,
    Int32,
    Int64,
    UInt8,
    UInt16,
    UInt32,
    UInt64,
    Float16,
    Float32,
    Float64,
    /// Days since the Unix epoch.
    Date32,
    /// Time since the Unix epoch, with or without the `UTC` time-zone tag.
    Timestamp { unit: TimeUnit, utc: bool },
    Decimal128 { precision: u8, scale: i8 },
    FixedSizeBinary(usize),
    Utf8,
    LargeUtf8,
    Binary,
    LargeBinary,
}

/// The type of a column.
#[derive(Debug, PartialEq)]
pub enum LogicalType {
    Scalar(ScalarKind),
    List { item: Box<Field>, large: bool },
    FixedList { item: Box<Field>, size: usize },
    Struct(Vec<Field>),
    Union { variants: Vec<Field>, mode: UnionMode },
}

/// A named, typed column.
#[derive(Debug, PartialEq)]
pub struct Field {
    pub name: String,
    pub data_type: LogicalType,
    pub nullable: bool,
}

/// The mathematical value of a [`LogicalType`].
pub enum TypeModel {
    Scalar(ScalarKind),
    List(Box<FieldModel>, bool),
    FixedList(Box<FieldModel>, nat),
    Struct(Seq<FieldModel>),
    Union(Seq<FieldModel>, UnionMode),
}

/// The mathematical value of a [`Field`].
pub struct FieldModel {
    pub name: Seq<char>,
    pub data_type: TypeModel,
    pub nullable: bool,
}

/// The models of a sequence of fields.
pub open spec fn field_models(fs: Seq<Field>) -> Seq<FieldModel>
    decreases fs,
{
    Seq::new(fs.len(), |i: int| if 0 <= i < fs.len() { fs[i].model() } else { arbitrary() })
}

impl LogicalType {
    pub open spec fn model(&self) -> TypeModel
        decreases self,
    {
        match self {
            LogicalType::Scalar(k) => TypeModel::Scalar(*k),
            LogicalType::List { item, large } => TypeModel::List(Box::new(item.model()), *large),
            LogicalType::FixedList { item, size } => TypeModel::FixedList(
                Box::new(item.model()),
                *size as nat,
            ),
            LogicalType::Struct(fs) => TypeModel::Struct(field_models(fs@)),
            LogicalType::Union { variants, mode } => TypeModel::Union(field_models(variants@), *mode),
        }
    }
}

impl Field {
    pub open spec fn model(&self) -> FieldModel
        decreases self,
    {
        FieldModel { name: self.name@, data_type: self.data_type.model(), nullable: self.nullable }
    }
}

proof fn lemma_field_decreases(fs: Vec<Field>, i: int)
    requires
        0 <= i < fs@.len(),
    ensures
        decreases_to!(fs => fs@[i]),
{
    assert(decreases_to!(fs => fs@));
    assert(decreases_to!(fs@ => fs@[i]));
}

/// Whether two field lists have equal models.
fn fields_equal(a: &Vec<Field>, b: &Vec<Field>) -> (r: bool)
    ensures
        r == (field_models(a@) == field_models(b@)),
    decreases a, 0nat,
{
    let ghost ma = field_models(a@);
    let ghost mb = field_models(b@);
    if a.len() != b.len() {
        proof {
            assert(ma.len() != mb.len());
        }
        return false;
    }
    let mut i: usize = 0;
    while i < a.len()
        invariant
            ma == field_models(a@),
            mb == field_models(b@),
            a@.len() == b@.len(),
            0 <= i <= a@.len(),
            forall|j: int| 0 <= j < i ==> #[trigger] a@[j].model() == b@[j].model(),
        decreases a@.len() - i,
    {
        proof {
            lemma_field_decreases(*a, i as int);
        }
        if !a[i].equals(&b[i]) {
            proof {
                assert(ma[i as int] != mb[i as int]);
            }
            return false;
        }
        i = i + 1;
    }
    proof {
        assert forall|j: int| 0 <= j < ma.len() implies ma[j] == mb[j] by {
            assert(a@[j].model() == b@[j].model());
        }
        assert(ma =~= mb);
    }
    true
}

impl LogicalType {
    /// Whether two types are the same, field names and nullability included.
    pub fn equals(&self, other: &LogicalType) -> (r: bool)
        ensures
            r == (self.model() == other.model()),
        decreases self, 1nat,
    {
        match (self, other) {
            (LogicalType::Scalar(a), LogicalType::Scalar(b)) => *a == *b,
            (LogicalType::List { item: a, large: la }, LogicalType::List { item: b, large: lb }) => {
                *la == *lb && a.equals(b)
            },
            (
                LogicalType::FixedList { item: a, size: sa },
                LogicalType::FixedList { item: b, size: sb },
            ) => *sa == *sb && a.equals(b),
            (LogicalType::Struct(a), LogicalType::Struct(b)) => fields_equal(a, b),
            (
                LogicalType::Union { variants: a, mode: ma },
                LogicalType::Union { variants: b, mode: mb },
            ) => *ma == *mb && fields_equal(a, b),
            _ => false,
        }
    }
}

impl Field {
    /// Whether two fields are the same: name, type and nullability.
    pub fn equals(&self, other: &Field) -> (r: bool)
        ensures
            r == (self.model() == other.model()),
        decreases self, 2nat,
    {
        self.name == other.name && self.nullable == other.nullable && self.data_type.equals(
            &other.data_type,
        )
    }
}

impl LogicalType {
    /// A deep copy of the type.
    pub fn copy(&self) -> (r: LogicalType)
        ensures
            r.model() == self.model(),
        decreases self, 1nat,
    {
        match self {
            LogicalType::Scalar(k) => LogicalType::Scalar(*k),
            LogicalType::List { item, large } => LogicalType::List {
                item: Box::new(item.copy()),
                large: *large,
            },
            LogicalType::FixedList { item, size } => LogicalType::FixedList {
                item: Box::new(item.copy()),
                size: *size,
            },
            LogicalType::Struct(fs) => LogicalType::Struct(copy_fields(fs)),
            LogicalType::Union { variants, mode } => LogicalType::Union {
                variants: copy_fields(variants),
                mode: *mode,
            },
        }
    }
}

impl Field {
    /// A deep copy of the field.
    pub fn copy(&self) -> (r: Field)
        ensures
            r.model() == self.model(),
        decreases self, 2nat,
    {
        Field { name: self.name.clone(), data_type: self.data_type.copy(), nullable: self.nullable }
    }
}

fn copy_fields(fs: &Vec<Field>) -> (r: Vec<Field>)
    ensures
        field_models(r@) == field_models(fs@),
    decreases fs, 0nat,
{
    let mut out: Vec<Field> = Vec::new();
    let mut i: usize = 0;
    while i < fs.len()
        invariant
            0 <= i <= fs@.len(),
            out@.len() == i,
            forall|j: int| 0 <= j < i ==> #[trigger] out@[j].model() == fs@[j].model(),
        decreases fs@.len() - i,
    {
        proof {
            lemma_field_decreases(*fs, i as int);
        }
        out.push(fs[i].copy());
        i = i + 1;
    }
    proof {
        assert forall|j: int| 0 <= j < out@.len() implies field_models(out@)[j] == field_models(
            fs@,
        )[j] by {
            assert(out@[j].model() == fs@[j].model());
        }
        assert(field_models(out@) =~= field_models(fs@));
    }
    out
}

} // verus!
