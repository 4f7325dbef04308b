//! Columns and the builder engine.
//!
//! A column is built from a shape: a leaf column holds scalar values, a list
//! column an offset stream and a validity stream over one item column, a
//! struct column one child per member and a lazily created validity stream,
//! a union column a tag stream, (dense mode) an offset stream, and one child
//! per case.
use crate::shape::{
    lemma_case_decreases, lemma_member_decreases, sizes_ok, well_typed, Case, Member, Shape,
};
use crate::types::UnionMode;
use crate::value::{copy_values, lemma_models_eq, lemma_models_index, models, Val, Value};
use vstd::prelude::*;

verus! {

/// A column under construction, or a finished one.
#[derive(Debug, PartialEq)]
#[allow(inconsistent_fields)]
pub enum Column {
    /// Scalar values; `Value::Null` marks a null row.
    Leaf(Vec<Value>),
    /// Row `r` holds items `offsets[r]..offsets[r + 1]` of `values`.
    List { offsets: Vec<usize>, validity: Vec<bool>, values: Box<Column> },
    /// Row `r` holds row `r` of each child. Without a validity stream every
    /// row is valid.
    Struct { validity: Option<Vec<bool>>, children: Vec<Column> },
    /// Row `r` holds row `offsets[r]` (dense) or row `r` (sparse) of the
    /// child `type_ids[r]`.
    Union { type_ids: Vec<usize>, offsets: Vec<usize>, children: Vec<Column> },
}

/// The number of rows of a column.
pub open spec fn column_len(c: Column) -> nat
    decreases c,
{
    match c {
        Column::Leaf(vs) => vs@.len(),
        Column::List { validity, .. } => validity@.len(),
        Column::Struct { children, .. } => if children@.len() > 0 {
            column_len(children@[0])
        } else {
            0
        },
        Column::Union { type_ids, .. } => type_ids@.len(),
    }
}

/// The total number of rows of some columns.
pub open spec fn sum_lens(cs: Seq<Column>) -> nat
    decreases cs.len(),
{
    if cs.len() == 0 {
        0
    } else {
        sum_lens(cs.drop_last()) + column_len(cs.last())
    }
}

/// An offset stream over `rows` rows of an item column of `items` rows.
pub open spec fn offsets_ok(offsets: Seq<usize>, rows: nat, items: nat) -> bool {
    &&& offsets.len() == rows + 1
    &&& offsets[0] == 0
    &&& offsets[rows as int] == items
    &&& forall|i: int, j: int| 0 <= i <= j <= rows ==> #[trigger] offsets[i] <= #[trigger] offsets[j]
}

pub open spec fn row_valid(validity: Option<Vec<bool>>, r: int) -> bool {
    match validity {
        Some(v) => v@[r],
        None => true,
    }
}

/// Whether a shape can be built: every struct has a member and every union a
/// case.
pub open spec fn buildable(s: Shape) -> bool
    decreases s,
{
    match s {
        Shape::Scalar(_) => true,
        Shape::Nullable(inner) => buildable(*inner),
        Shape::List { item, .. } => buildable(*item),
        Shape::FixedList { item, .. } => buildable(*item),
        Shape::Struct(ms) => ms@.len() > 0 && forall|i: int|
            0 <= i < ms@.len() ==> buildable(#[trigger] ms@[i].shape),
        Shape::Union { cases, .. } => cases@.len() > 0 && forall|i: int|
            0 <= i < cases@.len() ==> match #[trigger] cases@[i].payload {
                Some(p) => buildable(p),
                None => true,
            },
    }
}

/// The layout invariant of a column of a shape. All children of a struct
/// have the struct's row count; every variant column of a sparse union has
/// the union's row count; in a dense union each offset points into its
/// variant's column and the variant columns hold one row per union row.
pub open spec fn wf(s: Shape, c: Column) -> bool
    decreases s,
{
    match s {
        Shape::Scalar(_) => c is Leaf,
        Shape::Nullable(inner) => wf(*inner, c),
        Shape::List { item, .. } => match c {
            Column::List { offsets, validity, values } => offsets_ok(
                offsets@,
                validity@.len(),
                column_len(*values),
            ) && wf(*item, *values),
            _ => false,
        },
        Shape::FixedList { item, size } => match c {
            Column::List { offsets, validity, values } => offsets_ok(
                offsets@,
                validity@.len(),
                column_len(*values),
            ) && wf(*item, *values) && forall|r: int|
                0 <= r < validity@.len() ==> offsets@[r + 1] - offsets@[r] == if #[trigger] validity@[r] {
                    size as int
                } else {
                    0
                },
            _ => false,
        },
        Shape::Struct(ms) => match c {
            Column::Struct { validity, children } => {
                &&& ms@.len() > 0
                &&& children@.len() == ms@.len()
                &&& validity is Some ==> validity->Some_0@.len() == column_len(children@[0])
                &&& forall|i: int|
                    0 <= i < ms@.len() ==> column_len(#[trigger] children@[i]) == column_len(
                        children@[0],
                    ) && wf(ms@[i].shape, children@[i])
            },
            _ => false,
        },
        Shape::Union { cases, mode } => match c {
            Column::Union { type_ids, offsets, children } => {
                &&& cases@.len() > 0
                &&& children@.len() == cases@.len()
                &&& forall|r: int| 0 <= r < type_ids@.len() ==> #[trigger] type_ids@[r] < cases@.len()
                &&& forall|i: int|
                    0 <= i < cases@.len() ==> match #[trigger] cases@[i].payload {
                        Some(p) => wf(p, children@[i]),
                        None => children@[i] is Leaf,
                    }
                &&& mode == UnionMode::Dense ==> {
                    &&& offsets@.len() == type_ids@.len()
                    &&& sum_lens(children@) == type_ids@.len()
                    &&& forall|r: int|
                        0 <= r < type_ids@.len() ==> #[trigger] offsets@[r] < column_len(
                            children@[type_ids@[r] as int],
                        )
                }
                &&& mode == UnionMode::Sparse ==> {
                    &&& offsets@.len() == 0
                    &&& forall|i: int|
                        0 <= i < cases@.len() ==> column_len(#[trigger] children@[i])
                            == type_ids@.len()
                }
            },
            _ => false,
        },
    }
}

/// The rows of a list column, given the rows of its item column.
pub open spec fn list_rows(items: Seq<Val>, offsets: Seq<usize>, validity: Seq<bool>) -> Seq<Val> {
    Seq::new(
        validity.len(),
        |r: int|
            if validity[r] {
                Val::List(items.subrange(offsets[r] as int, offsets[r + 1] as int))
            } else {
                Val::Null
            },
    )
}

/// The value of a union row whose tag is `t`, given the row of the selected
/// variant's column: a unit-like case is read by its tag alone; a null
/// payload makes the row null.
pub open spec fn union_row(t: nat, unit: bool, payload: Val) -> Val {
    if unit {
        Val::Union(t, Box::new(Val::Null))
    } else if payload is Null {
        Val::Null
    } else {
        Val::Union(t, Box::new(payload))
    }
}

/// The rows that a column of a shape reads back as.
pub open spec fn rows(s: Shape, c: Column) -> Seq<Val>
    decreases s,
{
    match s {
        Shape::Scalar(_) => match c {
            Column::Leaf(vs) => models(vs@),
            _ => Seq::empty(),
        },
        Shape::Nullable(inner) => rows(*inner, c),
        Shape::List { item, .. } => match c {
            Column::List { offsets, validity, values } => list_rows(
                rows(*item, *values),
                offsets@,
                validity@,
            ),
            _ => Seq::empty(),
        },
        Shape::FixedList { item, .. } => match c {
            Column::List { offsets, validity, values } => list_rows(
                rows(*item, *values),
                offsets@,
                validity@,
            ),
            _ => Seq::empty(),
        },
        Shape::Struct(ms) => match c {
            Column::Struct { validity, children } => Seq::new(
                column_len(c),
                |r: int|
                    if row_valid(validity, r) {
                        Val::Struct(
                            Seq::new(
                                ms@.len(),
                                |i: int|
                                    if 0 <= i < ms@.len() && i < children@.len() {
                                        rows(ms@[i].shape, children@[i])[r]
                                    } else {
                                        Val::Null
                                    },
                            ),
                        )
                    } else {
                        Val::Null
                    },
            ),
            _ => Seq::empty(),
        },
        Shape::Union { cases, mode } => match c {
            Column::Union { type_ids, offsets, children } => Seq::new(
                type_ids@.len(),
                |r: int|
                    {
                        let t = type_ids@[r] as int;
                        let off = if mode == UnionMode::Dense {
                            offsets@[r] as int
                        } else {
                            r
                        };
                        if 0 <= t < cases@.len() && t < children@.len() {
                            match cases@[t].payload {
                                Some(p) => union_row(t as nat, false, rows(p, children@[t])[off]),
                                None => union_row(t as nat, true, Val::Null),
                            }
                        } else {
                            Val::Null
                        }
                    },
            ),
            _ => Seq::empty(),
        },
    }
}

/// What a null row of a shape reads back as: null, except where a union's
/// first case is unit-like, which is read by its tag alone.
pub open spec fn null_decoded(s: Shape) -> Val
    decreases s,
{
    match s {
        Shape::Nullable(inner) => null_decoded(*inner),
        Shape::Union { cases, .. } => if cases@.len() > 0 {
            match cases@[0].payload {
                Some(p) => union_row(0, false, null_decoded(p)),
                None => union_row(0, true, Val::Null),
            }
        } else {
            Val::Null
        },
        _ => Val::Null,
    }
}

/// What a value pushed into a column of a shape reads back as.
pub open spec fn decoded(s: Shape, v: Val) -> Val
    decreases s,
{
    if v is Null {
        null_decoded(s)
    } else {
        match s {
            Shape::Scalar(_) => v,
            Shape::Nullable(inner) => decoded(*inner, v),
            Shape::List { item, .. } => Val::List(
                Seq::new(
                    v->List_0.len(),
                    |i: int|
                        if 0 <= i < v->List_0.len() {
                            decoded(*item, v->List_0[i])
                        } else {
                            Val::Null
                        },
                ),
            ),
            Shape::FixedList { item, .. } => Val::List(
                Seq::new(
                    v->List_0.len(),
                    |i: int|
                        if 0 <= i < v->List_0.len() {
                            decoded(*item, v->List_0[i])
                        } else {
                            Val::Null
                        },
                ),
            ),
            Shape::Struct(ms) => Val::Struct(
                Seq::new(
                    ms@.len(),
                    |i: int|
                        if 0 <= i < ms@.len() {
                            decoded(ms@[i].shape, v->Struct_0[i])
                        } else {
                            Val::Null
                        },
                ),
            ),
            Shape::Union { cases, .. } => {
                let t = v->Union_0 as int;
                if 0 <= t < cases@.len() {
                    match cases@[t].payload {
                        Some(p) => union_row(t as nat, false, decoded(p, *v->Union_1)),
                        None => union_row(t as nat, true, Val::Null),
                    }
                } else {
                    Val::Null
                }
            },
        }
    }
}

pub proof fn lemma_rows_len(s: Shape, c: Column)
    requires
        wf(s, c),
    ensures
        rows(s, c).len() == column_len(c),
    decreases s,
{
    match s {
        Shape::Nullable(inner) => lemma_rows_len(*inner, c),
        _ => {},
    }
}

/// The validity stream of a struct column after one more row: absent
/// until the first null row, which backfills the earlier rows as valid.
pub open spec fn validity_after(old: Option<Vec<bool>>, new: Option<Vec<bool>>, rows: nat, valid: bool) -> bool {
    match old {
        Some(b) => new is Some && new->Some_0@ == b@.push(valid),
        None => if valid {
            new is None
        } else {
            new is Some && new->Some_0@ == Seq::new(rows, |j: int| true).push(false)
        },
    }
}

/// The layout change of appending `v` (`Val::Null` for a null row) to a
/// column of shape `s`: a leaf gets the value; a list gets one offset and
/// one validity bit; a struct gets a validity bit (see [`validity_after`])
/// and every child the member's value, or a null row under a null struct
/// row; a union gets the tag (0 for a null row) and, in dense mode, the
/// selected variant's old length as offset. Only the selected variant
/// grows in a dense union (variant 0 takes a null row); in a sparse union
/// every other variant takes a null row. A unit-like case's column takes
/// `true` when selected and null otherwise.
pub open spec fn pushed(s: Shape, old: Column, new: Column, v: Val) -> bool
    decreases s,
{
    match s {
        Shape::Scalar(_) => old is Leaf && new is Leaf && models(new->Leaf_0@) == models(
            old->Leaf_0@,
        ).push(v),
        Shape::Nullable(inner) => pushed(*inner, old, new, v),
        Shape::List { .. } => list_pushed(old, new, v),
        Shape::FixedList { .. } => list_pushed(old, new, v),
        Shape::Struct(ms) => {
            &&& old is Struct && new is Struct
            &&& validity_after(
                old->Struct_validity,
                new->Struct_validity,
                column_len(old),
                !(v is Null),
            )
            &&& new->Struct_children@.len() == old->Struct_children@.len()
            &&& forall|i: int|
                0 <= i < ms@.len() && i < old->Struct_children@.len() ==> pushed(
                    #[trigger] ms@[i].shape,
                    old->Struct_children@[i],
                    new->Struct_children@[i],
                    if v is Null {
                        Val::Null
                    } else {
                        v->Struct_0[i]
                    },
                )
        },
        Shape::Union { cases, mode } => {
            let t: int = if v is Null {
                0
            } else {
                v->Union_0 as int
            };
            let payload = if v is Null {
                Val::Null
            } else {
                *v->Union_1
            };
            &&& old is Union && new is Union
            &&& new->Union_type_ids@ == old->Union_type_ids@.push(t as usize)
            &&& new->Union_children@.len() == old->Union_children@.len()
            &&& 0 <= t < old->Union_children@.len()
            &&& mode == UnionMode::Dense ==> new->Union_offsets@ == old->Union_offsets@.push(
                column_len(old->Union_children@[t]) as usize,
            )
            &&& mode == UnionMode::Sparse ==> new->Union_offsets@ == old->Union_offsets@
            &&& forall|i: int|
                0 <= i < cases@.len() && i < old->Union_children@.len() ==> if i == t {
                    case_pushed(#[trigger] cases@[i], old->Union_children@[i], new->Union_children@[i], payload, v is Null)
                } else if mode == UnionMode::Dense {
                    new->Union_children@[i] == old->Union_children@[i]
                } else {
                    case_pushed(cases@[i], old->Union_children@[i], new->Union_children@[i], Val::Null, true)
                }
        },
    }
}

/// The layout change of one row in a list column: the offsets gain the end
/// of the row's items (none for a null row) and the validity its bit.
pub open spec fn list_pushed(old: Column, new: Column, v: Val) -> bool {
    &&& old is List && new is List
    &&& new->List_validity@ == old->List_validity@.push(!(v is Null))
    &&& old->List_offsets@.len() > 0
    &&& new->List_offsets@ == old->List_offsets@.push(
        (old->List_offsets@.last() + if v is Null {
            0
        } else {
            v->List_0.len()
        }) as usize,
    )
}

/// The layout change of one row in a variant's column: a case with a
/// payload takes `payload`; a unit-like case takes `true`, or a null when
/// `null` holds.
pub open spec fn case_pushed(case: Case, old: Column, new: Column, payload: Val, null: bool) -> bool
    decreases case,
{
    match case.payload {
        Some(p) => pushed(p, old, new, payload),
        None => old is Leaf && new is Leaf && new->Leaf_0@ == old->Leaf_0@.push(
            if null {
                Value::Null
            } else {
                Value::Bool(true)
            },
        ),
    }
}

/// How many of `ids` equal `t`.
pub open spec fn tag_count(ids: Seq<usize>, t: int) -> nat
    decreases ids.len(),
{
    if ids.len() == 0 {
        0
    } else {
        tag_count(ids.drop_last(), t) + if ids.last() == t {
            1nat
        } else {
            0nat
        }
    }
}

proof fn lemma_tag_count_push(ids: Seq<usize>, x: usize, t: int)
    ensures
        tag_count(ids.push(x), t) == tag_count(ids, t) + if x == t {
            1nat
        } else {
            0nat
        },
{
    assert(ids.push(x).drop_last() =~= ids);
}

/// What the builder keeps beyond [`wf`], at every depth: in a dense union
/// the offset of each row counts the earlier rows with the same tag, and
/// each variant's column holds one row per row of its tag.
pub open spec fn built(s: Shape, c: Column) -> bool
    decreases s,
{
    match s {
        Shape::Scalar(_) => true,
        Shape::Nullable(inner) => built(*inner, c),
        Shape::List { item, .. } => match c {
            Column::List { values, .. } => built(*item, *values),
            _ => true,
        },
        Shape::FixedList { item, .. } => match c {
            Column::List { values, .. } => built(*item, *values),
            _ => true,
        },
        Shape::Struct(ms) => match c {
            Column::Struct { children, .. } => forall|i: int|
                0 <= i < ms@.len() && i < children@.len() ==> built(
                    #[trigger] ms@[i].shape,
                    children@[i],
                ),
            _ => true,
        },
        Shape::Union { cases, mode } => match c {
            Column::Union { type_ids, offsets, children } => {
                &&& mode == UnionMode::Dense ==> {
                    &&& forall|r: int|
                        0 <= r < type_ids@.len() && r < offsets@.len() ==> #[trigger] offsets@[r]
                            == tag_count(type_ids@.subrange(0, r), type_ids@[r] as int)
                    &&& forall|i: int|
                        0 <= i < children@.len() ==> column_len(#[trigger] children@[i])
                            == tag_count(type_ids@, i)
                }
                &&& forall|i: int|
                    0 <= i < cases@.len() && i < children@.len() ==> match #[trigger] cases@[i].payload {
                        Some(p) => built(p, children@[i]),
                        None => true,
                    }
            },
            _ => true,
        },
    }
}

/// One dense push keeps the offsets counting earlier rows of the same tag.
proof fn lemma_dense_counted(
    ids: Seq<usize>,
    offs: Seq<usize>,
    old_ch: Seq<Column>,
    new_ch: Seq<Column>,
    t: int,
)
    requires
        offs.len() == ids.len(),
        forall|r: int|
            0 <= r < ids.len() && r < offs.len() ==> #[trigger] offs[r] == tag_count(
                ids.subrange(0, r),
                ids[r] as int,
            ),
        forall|i: int| 0 <= i < old_ch.len() ==> column_len(#[trigger] old_ch[i]) == tag_count(ids, i),
        new_ch.len() == old_ch.len(),
        0 <= t < old_ch.len(),
        t <= usize::MAX,
        column_len(old_ch[t]) <= usize::MAX,
        column_len(new_ch[t]) == column_len(old_ch[t]) + 1,
        forall|i: int| 0 <= i < old_ch.len() && i != t ==> #[trigger] new_ch[i] == old_ch[i],
    ensures
        forall|r: int|
            0 <= r < ids.push(t as usize).len() && r < offs.push(column_len(old_ch[t]) as usize).len()
                ==> #[trigger] offs.push(column_len(old_ch[t]) as usize)[r] == tag_count(
                ids.push(t as usize).subrange(0, r),
                ids.push(t as usize)[r] as int,
            ),
        forall|i: int|
            0 <= i < new_ch.len() ==> column_len(#[trigger] new_ch[i]) == tag_count(
                ids.push(t as usize),
                i,
            ),
{
    let ids2 = ids.push(t as usize);
    let offs2 = offs.push(column_len(old_ch[t]) as usize);
    assert forall|r: int| 0 <= r < ids2.len() && r < offs2.len() implies #[trigger] offs2[r]
        == tag_count(ids2.subrange(0, r), ids2[r] as int) by {
        if r < ids.len() {
            assert(ids2.subrange(0, r) =~= ids.subrange(0, r));
            assert(offs2[r] == offs[r]);
            assert(ids2[r] == ids[r]);
        } else {
            assert(ids2.subrange(0, r) =~= ids);
            assert(ids2[r] as int == t);
            assert(offs2[r] as int == column_len(old_ch[t]));
        }
    }
    assert forall|i: int| 0 <= i < new_ch.len() implies column_len(#[trigger] new_ch[i])
        == tag_count(ids2, i) by {
        lemma_tag_count_push(ids, t as usize, i);
        if i != t {
            assert(new_ch[i] == old_ch[i]);
        }
    }
}

proof fn lemma_sum_lens_update(cs: Seq<Column>, t: int, c: Column)
    requires
        0 <= t < cs.len(),
        column_len(c) == column_len(cs[t]) + 1,
    ensures
        sum_lens(cs.update(t, c)) == sum_lens(cs) + 1,
    decreases cs.len(),
{
    let u = cs.update(t, c);
    if t == cs.len() - 1 {
        assert(u.drop_last() =~= cs.drop_last());
    } else {
        assert(u.drop_last() =~= cs.drop_last().update(t, c));
        lemma_sum_lens_update(cs.drop_last(), t, c);
    }
}

spec fn rows_len_ok(case: Case, c: Column) -> bool {
    match case.payload {
        Some(p) => rows(p, c).len() == column_len(c),
        None => true,
    }
}

/// The number of rows of a column.
pub fn col_len(c: &Column) -> (r: usize)
    ensures
        r == column_len(*c),
    decreases c,
{
    match c {
        Column::Leaf(vs) => vs.len(),
        Column::List { validity, .. } => validity.len(),
        Column::Struct { children, .. } => if children.len() > 0 {
            col_len(&children[0])
        } else {
            0
        },
        Column::Union { type_ids, .. } => type_ids.len(),
    }
}

fn leaf_push(c: &mut Column, v: Value)
    requires
        *old(c) is Leaf,
    ensures
        *final(c) is Leaf,
        final(c)->Leaf_0@ == old(c)->Leaf_0@.push(v),
{
    match c {
        Column::Leaf(vs) => vs.push(v),
        _ => {},
    }
}

proof fn lemma_models_push(vs: Seq<Value>, v: Value)
    ensures
        models(vs.push(v)) == models(vs).push(v.model()),
{
    assert(models(vs.push(v)) =~= models(vs).push(v.model()));
}

/// Append a null row.
pub fn push_null(s: &Shape, c: &mut Column)
    requires
        wf(*s, *old(c)),
        built(*s, *old(c)),
    ensures
        wf(*s, *final(c)),
        built(*s, *final(c)),
        column_len(*final(c)) == column_len(*old(c)) + 1,
        rows(*s, *final(c)) == rows(*s, *old(c)).push(null_decoded(*s)),
        pushed(*s, *old(c), *final(c), Val::Null),
    decreases s,
{
    match s {
        Shape::Nullable(inner) => push_null(inner, c),
        Shape::Scalar(_) => {
            proof {
                lemma_models_push(c->Leaf_0@, Value::Null);
            }
            leaf_push(c, Value::Null);
        },
        Shape::List { item, .. } => {
            let ghost old_c = *c;
            proof {
                lemma_rows_len(**item, *old_c->values);
            }
            match c {
                Column::List { offsets, validity, .. } => {
                    let last = offsets[offsets.len() - 1];
                    offsets.push(last);
                    validity.push(false);
                },
                _ => {},
            }
            proof {
                assert(rows(*s, *c) =~= rows(*s, old_c).push(Val::Null));
                assert(c->List_offsets@ =~= old_c->List_offsets@.push(
                    (old_c->List_offsets@.last() + 0) as usize,
                ));
                assert(list_pushed(old_c, *c, Val::Null));
            }
        },
        Shape::FixedList { item, .. } => {
            let ghost old_c = *c;
            proof {
                lemma_rows_len(**item, *old_c->values);
            }
            match c {
                Column::List { offsets, validity, .. } => {
                    let last = offsets[offsets.len() - 1];
                    offsets.push(last);
                    validity.push(false);
                },
                _ => {},
            }
            proof {
                assert(rows(*s, *c) =~= rows(*s, old_c).push(Val::Null));
                assert(c->List_offsets@ =~= old_c->List_offsets@.push(
                    (old_c->List_offsets@.last() + 0) as usize,
                ));
                assert(list_pushed(old_c, *c, Val::Null));
            }
        },
        Shape::Struct(ms) => {
            let ghost old_c = *c;
            let ghost old_children = old_c->Struct_children@;
            proof {
                assert forall|j: int| 0 <= j < ms@.len() implies #[trigger] rows(
                    ms@[j].shape,
                    old_children[j],
                ).len() == column_len(old_children[0]) by {
                    lemma_rows_len(ms@[j].shape, old_children[j]);
                }
            }
            match c {
                Column::Struct { validity, children } => {
                    let n = col_len(&children[0]);
                    let mut i: usize = 0;
                    while i < children.len()
                        invariant
                            *s is Struct,
                            s->Struct_0 == *ms,
                            children@.len() == ms@.len() == old_children.len(),
                            ms@.len() > 0,
                            0 <= i <= children@.len(),
                            n == column_len(old_children[0]),
                            forall|j: int|
                                0 <= j < ms@.len() ==> wf(ms@[j].shape, #[trigger] old_children[j])
                                    && column_len(old_children[j]) == n && built(ms@[j].shape, old_children[j]),
                            forall|j: int|
                                0 <= j < i ==> wf(ms@[j].shape, #[trigger] children@[j])
                                    && column_len(children@[j]) == n + 1 && rows(
                                    ms@[j].shape,
                                    children@[j],
                                ) == rows(ms@[j].shape, old_children[j]).push(
                                    null_decoded(ms@[j].shape),
                                ) && pushed(ms@[j].shape, old_children[j], children@[j], Val::Null)
                                    && built(ms@[j].shape, children@[j]),
                            forall|j: int|
                                i <= j < children@.len() ==> #[trigger] children@[j]
                                    == old_children[j],
                        decreases children@.len() - i,
                    {
                        proof {
                            lemma_member_decreases(*s, i as int);
                        }
                        push_null(&ms[i].shape, &mut children[i]);
                        i = i + 1;
                    }
                    match validity {
                        Some(v) => v.push(false),
                        None => {
                            let mut v: Vec<bool> = Vec::new();
                            let mut k: usize = 0;
                            while k < n
                                invariant
                                    0 <= k <= n,
                                    v@.len() == k,
                                    forall|j: int| 0 <= j < k ==> #[trigger] v@[j],
                                decreases n - k,
                            {
                                v.push(true);
                                k = k + 1;
                            }
                            v.push(false);
                            assert(v@ =~= Seq::new(n as nat, |j: int| true).push(false));
                            *validity = Some(v);
                        },
                    }
                },
                _ => {},
            }
            proof {
                let new_rows = rows(*s, *c);
                let old_rows = rows(*s, old_c);
                let n = column_len(old_children[0]);
                assert(new_rows.len() == n + 1);
                assert forall|r: int| 0 <= r < n implies new_rows[r] == old_rows[r] by {
                    if row_valid(old_c->Struct_validity, r) {
                        assert(new_rows[r]->Struct_0 =~= old_rows[r]->Struct_0);
                    }
                }
                assert(new_rows =~= old_rows.push(Val::Null));
                assert(pushed(*s, old_c, *c, Val::Null));
                assert(built(*s, *c));
            }
        },
        Shape::Union { cases, mode } => {
            let ghost old_c = *c;
            let ghost old_children = old_c->Union_children@;
            let ghost n = old_c->Union_type_ids@.len();
            proof {
                assert forall|j: int| 0 <= j < cases@.len() implies #[trigger] rows_len_ok(
                    cases@[j],
                    old_children[j],
                ) by {
                    if let Some(p) = cases@[j].payload {
                        lemma_rows_len(p, old_children[j]);
                    }
                }
            }
            match c {
                Column::Union { type_ids, offsets, children } => {
                    if *mode == UnionMode::Dense {
                        let n0 = col_len(&children[0]);
                        offsets.push(n0);
                        type_ids.push(0);
                        match &cases[0].payload {
                            Some(p) => push_null(p, &mut children[0]),
                            None => leaf_push(&mut children[0], Value::Null),
                        }
                        proof {
                            lemma_sum_lens_update(old_children, 0, children@[0]);
                            assert(children@ =~= old_children.update(0, children@[0]));
                            lemma_dense_counted(
                                old_c->Union_type_ids@,
                                old_c->Union_offsets@,
                                old_children,
                                children@,
                                0,
                            );
                        }
                    } else {
                        type_ids.push(0);
                        let mut i: usize = 0;
                        while i < children.len()
                            invariant
                                *s is Union,
                                s->cases == *cases,
                                children@.len() == cases@.len() == old_children.len(),
                                0 <= i <= children@.len(),
                                forall|j: int|
                                    0 <= j < cases@.len() ==> column_len(
                                        #[trigger] old_children[j],
                                    ) == n && match cases@[j].payload {
                                        Some(p) => wf(p, old_children[j]) && built(p, old_children[j]),
                                        None => old_children[j] is Leaf,
                                    },
                                forall|j: int|
                                    0 <= j < i ==> column_len(#[trigger] children@[j]) == n + 1
                                        && match cases@[j].payload {
                                        Some(p) => wf(p, children@[j]) && built(p, children@[j]) && rows(p, children@[j])
                                            == rows(p, old_children[j]).push(null_decoded(p)),
                                        None => children@[j] is Leaf,
                                    } && case_pushed(cases@[j], old_children[j], children@[j], Val::Null, true),
                                forall|j: int|
                                    i <= j < children@.len() ==> #[trigger] children@[j]
                                        == old_children[j],
                            decreases children@.len() - i,
                        {
                            match &cases[i].payload {
                                Some(p) => {
                                    proof {
                                        lemma_case_decreases(*s, i as int);
                                    }
                                    push_null(p, &mut children[i])
                                },
                                None => leaf_push(&mut children[i], Value::Null),
                            }
                            i = i + 1;
                        }
                    }
                },
                _ => {},
            }
            proof {
                let new_rows = rows(*s, *c);
                let old_rows = rows(*s, old_c);
                assert(new_rows.len() == n + 1);
                assert forall|r: int| 0 <= r < n implies new_rows[r] == old_rows[r] by {
                    let t = old_c->Union_type_ids@[r] as int;
                    assert(c->Union_type_ids@[r] as int == t);
                    if *mode == UnionMode::Dense {
                        assert(c->Union_offsets@[r] == old_c->Union_offsets@[r]);
                    }
                    assert(rows_len_ok(cases@[t], old_children[t]));
                }
                assert(new_rows[n as int] == null_decoded(*s)) by {
                    assert(rows_len_ok(cases@[0], old_children[0]));
                }
                assert(new_rows =~= old_rows.push(null_decoded(*s)));
                assert(c->Union_type_ids@ == old_c->Union_type_ids@.push(0usize));
                if *mode == UnionMode::Dense {
                    assert(c->Union_offsets@ == old_c->Union_offsets@.push(
                        column_len(old_children[0]) as usize,
                    ));
                    assert(case_pushed(cases@[0], old_children[0], c->Union_children@[0], Val::Null, true));
                } else {
                    assert(c->Union_offsets@ == old_c->Union_offsets@);
                    assert forall|i: int| 0 <= i < cases@.len() implies case_pushed(
                        #[trigger] cases@[i],
                        old_children[i],
                        c->Union_children@[i],
                        Val::Null,
                        true,
                    ) by {
                        assert(column_len(c->Union_children@[i]) == n + 1);
                    }
                }
                assert(pushed(*s, old_c, *c, Val::Null));
                assert forall|i: int| 0 <= i < cases@.len() implies match #[trigger] cases@[i].payload {
                    Some(p) => built(p, c->Union_children@[i]),
                    None => true,
                } by {
                    if *mode == UnionMode::Dense && i != 0 {
                        assert(c->Union_children@[i] == old_children[i]);
                    }
                }
                assert(built(*s, *c));
            }
        },
    }
}

/// Append a row holding `v`; a `Null` value appends a null row.
pub fn push(s: &Shape, c: &mut Column, v: &Value)
    requires
        wf(*s, *old(c)),
        v.model() is Null || well_typed(*s, v.model()),
        sizes_ok(*s, v.model()),
        built(*s, *old(c)),
    ensures
        wf(*s, *final(c)),
        built(*s, *final(c)),
        column_len(*final(c)) == column_len(*old(c)) + 1,
        rows(*s, *final(c)) == rows(*s, *old(c)).push(decoded(*s, v.model())),
        pushed(*s, *old(c), *final(c), v.model()),
    decreases s,
{
    if let Value::Null = v {
        push_null(s, c);
        return ;
    }
    match s {
        Shape::Nullable(inner) => push(inner, c, v),
        Shape::Scalar(_) => {
            let x = v.copy();
            proof {
                lemma_models_push(c->Leaf_0@, x);
            }
            leaf_push(c, x);
        },
        Shape::List { item, .. } => push_list(s, item, c, v),
        Shape::FixedList { item, .. } => push_list(s, item, c, v),
        Shape::Struct(ms) => push_struct(s, ms, c, v),
        Shape::Union { cases, mode } => push_union(s, cases, *mode, c, v),
    }
}

#[verifier::rlimit(60)]
fn push_list(s: &Shape, item: &Shape, c: &mut Column, v: &Value)
    requires
        s is List || s is FixedList,
        s is List ==> s->List_item == item,
        s is FixedList ==> s->FixedList_item == item,
        wf(*s, *old(c)),
        v is List,
        well_typed(*s, v.model()),
        sizes_ok(*s, v.model()),
        built(*s, *old(c)),
    ensures
        wf(*s, *final(c)),
        built(*s, *final(c)),
        column_len(*final(c)) == column_len(*old(c)) + 1,
        rows(*s, *final(c)) == rows(*s, *old(c)).push(decoded(*s, v.model())),
        pushed(*s, *old(c), *final(c), v.model()),
    decreases s, 0nat,
{
    let ghost old_c = *c;
    let ghost old_values = *old_c->values;
    let ghost vm = v.model();
    let items = match v {
        Value::List(items) => items,
        _ => {
            return ;
        },
    };
    proof {
        lemma_rows_len(*item, old_values);
        assert(vm == Val::List(models(items@)));
        assert forall|k: int| 0 <= k < items@.len() implies #[trigger] vm->List_0[k] == items@[k].model() by {
            lemma_models_index(items@, k);
        }
        assert forall|k: int| 0 <= k < items@.len() implies well_typed(*item, #[trigger] items@[k].model())
            && sizes_ok(*item, items@[k].model()) by {
            assert(vm->List_0[k] == items@[k].model());
        }
    }
    match c {
        Column::List { offsets, validity, values } => {
            let mut j: usize = 0;
            while j < items.len()
                invariant
                    s is List ==> s->List_item == item,
                    s is FixedList ==> s->FixedList_item == item,
                    s is List || s is FixedList,
                    vm == v.model(),
                    *v == Value::List(*items),
                    forall|k: int|
                        0 <= k < items@.len() ==> well_typed(*item, #[trigger] items@[k].model())
                            && sizes_ok(*item, items@[k].model()),
                    0 <= j <= items@.len(),
                    wf(*item, **values),
                    built(*item, **values),
                    column_len(**values) == column_len(old_values) + j,
                    rows(*item, **values) == rows(*item, old_values) + Seq::new(
                        j as nat,
                        |k: int| decoded(*item, items@[k].model()),
                    ),
                decreases items@.len() - j,
            {
                proof {
                    if s is List {
                        assert(decreases_to!(*s => s->List_item));
                    } else {
                        assert(decreases_to!(*s => s->FixedList_item));
                    }
                }
                let ghost before = rows(*item, **values);
                push(item, values, &items[j]);
                proof {
                    assert(rows(*item, **values) =~= rows(*item, old_values) + Seq::new(
                        (j + 1) as nat,
                        |k: int| decoded(*item, items@[k].model()),
                    ));
                }
                j = j + 1;
            }
            let end = col_len(values);
            offsets.push(end);
            validity.push(true);
        },
        _ => {},
    }
    proof {
        let new_rows = rows(*s, *c);
        let old_rows = rows(*s, old_c);
        let n = old_c->List_validity@.len();
        let start = column_len(old_values);
        let k = items@.len();
        lemma_rows_len(*item, *c->values);
        let all = rows(*item, *c->values);
        assert(all.subrange(start as int, (start + k) as int) =~= Seq::new(
            k as nat,
            |i: int| decoded(*item, items@[i].model()),
        ));
        assert(decoded(*s, vm)->List_0 =~= Seq::new(
            k as nat,
            |i: int| decoded(*item, items@[i].model()),
        ));
        assert forall|r: int| 0 <= r < n implies new_rows[r] == old_rows[r] by {
            if old_c->List_validity@[r] {
                assert(old_c->List_offsets@[r] <= old_c->List_offsets@[r + 1]);
                assert(old_c->List_offsets@[r + 1] <= old_c->List_offsets@[n as int]);
                assert(new_rows[r]->List_0 =~= old_rows[r]->List_0);
            }
        }
        assert(new_rows =~= old_rows.push(decoded(*s, vm)));
        assert(c->List_offsets@ =~= old_c->List_offsets@.push(
            (old_c->List_offsets@.last() + vm->List_0.len()) as usize,
        ));
        assert(list_pushed(old_c, *c, vm));
        assert(built(*s, *c));
    }
}

fn push_struct(s: &Shape, ms: &Vec<Member>, c: &mut Column, v: &Value)
    requires
        *s == Shape::Struct(*ms),
        wf(*s, *old(c)),
        v is Struct,
        well_typed(*s, v.model()),
        sizes_ok(*s, v.model()),
        built(*s, *old(c)),
    ensures
        wf(*s, *final(c)),
        built(*s, *final(c)),
        column_len(*final(c)) == column_len(*old(c)) + 1,
        rows(*s, *final(c)) == rows(*s, *old(c)).push(decoded(*s, v.model())),
        pushed(*s, *old(c), *final(c), v.model()),
    decreases s, 0nat,
{
    let ghost old_c = *c;
    let ghost old_children = old_c->Struct_children@;
    let ghost vm = v.model();
    let fields = match v {
        Value::Struct(fields) => fields,
        _ => {
            return ;
        },
    };
    proof {
        assert forall|j: int| 0 <= j < ms@.len() implies #[trigger] rows(
            ms@[j].shape,
            old_children[j],
        ).len() == column_len(old_children[0]) by {
            lemma_rows_len(ms@[j].shape, old_children[j]);
        }
        assert(vm == Val::Struct(models(fields@)));
        assert forall|k: int| 0 <= k < fields@.len() implies #[trigger] vm->Struct_0[k] == fields@[k].model() by {
            lemma_models_index(fields@, k);
        }
        assert forall|k: int| 0 <= k < ms@.len() implies (#[trigger] fields@[k].model() is Null || well_typed(
            ms@[k].shape,
            fields@[k].model(),
        )) && sizes_ok(ms@[k].shape, fields@[k].model()) by {
            assert(vm->Struct_0[k] == fields@[k].model());
        }
    }
    match c {
        Column::Struct { validity, children } => {
            let mut i: usize = 0;
            while i < children.len()
                invariant
                    *s == Shape::Struct(*ms),
                    vm == v.model(),
                    *v == Value::Struct(*fields),
                    forall|k: int|
                        0 <= k < ms@.len() ==> (#[trigger] fields@[k].model() is Null || well_typed(
                            ms@[k].shape,
                            fields@[k].model(),
                        )) && sizes_ok(ms@[k].shape, fields@[k].model()),
                    fields@.len() == ms@.len(),
                    children@.len() == ms@.len() == old_children.len(),
                    ms@.len() > 0,
                    0 <= i <= children@.len(),
                    forall|j: int|
                        0 <= j < ms@.len() ==> wf(ms@[j].shape, #[trigger] old_children[j])
                            && column_len(old_children[j]) == column_len(old_children[0])
                            && built(ms@[j].shape, old_children[j]),
                    forall|j: int|
                        0 <= j < i ==> wf(ms@[j].shape, #[trigger] children@[j]) && column_len(
                            children@[j],
                        ) == column_len(old_children[0]) + 1 && rows(ms@[j].shape, children@[j])
                            == rows(ms@[j].shape, old_children[j]).push(
                            decoded(ms@[j].shape, fields@[j].model()),
                        ) && pushed(ms@[j].shape, old_children[j], children@[j], fields@[j].model())
                            && built(ms@[j].shape, children@[j]),
                    forall|j: int|
                        i <= j < children@.len() ==> #[trigger] children@[j] == old_children[j],
                decreases children@.len() - i,
            {
                proof {
                    lemma_member_decreases(*s, i as int);
                }
                push(&ms[i].shape, &mut children[i], &fields[i]);
                i = i + 1;
            }
            match validity {
                Some(b) => b.push(true),
                None => {},
            }
        },
        _ => {},
    }
    proof {
        let new_rows = rows(*s, *c);
        let old_rows = rows(*s, old_c);
        let n = column_len(old_children[0]);
        assert(new_rows.len() == n + 1);
        assert forall|r: int| 0 <= r < n implies new_rows[r] == old_rows[r] by {
            if row_valid(old_c->Struct_validity, r) {
                assert(new_rows[r]->Struct_0 =~= old_rows[r]->Struct_0);
            }
        }
        assert(new_rows[n as int]->Struct_0 =~= decoded(*s, vm)->Struct_0);
        assert(new_rows =~= old_rows.push(decoded(*s, vm)));
        assert forall|i: int| 0 <= i < ms@.len() implies pushed(
            #[trigger] ms@[i].shape,
            old_children[i],
            c->Struct_children@[i],
            vm->Struct_0[i],
        ) by {
            assert(vm->Struct_0[i] == fields@[i].model());
        }
        assert(pushed(*s, old_c, *c, vm));
        assert(built(*s, *c));
    }
}

fn push_union(s: &Shape, cases: &Vec<Case>, mode: UnionMode, c: &mut Column, v: &Value)
    requires
        *s == (Shape::Union { cases: *cases, mode }),
        wf(*s, *old(c)),
        v is Union,
        well_typed(*s, v.model()),
        sizes_ok(*s, v.model()),
        built(*s, *old(c)),
    ensures
        wf(*s, *final(c)),
        built(*s, *final(c)),
        column_len(*final(c)) == column_len(*old(c)) + 1,
        rows(*s, *final(c)) == rows(*s, *old(c)).push(decoded(*s, v.model())),
        pushed(*s, *old(c), *final(c), v.model()),
    decreases s, 0nat,
{
    let ghost old_c = *c;
    let ghost old_children = old_c->Union_children@;
    let ghost n = old_c->Union_type_ids@.len();
    let ghost vm = v.model();
    let (t, p) = match v {
        Value::Union(t, p) => (*t, p),
        _ => {
            return ;
        },
    };
    proof {
        assert forall|j: int| 0 <= j < cases@.len() implies #[trigger] rows_len_ok(
            cases@[j],
            old_children[j],
        ) by {
            if let Some(q) = cases@[j].payload {
                lemma_rows_len(q, old_children[j]);
            }
        }
        assert(vm->Union_1 == p.model());
    }
    match c {
        Column::Union { type_ids, offsets, children } => {
            if mode == UnionMode::Dense {
                match &cases[t].payload {
                    Some(q) => {
                        proof {
                            lemma_case_decreases(*s, t as int);
                        }
                        push(q, &mut children[t], p);
                    },
                    None => leaf_push(&mut children[t], Value::Bool(true)),
                }
                let off = col_len(&children[t]) - 1;
                offsets.push(off);
                type_ids.push(t);
                proof {
                    lemma_sum_lens_update(old_children, t as int, children@[t as int]);
                    assert(children@ =~= old_children.update(t as int, children@[t as int]));
                    lemma_dense_counted(
                        old_c->Union_type_ids@,
                        old_c->Union_offsets@,
                        old_children,
                        children@,
                        t as int,
                    );
                }
            } else {
                let mut i: usize = 0;
                while i < children.len()
                    invariant
                        *s == (Shape::Union { cases: *cases, mode }),
                        mode == UnionMode::Sparse,
                        t < cases@.len(),
                        vm == v.model(),
                        well_typed(*s, vm),
                        sizes_ok(*s, vm),
                        vm->Union_0 == t,
                        vm->Union_1 == p.model(),
                        children@.len() == cases@.len() == old_children.len(),
                        0 <= i <= children@.len(),
                        forall|j: int|
                            0 <= j < cases@.len() ==> column_len(#[trigger] old_children[j]) == n
                                && match cases@[j].payload {
                                Some(q) => wf(q, old_children[j]) && built(q, old_children[j]),
                                None => old_children[j] is Leaf,
                            },
                        forall|j: int|
                            0 <= j < i ==> column_len(#[trigger] children@[j]) == n + 1
                                && match cases@[j].payload {
                                Some(q) => wf(q, children@[j]) && built(q, children@[j]) && rows(q, children@[j]) == rows(
                                    q,
                                    old_children[j],
                                ).push(
                                    if j == t {
                                        decoded(q, p.model())
                                    } else {
                                        null_decoded(q)
                                    },
                                ),
                                None => children@[j] is Leaf,
                            } && if j == t {
                                case_pushed(cases@[j], old_children[j], children@[j], p.model(), false)
                            } else {
                                case_pushed(cases@[j], old_children[j], children@[j], Val::Null, true)
                            },
                        forall|j: int|
                            i <= j < children@.len() ==> #[trigger] children@[j]
                                == old_children[j],
                    decreases children@.len() - i,
                {
                    match &cases[i].payload {
                        Some(q) => {
                            proof {
                                lemma_case_decreases(*s, i as int);
                            }
                            if i == t {
                                push(q, &mut children[i], p);
                            } else {
                                push_null(q, &mut children[i]);
                            }
                        },
                        None => {
                            if i == t {
                                leaf_push(&mut children[i], Value::Bool(true));
                            } else {
                                leaf_push(&mut children[i], Value::Null);
                            }
                        },
                    }
                    i = i + 1;
                }
                type_ids.push(t);
            }
        },
        _ => {},
    }
    proof {
        let new_rows = rows(*s, *c);
        let old_rows = rows(*s, old_c);
        assert(new_rows.len() == n + 1);
        assert forall|r: int| 0 <= r < n implies new_rows[r] == old_rows[r] by {
            let tr = old_c->Union_type_ids@[r] as int;
            assert(c->Union_type_ids@[r] as int == tr);
            if mode == UnionMode::Dense {
                assert(c->Union_offsets@[r] == old_c->Union_offsets@[r]);
            }
            assert(rows_len_ok(cases@[tr], old_children[tr]));
        }
        assert(new_rows[n as int] == decoded(*s, vm)) by {
            assert(rows_len_ok(cases@[t as int], old_children[t as int]));
        }
        assert(new_rows =~= old_rows.push(decoded(*s, vm)));
        assert(c->Union_type_ids@ == old_c->Union_type_ids@.push(t));
        if mode == UnionMode::Dense {
            assert(c->Union_offsets@ == old_c->Union_offsets@.push(
                column_len(old_children[t as int]) as usize,
            ));
            assert(case_pushed(cases@[t as int], old_children[t as int], c->Union_children@[t as int], p.model(), false));
        } else {
            assert(c->Union_offsets@ == old_c->Union_offsets@);
        }
        assert(pushed(*s, old_c, *c, vm));
        assert forall|i: int| 0 <= i < cases@.len() implies match #[trigger] cases@[i].payload {
            Some(q) => built(q, c->Union_children@[i]),
            None => true,
        } by {
            if mode == UnionMode::Dense && i != t {
                assert(c->Union_children@[i] == old_children[i]);
            }
        }
        assert(built(*s, *c));
    }
}

proof fn lemma_sum_lens_zero(cs: Seq<Column>)
    requires
        forall|i: int| 0 <= i < cs.len() ==> column_len(#[trigger] cs[i]) == 0,
    ensures
        sum_lens(cs) == 0,
    decreases cs.len(),
{
    if cs.len() > 0 {
        lemma_sum_lens_zero(cs.drop_last());
    }
}

/// An empty column for a shape.
pub fn new_column(s: &Shape) -> (c: Column)
    requires
        buildable(*s),
    ensures
        wf(*s, c),
        built(*s, c),
        column_len(c) == 0,
        rows(*s, c) == Seq::<Val>::empty(),
    decreases s,
{
    let c = match s {
        Shape::Scalar(_) => Column::Leaf(Vec::new()),
        Shape::Nullable(inner) => new_column(inner),
        Shape::List { item, .. } => {
            let values = new_column(item);
            let mut offsets: Vec<usize> = Vec::new();
            offsets.push(0);
            Column::List { offsets, validity: Vec::new(), values: Box::new(values) }
        },
        Shape::FixedList { item, .. } => {
            let values = new_column(item);
            let mut offsets: Vec<usize> = Vec::new();
            offsets.push(0);
            Column::List { offsets, validity: Vec::new(), values: Box::new(values) }
        },
        Shape::Struct(ms) => {
            let mut children: Vec<Column> = Vec::new();
            let mut i: usize = 0;
            while i < ms.len()
                invariant
                    *s == Shape::Struct(*ms),
                    buildable(*s),
                    0 <= i <= ms@.len(),
                    children@.len() == i,
                    forall|j: int|
                        0 <= j < i ==> wf(ms@[j].shape, #[trigger] children@[j]) && column_len(
                            children@[j],
                        ) == 0 && built(ms@[j].shape, children@[j]),
                decreases ms@.len() - i,
            {
                proof {
                    lemma_member_decreases(*s, i as int);
                }
                let child = new_column(&ms[i].shape);
                children.push(child);
                i = i + 1;
            }
            Column::Struct { validity: None, children }
        },
        Shape::Union { cases, .. } => {
            let mut children: Vec<Column> = Vec::new();
            let mut i: usize = 0;
            while i < cases.len()
                invariant
                    *s is Union,
                    s->cases == *cases,
                    buildable(*s),
                    0 <= i <= cases@.len(),
                    children@.len() == i,
                    forall|j: int|
                        0 <= j < i ==> column_len(#[trigger] children@[j]) == 0 && match cases@[j].payload {
                            Some(p) => wf(p, children@[j]) && built(p, children@[j]),
                            None => children@[j] is Leaf,
                        },
                decreases cases@.len() - i,
            {
                let child = match &cases[i].payload {
                    Some(p) => {
                        proof {
                            lemma_case_decreases(*s, i as int);
                        }
                        new_column(p)
                    },
                    None => Column::Leaf(Vec::new()),
                };
                children.push(child);
                i = i + 1;
            }
            proof {
                lemma_sum_lens_zero(children@);
            }
            Column::Union { type_ids: Vec::new(), offsets: Vec::new(), children }
        },
    };
    proof {
        lemma_rows_len(*s, c);
        assert(rows(*s, c) =~= Seq::<Val>::empty());
    }
    c
}

proof fn lemma_models_from(out: Seq<Value>, rs: Seq<Val>)
    requires
        out.len() == rs.len(),
        forall|k: int| 0 <= k < out.len() ==> #[trigger] out[k].model() == rs[k],
    ensures
        models(out) == rs,
{
    assert forall|k: int| 0 <= k < out.len() implies models(out)[k] == rs[k] by {
        lemma_models_index(out, k);
    }
    assert(models(out) =~= rs);
}

/// Copies of `vs[start..end]`.
fn copy_range(vs: &Vec<Value>, start: usize, end: usize) -> (r: Vec<Value>)
    requires
        start <= end <= vs@.len(),
    ensures
        models(r@) == models(vs@).subrange(start as int, end as int),
{
    let mut out: Vec<Value> = Vec::new();
    let mut k: usize = start;
    while k < end
        invariant
            start <= k <= end <= vs@.len(),
            out@.len() == k - start,
            forall|j: int| 0 <= j < k - start ==> #[trigger] out@[j].model() == vs@[start + j].model(),
        decreases end - k,
    {
        out.push(vs[k].copy());
        k = k + 1;
    }
    proof {
        let want = models(vs@).subrange(start as int, end as int);
        assert forall|j: int| 0 <= j < out@.len() implies #[trigger] out@[j].model() == want[j] by {
            lemma_models_index(vs@, start + j);
        }
        lemma_models_from(out@, want);
    }
    out
}

/// The rows of a column, read back as values.
pub fn read(s: &Shape, c: &Column) -> (r: Vec<Value>)
    requires
        wf(*s, *c),
    ensures
        models(r@) == rows(*s, *c),
    decreases s,
{
    proof {
        lemma_rows_len(*s, *c);
    }
    match s {
        Shape::Nullable(inner) => read(inner, c),
        Shape::Scalar(_) => match c {
            Column::Leaf(vs) => {
                let out = copy_values(vs);
                proof {
                    lemma_models_eq(out@, vs@);
                }
                out
            },
            _ => Vec::new(),
        },
        Shape::List { item, .. } => read_list(s, item, c),
        Shape::FixedList { item, .. } => read_list(s, item, c),
        Shape::Struct(ms) => read_struct(s, ms, c),
        Shape::Union { cases, mode } => read_union(s, cases, *mode, c),
    }
}

fn read_list(s: &Shape, item: &Shape, c: &Column) -> (r: Vec<Value>)
    requires
        s is List || s is FixedList,
        s is List ==> s->List_item == item,
        s is FixedList ==> s->FixedList_item == item,
        wf(*s, *c),
    ensures
        models(r@) == rows(*s, *c),
    decreases s, 0nat,
{
    match c {
        Column::List { offsets, validity, values } => {
            proof {
                if s is List {
                    assert(decreases_to!(*s => s->List_item));
                } else {
                    assert(decreases_to!(*s => s->FixedList_item));
                }
                lemma_rows_len(*item, **values);
            }
            let items = read(item, values);
            let ghost want = rows(*s, *c);
            let mut out: Vec<Value> = Vec::new();
            let mut r: usize = 0;
            while r < validity.len()
                invariant
                    want == list_rows(models(items@), offsets@, validity@),
                    offsets_ok(offsets@, validity@.len(), models(items@).len()),
                    0 <= r <= validity@.len(),
                    out@.len() == r,
                    forall|k: int| 0 <= k < r ==> #[trigger] out@[k].model() == want[k],
                decreases validity@.len() - r,
            {
                if validity[r] {
                    let piece = copy_range(&items, offsets[r], offsets[r + 1]);
                    let x = Value::List(piece);
                    out.push(x);
                } else {
                    out.push(Value::Null);
                }
                r = r + 1;
            }
            proof {
                lemma_models_from(out@, want);
            }
            out
        },
        _ => Vec::new(),
    }
}

fn read_struct(s: &Shape, ms: &Vec<Member>, c: &Column) -> (r: Vec<Value>)
    requires
        *s == Shape::Struct(*ms),
        wf(*s, *c),
    ensures
        models(r@) == rows(*s, *c),
    decreases s, 0nat,
{
    match c {
        Column::Struct { validity, children } => {
            let ghost want = rows(*s, *c);
            let mut child_rows: Vec<Vec<Value>> = Vec::new();
            let mut i: usize = 0;
            while i < children.len()
                invariant
                    *s == Shape::Struct(*ms),
                    wf(*s, *c),
                    *c == (Column::Struct { validity: *validity, children: *children }),
                    0 <= i <= children@.len(),
                    child_rows@.len() == i,
                    forall|j: int|
                        0 <= j < i ==> models(#[trigger] child_rows@[j]@) == rows(
                            ms@[j].shape,
                            children@[j],
                        ),
                decreases children@.len() - i,
            {
                proof {
                    lemma_member_decreases(*s, i as int);
                }
                let rs = read(&ms[i].shape, &children[i]);
                child_rows.push(rs);
                i = i + 1;
            }
            let n = col_len(&children[0]);
            proof {
                assert forall|j: int| 0 <= j < ms@.len() implies #[trigger] child_rows@[j]@.len()
                    == n by {
                    lemma_rows_len(ms@[j].shape, children@[j]);
                }
            }
            let mut out: Vec<Value> = Vec::new();
            let mut r: usize = 0;
            while r < n
                invariant
                    *s == Shape::Struct(*ms),
                    wf(*s, *c),
                    *c == (Column::Struct { validity: *validity, children: *children }),
                    want == rows(*s, *c),
                    n == column_len(*c),
                    child_rows@.len() == ms@.len(),
                    forall|j: int|
                        0 <= j < ms@.len() ==> models(#[trigger] child_rows@[j]@) == rows(
                            ms@[j].shape,
                            children@[j],
                        ) && child_rows@[j]@.len() == n,
                    0 <= r <= n,
                    out@.len() == r,
                    forall|k: int| 0 <= k < r ==> #[trigger] out@[k].model() == want[k],
                decreases n - r,
            {
                let valid = match validity {
                    Some(b) => b[r],
                    None => true,
                };
                if valid {
                    let mut fields: Vec<Value> = Vec::new();
                    let mut i: usize = 0;
                    while i < child_rows.len()
                        invariant
                            child_rows@.len() == ms@.len(),
                            forall|j: int|
                                0 <= j < ms@.len() ==> models(#[trigger] child_rows@[j]@) == rows(
                                    ms@[j].shape,
                                    children@[j],
                                ) && child_rows@[j]@.len() == n,
                            r < n,
                            0 <= i <= child_rows@.len(),
                            fields@.len() == i,
                            forall|j: int|
                                0 <= j < i ==> #[trigger] fields@[j].model() == rows(
                                    ms@[j].shape,
                                    children@[j],
                                )[r as int],
                        decreases child_rows@.len() - i,
                    {
                        proof {
                            lemma_models_index(child_rows@[i as int]@, r as int);
                        }
                        fields.push(child_rows[i][r].copy());
                        i = i + 1;
                    }
                    proof {
                        lemma_models_from(fields@, want[r as int]->Struct_0);
                    }
                    out.push(Value::Struct(fields));
                } else {
                    out.push(Value::Null);
                }
                r = r + 1;
            }
            proof {
                lemma_rows_len(*s, *c);
                lemma_models_from(out@, want);
            }
            out
        },
        _ => Vec::new(),
    }
}

fn read_union(s: &Shape, cases: &Vec<Case>, mode: UnionMode, c: &Column) -> (r: Vec<Value>)
    requires
        *s == (Shape::Union { cases: *cases, mode }),
        wf(*s, *c),
    ensures
        models(r@) == rows(*s, *c),
    decreases s, 0nat,
{
    match c {
        Column::Union { type_ids, offsets, children } => {
            let ghost want = rows(*s, *c);
            let mut child_rows: Vec<Vec<Value>> = Vec::new();
            let mut i: usize = 0;
            while i < children.len()
                invariant
                    *s == (Shape::Union { cases: *cases, mode }),
                    wf(*s, *c),
                    *c == (Column::Union {
                        type_ids: *type_ids,
                        offsets: *offsets,
                        children: *children,
                    }),
                    0 <= i <= children@.len(),
                    child_rows@.len() == i,
                    forall|j: int|
                        0 <= j < i ==> match cases@[j].payload {
                            Some(p) => models(#[trigger] child_rows@[j]@) == rows(p, children@[j])
                                && child_rows@[j]@.len() == column_len(children@[j]),
                            None => true,
                        },
                decreases children@.len() - i,
            {
                let rs = match &cases[i].payload {
                    Some(p) => {
                        proof {
                            lemma_case_decreases(*s, i as int);
                        }
                        let rs = read(p, &children[i]);
                        proof {
                            lemma_rows_len(*p, children@[i as int]);
                        }
                        rs
                    },
                    None => Vec::new(),
                };
                child_rows.push(rs);
                i = i + 1;
            }
            let mut out: Vec<Value> = Vec::new();
            let mut r: usize = 0;
            while r < type_ids.len()
                invariant
                    *s == (Shape::Union { cases: *cases, mode }),
                    wf(*s, *c),
                    *c == (Column::Union {
                        type_ids: *type_ids,
                        offsets: *offsets,
                        children: *children,
                    }),
                    want == rows(*s, *c),
                    child_rows@.len() == cases@.len(),
                    forall|j: int|
                        0 <= j < cases@.len() ==> match cases@[j].payload {
                            Some(p) => models(#[trigger] child_rows@[j]@) == rows(p, children@[j])
                                && child_rows@[j]@.len() == column_len(children@[j]),
                            None => true,
                        },
                    0 <= r <= type_ids@.len(),
                    out@.len() == r,
                    forall|k: int| 0 <= k < r ==> #[trigger] out@[k].model() == want[k],
                decreases type_ids@.len() - r,
            {
                let t = type_ids[r];
                let off = if mode == UnionMode::Dense {
                    offsets[r]
                } else {
                    r
                };
                proof {
                    assert(t < cases@.len());
                }
                let x = match &cases[t].payload {
                    None => {
                        let z = Value::Union(t, Box::new(Value::Null));
                        proof {
                            assert(want[r as int] == union_row(t as nat, true, Val::Null));
                            assert(z.model() == want[r as int]);
                        }
                        z
                    },
                    Some(p) => {
                        proof {
                            lemma_models_index(child_rows@[t as int]@, off as int);
                        }
                        let y = child_rows[t][off].copy();
                        proof {
                            assert(y.model() == rows(*p, children@[t as int])[off as int]);
                            assert(want[r as int] == union_row(t as nat, false, y.model()));
                        }
                        if let Value::Null = y {
                            Value::Null
                        } else {
                            let z = Value::Union(t, Box::new(y));
                            proof {
                                assert(z.model() == Val::Union(t as nat, Box::new(y.model())));
                            }
                            z
                        }
                    },
                };
                out.push(x);
                r = r + 1;
            }
            proof {
                lemma_rows_len(*s, *c);
                lemma_models_from(out@, want);
            }
            out
        },
        _ => Vec::new(),
    }
}

/// Null alignment: in a well-formed struct column every child column has
/// the struct's row count, nulls included, and is itself well formed, so the
/// same holds at every nesting depth. `push` and `push_null` keep columns
/// well formed.
pub proof fn lemma_struct_alignment(s: Shape, c: Column)
    requires
        wf(s, c),
        s is Struct,
    ensures
        c is Struct,
        forall|i: int|
            0 <= i < c->Struct_children@.len() ==> column_len(#[trigger] c->Struct_children@[i])
                == column_len(c) && wf(s->Struct_0@[i].shape, c->Struct_children@[i]),
        c->Struct_validity is Some ==> c->Struct_validity->Some_0@.len() == column_len(c),
{
}

/// Union layout: in a well-formed sparse union column every variant column
/// has one row per union row; in a dense one the variant columns together
/// hold one row per union row and each row's offset lies inside its
/// variant's column.
pub proof fn lemma_union_layout(s: Shape, c: Column)
    requires
        wf(s, c),
        s is Union,
    ensures
        c is Union,
        s->mode == UnionMode::Sparse ==> forall|i: int|
            0 <= i < c->Union_children@.len() ==> column_len(#[trigger] c->Union_children@[i])
                == column_len(c),
        s->mode == UnionMode::Dense ==> {
            &&& sum_lens(c->Union_children@) == column_len(c)
            &&& forall|r: int|
                0 <= r < column_len(c) ==> #[trigger] c->Union_offsets@[r] < column_len(
                    c->Union_children@[c->Union_type_ids@[r] as int],
                )
        },
{
}

/// Whether an offset stream is well formed over `rows` rows and `items`
/// items.
fn check_offsets(offsets: &Vec<usize>, rows: usize, items: usize) -> (r: bool)
    ensures
        r == offsets_ok(offsets@, rows as nat, items as nat),
{
    if offsets.len() == 0 || offsets.len() - 1 != rows || offsets[0] != 0 || offsets[rows] != items {
        return false;
    }
    let mut r: usize = 0;
    while r < rows
        invariant
            offsets@.len() == rows + 1,
            0 <= r <= rows,
            forall|i: int, j: int| 0 <= i <= j <= r ==> #[trigger] offsets@[i] <= #[trigger] offsets@[j],
        decreases rows - r,
    {
        if offsets[r] > offsets[r + 1] {
            return false;
        }
        proof {
            assert forall|i: int, j: int| 0 <= i <= j <= r + 1 implies #[trigger] offsets@[i]
                <= #[trigger] offsets@[j] by {
                if j == r + 1 && i <= r {
                    assert(offsets@[i] <= offsets@[r as int]);
                }
            }
        }
        r = r + 1;
    }
    true
}

/// Whether a column is laid out as a column of the shape (see [`wf`]).
pub fn check_layout(s: &Shape, c: &Column) -> (r: bool)
    ensures
        r == wf(*s, *c),
    decreases s,
{
    match s {
        Shape::Scalar(_) => matches!(c, Column::Leaf(_)),
        Shape::Nullable(inner) => check_layout(inner, c),
        Shape::List { item, .. } => match c {
            Column::List { offsets, validity, values } => {
                proof {
                    assert(decreases_to!(*s => s->List_item));
                }
                check_offsets(offsets, validity.len(), col_len(values)) && check_layout(item, values)
            },
            _ => false,
        },
        Shape::FixedList { item, size } => match c {
            Column::List { offsets, validity, values } => {
                proof {
                    assert(decreases_to!(*s => s->FixedList_item));
                }
                if !check_offsets(offsets, validity.len(), col_len(values)) || !check_layout(
                    item,
                    values,
                ) {
                    return false;
                }
                let mut r: usize = 0;
                while r < validity.len()
                    invariant
                        *s == (Shape::FixedList { item: *item, size: *size }),
                        *c == (Column::List { offsets: *offsets, validity: *validity, values: *values }),
                        wf(**item, **values),
                        offsets_ok(offsets@, validity@.len(), column_len(**values)),
                        0 <= r <= validity@.len(),
                        forall|k: int|
                            0 <= k < r ==> offsets@[k + 1] - offsets@[k] == if #[trigger] validity@[k] {
                                *size as int
                            } else {
                                0
                            },
                    decreases validity@.len() - r,
                {
                    let want: usize = if validity[r] {
                        *size
                    } else {
                        0
                    };
                    proof {
                        assert(offsets@[r as int] <= offsets@[r + 1]);
                    }
                    if offsets[r + 1] - offsets[r] != want {
                        proof {
                            assert(!(offsets@[r + 1] - offsets@[r as int] == if validity@[r as int] {
                                *size as int
                            } else {
                                0
                            }));
                        }
                        return false;
                    }
                    r = r + 1;
                }
                true
            },
            _ => false,
        },
        Shape::Struct(ms) => match c {
            Column::Struct { validity, children } => {
                if ms.len() == 0 || children.len() != ms.len() {
                    return false;
                }
                let n = col_len(&children[0]);
                match validity {
                    Some(b) => {
                        if b.len() != n {
                            return false;
                        }
                    },
                    None => {},
                }
                let mut i: usize = 0;
                while i < ms.len()
                    invariant
                        *s == Shape::Struct(*ms),
                        *c == (Column::Struct { validity: *validity, children: *children }),
                        ms@.len() > 0,
                        validity is Some ==> validity->Some_0@.len() == n,
                        children@.len() == ms@.len(),
                        n == column_len(children@[0]),
                        0 <= i <= ms@.len(),
                        forall|j: int|
                            0 <= j < i ==> column_len(#[trigger] children@[j]) == n && wf(
                                ms@[j].shape,
                                children@[j],
                            ),
                    decreases ms@.len() - i,
                {
                    proof {
                        lemma_member_decreases(*s, i as int);
                    }
                    if col_len(&children[i]) != n || !check_layout(&ms[i].shape, &children[i]) {
                        proof {
                            assert(!(column_len(children@[i as int]) == column_len(children@[0])
                                && wf(ms@[i as int].shape, children@[i as int])));
                        }
                        return false;
                    }
                    i = i + 1;
                }
                true
            },
            _ => false,
        },
        Shape::Union { cases, mode } => match c {
            Column::Union { type_ids, offsets, children } => check_union(
                s,
                cases,
                *mode,
                type_ids,
                offsets,
                children,
            ),
            _ => false,
        },
    }
}

fn check_union(
    s: &Shape,
    cases: &Vec<Case>,
    mode: UnionMode,
    type_ids: &Vec<usize>,
    offsets: &Vec<usize>,
    children: &Vec<Column>,
) -> (r: bool)
    requires
        *s == (Shape::Union { cases: *cases, mode }),
    ensures
        r == wf(
            *s,
            Column::Union { type_ids: *type_ids, offsets: *offsets, children: *children },
        ),
    decreases s, 0nat,
{
    if cases.len() == 0 || children.len() != cases.len() {
        return false;
    }
    let mut r: usize = 0;
    while r < type_ids.len()
        invariant
            *s == (Shape::Union { cases: *cases, mode }),
            cases@.len() > 0,
            children@.len() == cases@.len(),
            0 <= r <= type_ids@.len(),
            forall|k: int| 0 <= k < r ==> #[trigger] type_ids@[k] < cases@.len(),
        decreases type_ids@.len() - r,
    {
        if type_ids[r] >= cases.len() {
            proof {
                assert(!(type_ids@[r as int] < cases@.len()));
            }
            return false;
        }
        r = r + 1;
    }
    let mut i: usize = 0;
    while i < cases.len()
        invariant
            *s == (Shape::Union { cases: *cases, mode }),
            cases@.len() > 0,
            forall|k: int| 0 <= k < type_ids@.len() ==> #[trigger] type_ids@[k] < cases@.len(),
            children@.len() == cases@.len(),
            0 <= i <= cases@.len(),
            forall|j: int|
                0 <= j < i ==> match #[trigger] cases@[j].payload {
                    Some(p) => wf(p, children@[j]),
                    None => children@[j] is Leaf,
                },
        decreases cases@.len() - i,
    {
        let ok = match &cases[i].payload {
            Some(p) => {
                proof {
                    lemma_case_decreases(*s, i as int);
                }
                check_layout(p, &children[i])
            },
            None => matches!(children[i], Column::Leaf(_)),
        };
        if !ok {
            proof {
                assert(!match cases@[i as int].payload {
                    Some(p) => wf(p, children@[i as int]),
                    None => children@[i as int] is Leaf,
                });
            }
            return false;
        }
        i = i + 1;
    }
    let n = type_ids.len();
    if mode == UnionMode::Dense {
        if offsets.len() != n {
            return false;
        }
        let mut total: usize = 0;
        let mut i: usize = 0;
        while i < children.len()
            invariant
                *s == (Shape::Union { cases: *cases, mode }),
                cases@.len() > 0,
                forall|k: int| 0 <= k < type_ids@.len() ==> #[trigger] type_ids@[k] < cases@.len(),
                forall|j: int|
                    0 <= j < cases@.len() ==> match #[trigger] cases@[j].payload {
                        Some(p) => wf(p, children@[j]),
                        None => children@[j] is Leaf,
                    },
                children@.len() == cases@.len(),
                n == type_ids@.len(),
                mode == UnionMode::Dense,
                offsets@.len() == n,
                0 <= i <= children@.len(),
                total == sum_lens(children@.subrange(0, i as int)),
                total <= n,
            decreases children@.len() - i,
        {
            let len = col_len(&children[i]);
            proof {
                assert(children@.subrange(0, i + 1).drop_last() =~= children@.subrange(0, i as int));
            }
            if len > n - total {
                proof {
                    lemma_sum_lens_prefix(children@, i + 1);
                    assert(sum_lens(children@.subrange(0, i + 1)) == total + len);
                    assert(sum_lens(children@) > n);
                }
                return false;
            }
            total = total + len;
            i = i + 1;
        }
        proof {
            assert(children@.subrange(0, children@.len() as int) =~= children@);
        }
        if total != n {
            return false;
        }
        let mut r: usize = 0;
        while r < n
            invariant
                *s == (Shape::Union { cases: *cases, mode }),
                cases@.len() > 0,
                forall|k: int| 0 <= k < type_ids@.len() ==> #[trigger] type_ids@[k] < cases@.len(),
                forall|j: int|
                    0 <= j < cases@.len() ==> match #[trigger] cases@[j].payload {
                        Some(p) => wf(p, children@[j]),
                        None => children@[j] is Leaf,
                    },
                children@.len() == cases@.len(),
                n == type_ids@.len(),
                mode == UnionMode::Dense,
                sum_lens(children@) == n,
                offsets@.len() == n,
                children@.len() == cases@.len(),
                forall|k: int| 0 <= k < n ==> #[trigger] type_ids@[k] < cases@.len(),
                0 <= r <= n,
                forall|k: int|
                    0 <= k < r ==> #[trigger] offsets@[k] < column_len(
                        children@[type_ids@[k] as int],
                    ),
            decreases n - r,
        {
            if offsets[r] >= col_len(&children[type_ids[r]]) {
                proof {
                    assert(!(offsets@[r as int] < column_len(children@[type_ids@[r as int] as int])));
                }
                return false;
            }
            r = r + 1;
        }
        true
    } else {
        if offsets.len() != 0 {
            return false;
        }
        let mut i: usize = 0;
        while i < children.len()
            invariant
                *s == (Shape::Union { cases: *cases, mode }),
                cases@.len() > 0,
                forall|k: int| 0 <= k < type_ids@.len() ==> #[trigger] type_ids@[k] < cases@.len(),
                forall|j: int|
                    0 <= j < cases@.len() ==> match #[trigger] cases@[j].payload {
                        Some(p) => wf(p, children@[j]),
                        None => children@[j] is Leaf,
                    },
                children@.len() == cases@.len(),
                n == type_ids@.len(),
                mode == UnionMode::Sparse,
                offsets@.len() == 0,
                0 <= i <= children@.len(),
                forall|j: int| 0 <= j < i ==> column_len(#[trigger] children@[j]) == n,
            decreases children@.len() - i,
        {
            if col_len(&children[i]) != n {
                proof {
                    assert(!(column_len(children@[i as int]) == n));
                }
                return false;
            }
            i = i + 1;
        }
        true
    }
}

/// The total of a prefix is at most the total of the whole.
proof fn lemma_sum_lens_prefix(cs: Seq<Column>, k: int)
    requires
        0 <= k <= cs.len(),
    ensures
        sum_lens(cs.subrange(0, k)) <= sum_lens(cs),
    decreases cs.len() - k,
{
    if k < cs.len() {
        lemma_sum_lens_prefix(cs, k + 1);
        assert(cs.subrange(0, k + 1).drop_last() =~= cs.subrange(0, k));
    } else {
        assert(cs.subrange(0, k) =~= cs);
    }
}

/// Whether a shape can be built (see [`buildable`]).
pub fn is_buildable(s: &Shape) -> (r: bool)
    ensures
        r == buildable(*s),
    decreases s,
{
    match s {
        Shape::Scalar(_) => true,
        Shape::Nullable(inner) => is_buildable(inner),
        Shape::List { item, .. } => {
            proof {
                assert(decreases_to!(*s => s->List_item));
            }
            is_buildable(item)
        },
        Shape::FixedList { item, .. } => {
            proof {
                assert(decreases_to!(*s => s->FixedList_item));
            }
            is_buildable(item)
        },
        Shape::Struct(ms) => {
            if ms.len() == 0 {
                return false;
            }
            let mut i: usize = 0;
            while i < ms.len()
                invariant
                    *s == Shape::Struct(*ms),
                    0 <= i <= ms@.len(),
                    forall|j: int| 0 <= j < i ==> buildable(#[trigger] ms@[j].shape),
                decreases ms@.len() - i,
            {
                proof {
                    lemma_member_decreases(*s, i as int);
                }
                if !is_buildable(&ms[i].shape) {
                    return false;
                }
                i = i + 1;
            }
            true
        },
        Shape::Union { cases, .. } => {
            if cases.len() == 0 {
                return false;
            }
            let mut i: usize = 0;
            while i < cases.len()
                invariant
                    *s is Union,
                    s->cases == *cases,
                    0 <= i <= cases@.len(),
                    forall|j: int|
                        0 <= j < i ==> match #[trigger] cases@[j].payload {
                            Some(p) => buildable(p),
                            None => true,
                        },
                decreases cases@.len() - i,
            {
                match &cases[i].payload {
                    Some(p) => {
                        proof {
                            lemma_case_decreases(*s, i as int);
                        }
                        if !is_buildable(p) {
                            return false;
                        }
                    },
                    None => {},
                }
                i = i + 1;
            }
            true
        },
    }
}

fn copy_usizes(v: &Vec<usize>) -> (r: Vec<usize>)
    ensures
        r@ == v@,
{
    let mut out: Vec<usize> = Vec::new();
    let mut i: usize = 0;
    while i < v.len()
        invariant
            0 <= i <= v@.len(),
            out@ == v@.subrange(0, i as int),
        decreases v@.len() - i,
    {
        out.push(v[i]);
        i = i + 1;
    }
    assert(out@ =~= v@);
    out
}

fn copy_bools(v: &Vec<bool>) -> (r: Vec<bool>)
    ensures
        r@ == v@,
{
    let mut out: Vec<bool> = Vec::new();
    let mut i: usize = 0;
    while i < v.len()
        invariant
            0 <= i <= v@.len(),
            out@ == v@.subrange(0, i as int),
        decreases v@.len() - i,
    {
        out.push(v[i]);
        i = i + 1;
    }
    assert(out@ =~= v@);
    out
}

/// A copy of a column that reads back as the column does.
pub fn copy_column(s: &Shape, c: &Column) -> (r: Column)
    requires
        wf(*s, *c),
    ensures
        wf(*s, r),
        column_len(r) == column_len(*c),
        rows(*s, r) == rows(*s, *c),
    decreases s,
{
    match s {
        Shape::Nullable(inner) => copy_column(inner, c),
        Shape::Scalar(_) => match c {
            Column::Leaf(vs) => {
                let out = copy_values(vs);
                proof {
                    lemma_models_eq(out@, vs@);
                }
                Column::Leaf(out)
            },
            _ => Column::Leaf(Vec::new()),
        },
        Shape::List { item, .. } => match c {
            Column::List { offsets, validity, values } => {
                proof {
                    assert(decreases_to!(*s => s->List_item));
                }
                let v = copy_column(item, values);
                let r = Column::List {
                    offsets: copy_usizes(offsets),
                    validity: copy_bools(validity),
                    values: Box::new(v),
                };
                proof {
                    assert(rows(*s, r) =~= rows(*s, *c));
                }
                r
            },
            _ => Column::Leaf(Vec::new()),
        },
        Shape::FixedList { item, .. } => match c {
            Column::List { offsets, validity, values } => {
                proof {
                    assert(decreases_to!(*s => s->FixedList_item));
                }
                let v = copy_column(item, values);
                let r = Column::List {
                    offsets: copy_usizes(offsets),
                    validity: copy_bools(validity),
                    values: Box::new(v),
                };
                proof {
                    assert(rows(*s, r) =~= rows(*s, *c));
                }
                r
            },
            _ => Column::Leaf(Vec::new()),
        },
        Shape::Struct(ms) => match c {
            Column::Struct { validity, children } => {
                let mut out: Vec<Column> = Vec::new();
                let mut i: usize = 0;
                while i < children.len()
                    invariant
                        *s == Shape::Struct(*ms),
                        wf(*s, *c),
                        *c == (Column::Struct { validity: *validity, children: *children }),
                        0 <= i <= children@.len(),
                        out@.len() == i,
                        forall|j: int|
                            0 <= j < i ==> wf(ms@[j].shape, #[trigger] out@[j]) && column_len(
                                out@[j],
                            ) == column_len(children@[j]) && rows(ms@[j].shape, out@[j]) == rows(
                                ms@[j].shape,
                                children@[j],
                            ),
                    decreases children@.len() - i,
                {
                    proof {
                        lemma_member_decreases(*s, i as int);
                    }
                    out.push(copy_column(&ms[i].shape, &children[i]));
                    i = i + 1;
                }
                let validity = match validity {
                    Some(b) => Some(copy_bools(b)),
                    None => None,
                };
                let r = Column::Struct { validity, children: out };
                proof {
                    let old_rows = rows(*s, *c);
                    let new_rows = rows(*s, r);
                    assert forall|k: int| 0 <= k < new_rows.len() implies new_rows[k] == old_rows[k] by {
                        if row_valid(validity, k) {
                            assert(new_rows[k]->Struct_0 =~= old_rows[k]->Struct_0);
                        }
                    }
                    assert(new_rows =~= old_rows);
                }
                r
            },
            _ => Column::Leaf(Vec::new()),
        },
        Shape::Union { cases, .. } => match c {
            Column::Union { type_ids, offsets, children } => {
                let mut out: Vec<Column> = Vec::new();
                let mut i: usize = 0;
                while i < children.len()
                    invariant
                        *s is Union,
                        s->cases == *cases,
                        wf(*s, *c),
                        *c == (Column::Union {
                            type_ids: *type_ids,
                            offsets: *offsets,
                            children: *children,
                        }),
                        0 <= i <= children@.len(),
                        out@.len() == i,
                        forall|j: int|
                            0 <= j < i ==> column_len(#[trigger] out@[j]) == column_len(children@[j])
                                && match cases@[j].payload {
                                Some(p) => wf(p, out@[j]) && rows(p, out@[j]) == rows(p, children@[j]),
                                None => out@[j] is Leaf,
                            },
                    decreases children@.len() - i,
                {
                    let child = match &cases[i].payload {
                        Some(p) => {
                            proof {
                                lemma_case_decreases(*s, i as int);
                            }
                            copy_column(p, &children[i])
                        },
                        None => {
                            let n = col_len(&children[i]);
                            let mut vs: Vec<Value> = Vec::new();
                            let mut k: usize = 0;
                            while k < n
                                invariant
                                    0 <= k <= n,
                                    vs@.len() == k,
                                decreases n - k,
                            {
                                vs.push(Value::Null);
                                k = k + 1;
                            }
                            Column::Leaf(vs)
                        },
                    };
                    out.push(child);
                    i = i + 1;
                }
                let r = Column::Union {
                    type_ids: copy_usizes(type_ids),
                    offsets: copy_usizes(offsets),
                    children: out,
                };
                proof {
                    let cs = out@;
                    assert(forall|j: int| 0 <= j < cs.len() ==> #[trigger] column_len(cs[j]) == column_len(children@[j]));
                    lemma_sum_lens_same(cs, children@);
                    assert(rows(*s, r) =~= rows(*s, *c));
                }
                r
            },
            _ => Column::Leaf(Vec::new()),
        },
    }
}

proof fn lemma_sum_lens_same(a: Seq<Column>, b: Seq<Column>)
    requires
        a.len() == b.len(),
        forall|j: int| 0 <= j < a.len() ==> #[trigger] column_len(a[j]) == column_len(b[j]),
    ensures
        sum_lens(a) == sum_lens(b),
    decreases a.len(),
{
    if a.len() > 0 {
        lemma_sum_lens_same(a.drop_last(), b.drop_last());
    }
}

/// One row of a column, read back as a value; only the parts of the
/// children that the row refers to are read.
pub fn read_row(s: &Shape, c: &Column, r: usize) -> (v: Value)
    requires
        wf(*s, *c),
        r < column_len(*c),
    ensures
        v.model() == rows(*s, *c)[r as int],
    decreases s,
{
    proof {
        lemma_rows_len(*s, *c);
    }
    match s {
        Shape::Nullable(inner) => read_row(inner, c, r),
        Shape::Scalar(_) => match c {
            Column::Leaf(vs) => {
                proof {
                    lemma_models_index(vs@, r as int);
                }
                vs[r].copy()
            },
            _ => Value::Null,
        },
        Shape::List { item, .. } => {
            proof {
                assert(decreases_to!(*s => s->List_item));
            }
            read_list_row(s, item, c, r)
        },
        Shape::FixedList { item, .. } => {
            proof {
                assert(decreases_to!(*s => s->FixedList_item));
            }
            read_list_row(s, item, c, r)
        },
        Shape::Struct(ms) => match c {
            Column::Struct { validity, children } => {
                let valid = match validity {
                    Some(b) => b[r],
                    None => true,
                };
                if !valid {
                    return Value::Null;
                }
                let mut fields: Vec<Value> = Vec::new();
                let mut i: usize = 0;
                while i < children.len()
                    invariant
                        *s == Shape::Struct(*ms),
                        wf(*s, *c),
                        *c == (Column::Struct { validity: *validity, children: *children }),
                        r < column_len(*c),
                        0 <= i <= children@.len(),
                        fields@.len() == i,
                        forall|j: int|
                            0 <= j < i ==> #[trigger] fields@[j].model() == rows(
                                ms@[j].shape,
                                children@[j],
                            )[r as int],
                    decreases children@.len() - i,
                {
                    proof {
                        lemma_member_decreases(*s, i as int);
                    }
                    fields.push(read_row(&ms[i].shape, &children[i], r));
                    i = i + 1;
                }
                proof {
                    lemma_models_from(fields@, rows(*s, *c)[r as int]->Struct_0);
                }
                Value::Struct(fields)
            },
            _ => Value::Null,
        },
        Shape::Union { cases, mode } => match c {
            Column::Union { type_ids, offsets, children } => {
                let t = type_ids[r];
                let off = if *mode == UnionMode::Dense {
                    offsets[r]
                } else {
                    r
                };
                proof {
                    assert(t < cases@.len());
                }
                match &cases[t].payload {
                    None => {
                        let z = Value::Union(t, Box::new(Value::Null));
                        proof {
                            assert(rows(*s, *c)[r as int] == union_row(t as nat, true, Val::Null));
                        }
                        z
                    },
                    Some(p) => {
                        proof {
                            lemma_case_decreases(*s, t as int);
                        }
                        let y = read_row(p, &children[t], off);
                        proof {
                            assert(rows(*s, *c)[r as int] == union_row(t as nat, false, y.model()));
                        }
                        if let Value::Null = y {
                            Value::Null
                        } else {
                            Value::Union(t, Box::new(y))
                        }
                    },
                }
            },
            _ => Value::Null,
        },
    }
}

fn read_list_row(s: &Shape, item: &Shape, c: &Column, r: usize) -> (v: Value)
    requires
        s is List || s is FixedList,
        s is List ==> s->List_item == item,
        s is FixedList ==> s->FixedList_item == item,
        decreases_to!(*s => *item),
        wf(*s, *c),
        r < column_len(*c),
    ensures
        v.model() == rows(*s, *c)[r as int],
    decreases s, 0nat,
{
    match c {
        Column::List { offsets, validity, values } => {
            if !validity[r] {
                return Value::Null;
            }
            proof {
                lemma_rows_len(*item, **values);
                assert(offsets@[r as int] <= offsets@[r + 1]);
                assert(offsets@[r + 1] <= offsets@[validity@.len() as int]);
            }
            let n_offsets = offsets.len();
            assert(r + 1 < n_offsets);
            let start = offsets[r];
            let end = offsets[r + 1];
            let ghost all = rows(*item, **values);
            let mut items: Vec<Value> = Vec::new();
            let mut k: usize = start;
            while k < end
                invariant
                    decreases_to!(*s => *item),
                    wf(*item, **values),
                    all == rows(*item, **values),
                    all.len() == column_len(**values),
                    start <= k <= end <= column_len(**values),
                    items@.len() == k - start,
                    forall|j: int| 0 <= j < k - start ==> #[trigger] items@[j].model() == all[start + j],
                decreases end - k,
            {
                items.push(read_row(item, values, k));
                k = k + 1;
            }
            proof {
                lemma_models_from(items@, all.subrange(start as int, end as int));
            }
            Value::List(items)
        },
        _ => Value::Null,
    }
}

} // verus!
