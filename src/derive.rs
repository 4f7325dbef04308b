//! Schema derivation: from a type declaration, with its attributes, to the
//! shape that the column engine works on.
use crate::case::{apply_rule, push_char, views, RenameRule};
use vstd::string::*;
use crate::column::buildable;
use crate::shape::{is_nullable, logical, logical_type, Case, Member, Shape};
use crate::types::{Field, FieldModel, ScalarKind, UnionMode};
use vstd::prelude::*;

verus! {

/// Why a declaration has no schema.
#[derive(Debug, Clone, Copy, PartialEq, Eq, Structural)]
pub enum SchemaError {
    /// An enum without a declared union mode.
    MissingUnionMode,
    /// An enum case with more than one field.
    MultiFieldVariant,
    /// An enum without cases.
    EmptyEnum,
    /// A struct without fields.
    EmptyStruct,
    /// A transparent struct with other than one field.
    TransparentNotSingle,
    /// Two fields or cases of one type with the same column name.
    DuplicateName,
}

/// Container attributes of a struct or enum declaration.
#[derive(Debug, Clone, Copy)]
pub struct ContainerAttrs {
    /// The declared union mode of an enum.
    pub mode: Option<UnionMode>,
    /// Whether a one-field struct stands for its field.
    pub transparent: bool,
    /// The crate's own case rule for member names.
    pub arrow_rename_all: Option<RenameRule>,
    /// The case rule of the serialization attributes.
    pub serde_rename_all: Option<RenameRule>,
}

/// Naming attributes of a struct field.
#[derive(Debug)]
pub struct FieldAttrs {
    /// An explicit column name.
    pub field_name: Option<String>,
    /// The serialization attributes' name for the field.
    pub serde_rename: Option<String>,
}

/// A declared struct field; a field of a tuple struct has no identifier.
#[derive(Debug)]
pub struct DeriveField {
    pub ident: Option<String>,
    pub attrs: FieldAttrs,
    pub decl: TypeDecl,
}

/// A declared enum case: no field (unit-like) or one.
#[derive(Debug)]
pub struct DeriveVariant {
    pub ident: String,
    /// The serialization attributes' name for the case.
    pub serde_rename: Option<String>,
    pub fields: Vec<TypeDecl>,
}

/// A declared struct.
#[derive(Debug)]
pub struct DeriveStruct {
    pub fields: Vec<DeriveField>,
    pub attrs: ContainerAttrs,
}

/// A declared enum.
#[derive(Debug)]
pub struct DeriveEnum {
    pub variants: Vec<DeriveVariant>,
    pub attrs: ContainerAttrs,
}

/// A declared type.
#[derive(Debug)]
pub enum TypeDecl {
    Scalar(ScalarKind),
    Optional(Box<TypeDecl>),
    /// A variable-length sequence; `large` asks for 64-bit offsets.
    List { item: Box<TypeDecl>, large: bool },
    FixedList { item: Box<TypeDecl>, size: usize },
    Struct(DeriveStruct),
    Enum(DeriveEnum),
}

/// The case rule of a container: its own rule, else the serialization one.
pub open spec fn rule_of(a: ContainerAttrs) -> Option<RenameRule> {
    if a.arrow_rename_all is Some {
        a.arrow_rename_all
    } else {
        a.serde_rename_all
    }
}

/// The decimal digit of `d < 10`.
pub open spec fn digit(d: nat) -> char {
    ((48 + d) as u8) as char
}

/// The decimal digits of a number.
pub open spec fn decimal(n: nat) -> Seq<char>
    decreases n,
{
    if n < 10 {
        seq![digit(n)]
    } else {
        decimal(n / 10).push(digit(n % 10))
    }
}

/// The name of the field at `index` of a tuple struct: `field_` and the
/// index.
pub open spec fn positional_name(index: nat) -> Seq<char> {
    seq!['f', 'i', 'e', 'l', 'd', '_'] + decimal(index)
}

/// The column name of the field at `index`: the explicit name, else the
/// serialization name, else the identifier under the container's case rule;
/// a field without identifier is named by its position, with no case rule.
pub open spec fn field_name(f: DeriveField, index: nat, rule: Option<RenameRule>) -> Seq<char> {
    if f.attrs.field_name is Some {
        f.attrs.field_name->Some_0@
    } else if f.attrs.serde_rename is Some {
        f.attrs.serde_rename->Some_0@
    } else {
        match f.ident {
            None => positional_name(index),
            Some(id) => match rule {
                Some(r) => apply_rule(r, id@),
                None => id@,
            },
        }
    }
}

/// The column name of an enum case: the serialization name, else the
/// identifier under the container's case rule.
pub open spec fn variant_name(v: DeriveVariant, rule: Option<RenameRule>) -> Seq<char> {
    if v.serde_rename is Some {
        v.serde_rename->Some_0@
    } else {
        match rule {
            Some(r) => apply_rule(r, v.ident@),
            None => v.ident@,
        }
    }
}

pub open spec fn distinct(names: Seq<Seq<char>>) -> bool {
    forall|i: int, j: int| 0 <= i < j < names.len() ==> #[trigger] names[i] != #[trigger] names[j]
}

pub open spec fn field_names(d: DeriveStruct) -> Seq<Seq<char>> {
    Seq::new(d.fields@.len(), |i: int| field_name(d.fields@[i], i as nat, rule_of(d.attrs)))
}

pub open spec fn variant_names(d: DeriveEnum) -> Seq<Seq<char>> {
    Seq::new(d.variants@.len(), |i: int| variant_name(d.variants@[i], rule_of(d.attrs)))
}

/// Whether a declaration has a schema.
pub open spec fn derivable(d: TypeDecl) -> bool
    decreases d,
{
    match d {
        TypeDecl::Scalar(_) => true,
        TypeDecl::Optional(inner) => derivable(*inner),
        TypeDecl::List { item, .. } => derivable(*item),
        TypeDecl::FixedList { item, .. } => derivable(*item),
        TypeDecl::Struct(sd) => {
            &&& sd.fields@.len() > 0
            &&& sd.attrs.transparent ==> sd.fields@.len() == 1
            &&& !sd.attrs.transparent ==> distinct(field_names(sd))
            &&& forall|i: int| 0 <= i < sd.fields@.len() ==> derivable(#[trigger] sd.fields@[i].decl)
        },
        TypeDecl::Enum(ed) => {
            &&& ed.attrs.mode is Some
            &&& ed.variants@.len() > 0
            &&& distinct(variant_names(ed))
            &&& forall|i: int|
                0 <= i < ed.variants@.len() ==> #[trigger] ed.variants@[i].fields@.len() <= 1
            &&& forall|i: int|
                0 <= i < ed.variants@.len() && ed.variants@[i].fields@.len() == 1 ==> derivable(
                    #[trigger] ed.variants@[i].fields@[0],
                )
        },
    }
}

/// Whether the error `e` is one that a declaration has, at some depth.
pub open spec fn has_error(d: TypeDecl, e: SchemaError) -> bool
    decreases d,
{
    match d {
        TypeDecl::Scalar(_) => false,
        TypeDecl::Optional(inner) => has_error(*inner, e),
        TypeDecl::List { item, .. } => has_error(*item, e),
        TypeDecl::FixedList { item, .. } => has_error(*item, e),
        TypeDecl::Struct(sd) => {
            ||| e == SchemaError::EmptyStruct && sd.fields@.len() == 0
            ||| e == SchemaError::TransparentNotSingle && sd.attrs.transparent && sd.fields@.len()
                != 1
            ||| e == SchemaError::DuplicateName && !sd.attrs.transparent && !distinct(
                field_names(sd),
            )
            ||| exists|i: int| 0 <= i < sd.fields@.len() && has_error(#[trigger] sd.fields@[i].decl, e)
        },
        TypeDecl::Enum(ed) => {
            ||| e == SchemaError::MissingUnionMode && ed.attrs.mode is None
            ||| e == SchemaError::EmptyEnum && ed.variants@.len() == 0
            ||| e == SchemaError::DuplicateName && !distinct(variant_names(ed))
            ||| e == SchemaError::MultiFieldVariant && exists|i: int|
                0 <= i < ed.variants@.len() && #[trigger] ed.variants@[i].fields@.len() > 1
            ||| exists|i: int|
                0 <= i < ed.variants@.len() && ed.variants@[i].fields@.len() == 1 && has_error(
                    #[trigger] ed.variants@[i].fields@[0],
                    e,
                )
        },
    }
}

/// Whether `s` is the shape derived from a declaration: options become
/// nullable shapes, a transparent struct the shape of its field, a struct
/// one member per field in order, an enum one case per variant in order, a
/// unit-like variant a case without payload.
pub open spec fn derives(d: TypeDecl, s: Shape) -> bool
    decreases d,
{
    match d {
        TypeDecl::Scalar(k) => s == Shape::Scalar(k),
        TypeDecl::Optional(inner) => s is Nullable && derives(*inner, *s->Nullable_0),
        TypeDecl::List { item, large } => s is List && s->large == large && derives(
            *item,
            *s->List_item,
        ),
        TypeDecl::FixedList { item, size } => s is FixedList && s->size == size && derives(
            *item,
            *s->FixedList_item,
        ),
        TypeDecl::Struct(sd) => if sd.attrs.transparent {
            sd.fields@.len() == 1 && derives(sd.fields@[0].decl, s)
        } else {
            &&& s is Struct
            &&& s->Struct_0@.len() == sd.fields@.len()
            &&& forall|i: int|
                0 <= i < sd.fields@.len() ==> #[trigger] s->Struct_0@[i].name@ == field_name(
                    sd.fields@[i],
                    i as nat,
                    rule_of(sd.attrs),
                ) && derives(sd.fields@[i].decl, s->Struct_0@[i].shape)
        },
        TypeDecl::Enum(ed) => {
            &&& s is Union
            &&& ed.attrs.mode == Some(s->mode)
            &&& s->cases@.len() == ed.variants@.len()
            &&& forall|i: int|
                0 <= i < ed.variants@.len() ==> #[trigger] s->cases@[i].name@ == variant_name(
                    ed.variants@[i],
                    rule_of(ed.attrs),
                ) && (ed.variants@[i].fields@.len() == 0 ==> s->cases@[i].payload is None) && (
                ed.variants@[i].fields@.len() == 1 ==> s->cases@[i].payload is Some && derives(
                    ed.variants@[i].fields@[0],
                    s->cases@[i].payload->Some_0,
                ))
        },
    }
}

impl ContainerAttrs {
    /// The container's case rule: its own rule takes precedence over the
    /// serialization one.
    pub fn rename_all(&self) -> (r: Option<RenameRule>)
        ensures
            r == rule_of(*self),
    {
        if self.arrow_rename_all.is_some() {
            self.arrow_rename_all
        } else {
            self.serde_rename_all
        }
    }
}

impl DeriveField {
    /// The column name of the field at `index`: the explicit name, else the
    /// serialization name, else the identifier under `rename_all`, else
    /// `field_` and the index.
    pub fn effective_name(&self, index: usize, rename_all: Option<RenameRule>) -> (r: String)
        ensures
            r@ == field_name(*self, index as nat, rename_all),
    {
        match &self.attrs.field_name {
            Some(n) => n.clone(),
            None => match &self.attrs.serde_rename {
                Some(n) => n.clone(),
                None => match &self.ident {
                    None => positional(index),
                    Some(id) => match rename_all {
                        Some(rule) => rule.apply(id.as_str()),
                        None => id.clone(),
                    },
                },
            },
        }
    }
}

/// The decimal digits of a number.
fn decimal_string(n: usize) -> (r: String)
    ensures
        r@ == decimal(n as nat),
    decreases n,
{
    let d: u8 = (n % 10) as u8;
    let c: char = (48u8 + d) as char;
    let mut r = if n < 10 {
        String::new()
    } else {
        decimal_string(n / 10)
    };
    push_char(&mut r, c);
    proof {
        if n < 10 {
            assert(r@ =~= seq![digit(n as nat)]);
        }
    }
    r
}

/// `field_` and the index.
fn positional(index: usize) -> (r: String)
    ensures
        r@ == positional_name(index as nat),
{
    let mut r = String::from_str("field_");
    proof {
        reveal_strlit("field_");
    }
    let digits = decimal_string(index);
    r.append(digits.as_str());
    proof {
        assert(r@ =~= positional_name(index as nat));
    }
    r
}

impl DeriveVariant {
    /// The column name of the case: the serialization name, else the
    /// identifier under `rename_all`.
    pub fn effective_name(&self, rename_all: Option<RenameRule>) -> (r: String)
        ensures
            r@ == variant_name(*self, rename_all),
    {
        match &self.serde_rename {
            Some(n) => n.clone(),
            None => match rename_all {
                Some(rule) => rule.apply(self.ident.as_str()),
                None => self.ident.clone(),
            },
        }
    }
}

/// Whether no two names are equal.
fn all_distinct(names: &Vec<String>) -> (r: bool)
    ensures
        r == distinct(views(names@)),
{
    let ghost vs = views(names@);
    let mut j: usize = 0;
    while j < names.len()
        invariant
            vs == views(names@),
            0 <= j <= names@.len(),
            forall|a: int, b: int| 0 <= a < b < j ==> #[trigger] vs[a] != #[trigger] vs[b],
        decreases names@.len() - j,
    {
        let mut i: usize = 0;
        while i < j
            invariant
                vs == views(names@),
                0 <= i <= j < names@.len(),
                forall|a: int, b: int| 0 <= a < b < j ==> #[trigger] vs[a] != #[trigger] vs[b],
                forall|a: int| 0 <= a < i ==> #[trigger] vs[a] != vs[j as int],
            decreases j - i,
        {
            if names[i] == names[j] {
                proof {
                    assert(vs[i as int] == vs[j as int]);
                }
                return false;
            }
            i = i + 1;
        }
        j = j + 1;
    }
    true
}

pub proof fn lemma_field_decl_decreases(d: TypeDecl, i: int)
    requires
        d is Struct,
        0 <= i < d->Struct_0.fields@.len(),
    ensures
        decreases_to!(d => d->Struct_0.fields@[i].decl),
{
    let sd = d->Struct_0;
    assert(decreases_to!(d => sd));
    assert(decreases_to!(sd => sd.fields));
    assert(decreases_to!(sd.fields => sd.fields@));
    assert(decreases_to!(sd.fields@ => sd.fields@[i]));
    assert(decreases_to!(sd.fields@[i] => sd.fields@[i].decl));
}

pub proof fn lemma_variant_decl_decreases(d: TypeDecl, i: int)
    requires
        d is Enum,
        0 <= i < d->Enum_0.variants@.len(),
        d->Enum_0.variants@[i].fields@.len() > 0,
    ensures
        decreases_to!(d => d->Enum_0.variants@[i].fields@[0]),
{
    let ed = d->Enum_0;
    assert(decreases_to!(d => ed));
    assert(decreases_to!(ed => ed.variants));
    assert(decreases_to!(ed.variants => ed.variants@));
    assert(decreases_to!(ed.variants@ => ed.variants@[i]));
    assert(decreases_to!(ed.variants@[i] => ed.variants@[i].fields));
    assert(decreases_to!(ed.variants@[i].fields => ed.variants@[i].fields@));
    assert(decreases_to!(ed.variants@[i].fields@ => ed.variants@[i].fields@[0]));
}

/// The shape of a declaration, or an error of the declaration.
pub fn derive_shape(d: &TypeDecl) -> (r: Result<Shape, SchemaError>)
    ensures
        r is Ok <==> derivable(*d),
        r matches Ok(s) ==> derives(*d, s) && buildable(s),
        r matches Err(e) ==> has_error(*d, e),
    decreases d,
{
    match d {
        TypeDecl::Scalar(k) => Ok(Shape::Scalar(*k)),
        TypeDecl::Optional(inner) => {
            let s = derive_shape(inner)?;
            Ok(Shape::Nullable(Box::new(s)))
        },
        TypeDecl::List { item, large } => {
            let s = derive_shape(item)?;
            Ok(Shape::List { item: Box::new(s), large: *large })
        },
        TypeDecl::FixedList { item, size } => {
            let s = derive_shape(item)?;
            Ok(Shape::FixedList { item: Box::new(s), size: *size })
        },
        TypeDecl::Struct(sd) => derive_struct(d, sd),
        TypeDecl::Enum(ed) => derive_enum(d, ed),
    }
}

fn derive_struct(d: &TypeDecl, sd: &DeriveStruct) -> (r: Result<Shape, SchemaError>)
    requires
        *d == TypeDecl::Struct(*sd),
    ensures
        r is Ok <==> derivable(*d),
        r matches Ok(s) ==> derives(*d, s) && buildable(s),
        r matches Err(e) ==> has_error(*d, e),
    decreases d, 0nat,
{
    if sd.fields.len() == 0 {
        return Err(SchemaError::EmptyStruct);
    }
    if sd.attrs.transparent {
        if sd.fields.len() != 1 {
            return Err(SchemaError::TransparentNotSingle);
        }
        proof {
            lemma_field_decl_decreases(*d, 0);
        }
        let r = derive_shape(&sd.fields[0].decl);
        proof {
            if let Err(e) = r {
                assert(has_error(sd.fields@[0].decl, e));
            }
        }
        return r;
    }
    let rule = sd.attrs.rename_all();
    let mut names: Vec<String> = Vec::new();
    let mut i: usize = 0;
    while i < sd.fields.len()
        invariant
            rule == rule_of(sd.attrs),
            0 <= i <= sd.fields@.len(),
            names@.len() == i,
            forall|j: int| 0 <= j < i ==> #[trigger] names@[j]@ == field_names(*sd)[j],
        decreases sd.fields@.len() - i,
    {
        names.push(sd.fields[i].effective_name(i, rule));
        i = i + 1;
    }
    proof {
        assert(views(names@) =~= field_names(*sd));
    }
    if !all_distinct(&names) {
        return Err(SchemaError::DuplicateName);
    }
    let mut members: Vec<Member> = Vec::new();
    let mut i: usize = 0;
    while i < sd.fields.len()
        invariant
            *d == TypeDecl::Struct(*sd),
            !sd.attrs.transparent,
            sd.fields@.len() > 0,
            distinct(field_names(*sd)),
            names@.len() == sd.fields@.len(),
            forall|j: int| 0 <= j < names@.len() ==> #[trigger] names@[j]@ == field_names(*sd)[j],
            0 <= i <= sd.fields@.len(),
            members@.len() == i,
            forall|j: int|
                #![trigger members@[j]]
                0 <= j < i ==> members@[j].name@ == field_names(*sd)[j] && derives(
                    sd.fields@[j].decl,
                    members@[j].shape,
                ) && buildable(members@[j].shape) && derivable(sd.fields@[j].decl),
        decreases sd.fields@.len() - i,
    {
        proof {
            lemma_field_decl_decreases(*d, i as int);
        }
        match derive_shape(&sd.fields[i].decl) {
            Ok(s) => {
                members.push(Member { name: names[i].clone(), shape: s });
            },
            Err(e) => {
                proof {
                    assert(has_error(sd.fields@[i as int].decl, e));
                    assert(!derivable(sd.fields@[i as int].decl));
                }
                return Err(e);
            },
        }
        i = i + 1;
    }
    let s = Shape::Struct(members);
    proof {
        assert forall|j: int| 0 <= j < sd.fields@.len() implies derivable(
            #[trigger] sd.fields@[j].decl,
        ) by {
            let m = members@[j];
        }
        assert forall|j: int| 0 <= j < members@.len() implies buildable(
            #[trigger] members@[j].shape,
        ) by {
            let m = members@[j];
        }
        assert forall|j: int| 0 <= j < sd.fields@.len() implies #[trigger] s->Struct_0@[j].name@
            == field_name(sd.fields@[j], j as nat, rule_of(sd.attrs)) && derives(
            sd.fields@[j].decl,
            s->Struct_0@[j].shape,
        ) by {
            let m = members@[j];
        }
    }
    Ok(s)
}

fn derive_enum(d: &TypeDecl, ed: &DeriveEnum) -> (r: Result<Shape, SchemaError>)
    requires
        *d == TypeDecl::Enum(*ed),
    ensures
        r is Ok <==> derivable(*d),
        r matches Ok(s) ==> derives(*d, s) && buildable(s),
        r matches Err(e) ==> has_error(*d, e),
    decreases d, 0nat,
{
    let mode = match ed.attrs.mode {
        Some(m) => m,
        None => {
            return Err(SchemaError::MissingUnionMode);
        },
    };
    if ed.variants.len() == 0 {
        return Err(SchemaError::EmptyEnum);
    }
    let rule = ed.attrs.rename_all();
    let mut names: Vec<String> = Vec::new();
    let mut i: usize = 0;
    while i < ed.variants.len()
        invariant
            rule == rule_of(ed.attrs),
            0 <= i <= ed.variants@.len(),
            names@.len() == i,
            forall|j: int| 0 <= j < i ==> #[trigger] names@[j]@ == variant_names(*ed)[j],
        decreases ed.variants@.len() - i,
    {
        names.push(ed.variants[i].effective_name(rule));
        i = i + 1;
    }
    proof {
        assert(views(names@) =~= variant_names(*ed));
    }
    if !all_distinct(&names) {
        return Err(SchemaError::DuplicateName);
    }
    let mut cases: Vec<Case> = Vec::new();
    let mut i: usize = 0;
    while i < ed.variants.len()
        invariant
            *d == TypeDecl::Enum(*ed),
            ed.attrs.mode == Some(mode),
            ed.variants@.len() > 0,
            distinct(variant_names(*ed)),
            names@.len() == ed.variants@.len(),
            forall|j: int|
                0 <= j < names@.len() ==> #[trigger] names@[j]@ == variant_names(*ed)[j],
            0 <= i <= ed.variants@.len(),
            cases@.len() == i,
            forall|j: int|
                #![trigger cases@[j]]
                0 <= j < i ==> {
                    &&& cases@[j].name@ == variant_names(*ed)[j]
                    &&& ed.variants@[j].fields@.len() <= 1
                    &&& ed.variants@[j].fields@.len() == 0 ==> cases@[j].payload is None
                    &&& ed.variants@[j].fields@.len() == 1 ==> cases@[j].payload is Some
                        && derives(ed.variants@[j].fields@[0], cases@[j].payload->Some_0)
                        && buildable(cases@[j].payload->Some_0) && derivable(
                        ed.variants@[j].fields@[0],
                    )
                },
        decreases ed.variants@.len() - i,
    {
        let v = &ed.variants[i];
        if v.fields.len() > 1 {
            proof {
                assert(ed.variants@[i as int].fields@.len() > 1);
            }
            return Err(SchemaError::MultiFieldVariant);
        }
        let payload = if v.fields.len() == 1 {
            proof {
                lemma_variant_decl_decreases(*d, i as int);
            }
            match derive_shape(&v.fields[0]) {
                Ok(s) => Some(s),
                Err(e) => {
                    proof {
                        assert(has_error(ed.variants@[i as int].fields@[0], e));
                        assert(!derivable(ed.variants@[i as int].fields@[0]));
                    }
                    return Err(e);
                },
            }
        } else {
            None
        };
        cases.push(Case { name: names[i].clone(), payload });
        i = i + 1;
    }
    let s = Shape::Union { cases, mode };
    proof {
        assert forall|j: int| 0 <= j < ed.variants@.len() implies #[trigger] ed.variants@[j].fields@.len()
            <= 1 by {
            let c = cases@[j];
        }
        assert forall|j: int|
            0 <= j < ed.variants@.len() && ed.variants@[j].fields@.len() == 1 implies derivable(
            #[trigger] ed.variants@[j].fields@[0],
        ) by {
            let c = cases@[j];
        }
        assert forall|j: int| 0 <= j < cases@.len() implies match #[trigger] cases@[j].payload {
            Some(p) => buildable(p),
            None => true,
        } by {
            let c = cases@[j];
        }
        assert forall|j: int| 0 <= j < ed.variants@.len() implies #[trigger] s->cases@[j].name@
            == variant_name(ed.variants@[j], rule_of(ed.attrs)) && (ed.variants@[j].fields@.len()
            == 0 ==> s->cases@[j].payload is None) && (ed.variants@[j].fields@.len() == 1
            ==> s->cases@[j].payload is Some && derives(
            ed.variants@[j].fields@[0],
            s->cases@[j].payload->Some_0,
        )) by {
            let c = cases@[j];
        }
    }
    Ok(s)
}

/// The field of a declaration under a column name: its logical type, and
/// nullable when the declaration is optional.
pub fn derive_field(d: &TypeDecl, name: &str) -> (r: Result<Field, SchemaError>)
    ensures
        r is Ok <==> derivable(*d),
        r matches Ok(f) ==> exists|s: Shape|
            derives(*d, s) && f.model() == (FieldModel {
                name: name@,
                data_type: logical(s),
                nullable: s is Nullable,
            }),
        r matches Err(e) ==> has_error(*d, e),
{
    let s = derive_shape(d)?;
    let f = Field { name: name.to_string(), data_type: logical_type(&s), nullable: is_nullable(&s) };
    proof {
        assert(derives(*d, s));
    }
    Ok(f)
}

} // verus!
