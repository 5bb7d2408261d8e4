//! The rules of the derive macros.
//!
//! The `Inject`, `Service` and `TypedRequire` derives read, of each named
//! field of a struct, its attributes and the shape of its type, and decide
//! how the field is filled: resolved from the container, resolved if
//! present, passed in as the `k`-th dependency, or defaulted. This module
//! holds those decisions over a plain description of the input
//! ([`FieldShape`]); turning a syntax tree into that description, and a plan
//! into code, is left to the macro crate.
//!
//! `#[inject]` and `#[dep]` are exact aliases, as are `#[inject(optional)]`
//! and `#[dep(optional)]`, in every derive. A field carries at most one such
//! marker: a second one is refused, at that attribute.

use vstd::prelude::*;
use vstd::string::StringExecFns;

verus! {

/// What the derives read of one attribute of a field.
pub struct AttrShape {
    /// The attribute's path when it is a single identifier (`inject` in
    /// `#[inject]`), else `None`.
    pub name: Option<String>,
    /// Whether the attribute is a bare path, without arguments.
    pub path_only: bool,
    /// The attribute's argument when its arguments are exactly one
    /// identifier (`optional` in `#[inject(optional)]`).
    pub ident_arg: Option<String>,
}

/// What the derives read of a field's type.
pub struct TypeShape {
    /// The identifier of the last segment of the type's path; `None` when
    /// the type is not a path.
    pub last_segment: Option<String>,
    /// The first generic argument of that segment, when it is a type given
    /// in angle brackets.
    pub first_type_arg: Option<Box<TypeShape>>,
}

/// What the derives read of one named field.
pub struct FieldShape {
    /// The field's attributes, in order.
    pub attrs: Vec<AttrShape>,
    /// The field's type.
    pub ty: TypeShape,
}

/// How a field is marked as a dependency.
#[derive(Debug, Clone, Copy, PartialEq, Eq, Structural)]
pub enum DepKind {
    /// `#[inject]` / `#[dep]`: the field is `Arc<T>` and `T` must be present.
    Required,
    /// `#[inject(optional)]` / `#[dep(optional)]`: the field is
    /// `Option<Arc<T>>`.
    Optional,
}

/// How a field of the derived struct is filled.
#[derive(Debug, Clone, Copy, PartialEq, Eq, Structural)]
pub enum FieldInit {
    /// Resolved from the container; a missing service is an error.
    Resolve,
    /// Resolved from the container if present (`Option`).
    TryResolve,
    /// The dependency at this position of the dependency tuple.
    Dependency(usize),
    /// `Default::default()`.
    Default,
}

/// How a `Service`'s dependencies are written: `()`, a single type, or a
/// tuple.
#[derive(Debug, Clone, Copy, PartialEq, Eq, Structural)]
pub enum DepsShape {
    /// No dependencies: `()`.
    Unit,
    /// One dependency: its own type.
    Single,
    /// Several dependencies: a tuple, in field order.
    Tuple,
}

/// The field whose attribute or type the derive refuses, and why.
pub struct FieldError {
    /// Position of the field.
    pub field: usize,
    /// Position of the refused attribute of that field; `None` when the
    /// field's type is refused.
    pub attr: Option<usize>,
    /// The compile error message.
    pub message: &'static str,
}

/// What `#[derive(Service)]` generates.
pub struct ServicePlan {
    /// How each field is filled.
    pub inits: Vec<FieldInit>,
    /// The fields that are dependencies, in the order of the dependency
    /// tuple.
    pub deps: Vec<usize>,
    /// How the dependency type is written.
    pub shape: DepsShape,
}

/// The derive being expanded.
#[derive(Debug, Clone, Copy, PartialEq, Eq, Structural)]
pub enum DeriveKind {
    Inject,
    Service,
    TypedRequire,
}

/// The kind of item a derive is applied to.
#[derive(Debug, Clone, Copy, PartialEq, Eq, Structural)]
pub enum InputKind {
    /// A struct with named fields.
    NamedStruct,
    /// A tuple or unit struct.
    OtherStruct,
    /// An enum or a union.
    NotStruct,
}

/// Message for an `Inject` field marked required whose type is not `Arc<T>`.
pub const INJECT_REQUIRED_ERROR: &'static str = "Fields marked with #[inject]/#[dep] must have type Arc<T>";

/// Message for an `Inject` field marked optional whose type is not
/// `Option<Arc<T>>`.
pub const INJECT_OPTIONAL_ERROR: &'static str = "Fields marked with #[inject(optional)]/#[dep(optional)] must have type Option<Arc<T>>";

/// Message for a `Service` or `TypedRequire` field marked required whose
/// type is not `Arc<T>`.
pub const DEP_REQUIRED_ERROR: &'static str = "Fields marked with #[dep]/#[inject] must have type Arc<T>";

/// Message for a `Service` field marked optional whose type is not
/// `Option<Arc<T>>`.
pub const DEP_OPTIONAL_ERROR: &'static str = "Fields marked with #[dep(optional)]/#[inject(optional)] must have type Option<Arc<T>>";

/// Message for a field that carries more than one dependency marker.
pub const DUPLICATE_MARKER_ERROR: &'static str = "Duplicate dependency marker: a field takes at most one #[inject]/#[dep] attribute";

/// Whether an attribute name marks a dependency.
pub open spec fn is_marker_name(n: Seq<char>) -> bool {
    n == "inject"@ || n == "dep"@
}

/// The dependency kind an attribute marks, if it is `inject` or `dep`: a
/// bare attribute, or one with arguments other than `optional`, is
/// required.
pub open spec fn attr_marker(a: AttrShape) -> Option<DepKind> {
    match a.name {
        Some(n) => if is_marker_name(n@) {
            if a.path_only {
                Some(DepKind::Required)
            } else if a.ident_arg matches Some(x) && x@ == "optional"@ {
                Some(DepKind::Optional)
            } else {
                Some(DepKind::Required)
            }
        } else {
            None
        },
        None => None,
    }
}

/// The dependency kind of a field: the first attribute named `inject` or
/// `dep` decides; `None` when there is none.
pub open spec fn dep_marker(attrs: Seq<AttrShape>) -> Option<DepKind>
    decreases attrs.len(),
{
    if attrs.len() == 0 {
        None
    } else if attr_marker(attrs[0]) is Some {
        attr_marker(attrs[0])
    } else {
        dep_marker(attrs.drop_first())
    }
}

/// Number of dependency markers among `attrs`.
pub open spec fn marker_count(attrs: Seq<AttrShape>) -> nat
    decreases attrs.len(),
{
    if attrs.len() == 0 {
        0
    } else {
        marker_count(attrs.drop_last()) + if attr_marker(attrs.last()) is Some {
            1nat
        } else {
            0nat
        }
    }
}

/// Whether the last path segment of a type is `name`.
pub open spec fn segment_is(t: TypeShape, name: Seq<char>) -> bool {
    t.last_segment matches Some(s) && s@ == name
}

/// `T` of a type `Arc<T>`.
pub open spec fn arc_inner(t: TypeShape) -> Option<TypeShape> {
    if segment_is(t, "Arc"@) {
        match t.first_type_arg {
            Some(b) => Some(*b),
            None => None,
        }
    } else {
        None
    }
}

/// `T` of a type `Option<Arc<T>>`.
pub open spec fn option_arc_inner(t: TypeShape) -> Option<TypeShape> {
    if segment_is(t, "Option"@) {
        match t.first_type_arg {
            Some(b) => arc_inner(*b),
            None => None,
        }
    } else {
        None
    }
}

/// How `#[derive(Inject)]` fills a field, or the message it refuses it
/// with.
pub open spec fn inject_init(f: FieldShape) -> Result<FieldInit, Seq<char>> {
    if marker_count(f.attrs@) >= 2 {
        Err(DUPLICATE_MARKER_ERROR@)
    } else {
        match dep_marker(f.attrs@) {
            Some(DepKind::Required) => if arc_inner(f.ty) is Some {
                Ok(FieldInit::Resolve)
            } else {
                Err(INJECT_REQUIRED_ERROR@)
            },
            Some(DepKind::Optional) => if option_arc_inner(f.ty) is Some {
                Ok(FieldInit::TryResolve)
            } else {
                Err(INJECT_OPTIONAL_ERROR@)
            },
            None => Ok(FieldInit::Default),
        }
    }
}

/// Whether `#[derive(Service)]` accepts a field: `Ok(true)` for a
/// dependency, `Ok(false)` for a defaulted field, or the refusal message.
pub open spec fn service_field(f: FieldShape) -> Result<bool, Seq<char>> {
    if marker_count(f.attrs@) >= 2 {
        Err(DUPLICATE_MARKER_ERROR@)
    } else {
        match dep_marker(f.attrs@) {
            Some(DepKind::Required) => if arc_inner(f.ty) is Some {
                Ok(true)
            } else {
                Err(DEP_REQUIRED_ERROR@)
            },
            Some(DepKind::Optional) => if option_arc_inner(f.ty) is Some {
                Ok(true)
            } else {
                Err(DEP_OPTIONAL_ERROR@)
            },
            None => Ok(false),
        }
    }
}

/// Whether `#[derive(TypedRequire)]` accepts a field: `Ok(true)` for a
/// required dependency, `Ok(false)` for a field it leaves out (unmarked or
/// optional), or the refusal message.
pub open spec fn required_field(f: FieldShape) -> Result<bool, Seq<char>> {
    if marker_count(f.attrs@) >= 2 {
        Err(DUPLICATE_MARKER_ERROR@)
    } else {
        match dep_marker(f.attrs@) {
            Some(DepKind::Required) => if arc_inner(f.ty) is Some {
                Ok(true)
            } else {
                Err(DEP_REQUIRED_ERROR@)
            },
            _ => Ok(false),
        }
    }
}

/// Number of fields among `fields` that are marked as dependencies.
pub open spec fn marked_count(fields: Seq<FieldShape>) -> nat
    decreases fields.len(),
{
    if fields.len() == 0 {
        0
    } else {
        marked_count(fields.drop_last()) + if dep_marker(fields.last().attrs@) is Some {
            1nat
        } else {
            0nat
        }
    }
}

/// The positions of the fields marked required, in field order.
pub open spec fn required_positions(fields: Seq<FieldShape>) -> Seq<int>
    decreases fields.len(),
{
    if fields.len() == 0 {
        Seq::empty()
    } else if dep_marker(fields.last().attrs@) == Some(DepKind::Required) {
        required_positions(fields.drop_last()).push(fields.len() - 1)
    } else {
        required_positions(fields.drop_last())
    }
}

/// The attribute a refusal of field `f` points at: the field's second
/// dependency marker when it has several, else none (the type is refused).
pub open spec fn refused_attr(f: FieldShape, attr: Option<usize>) -> bool {
    if marker_count(f.attrs@) >= 2 {
        attr matches Some(j) && j < f.attrs@.len() && attr_marker(f.attrs@[j as int]) is Some
            && marker_count(f.attrs@.take(j as int)) == 1
    } else {
        attr is None
    }
}

/// The message a derive gives for an input that is not a struct with named
/// fields.
pub open spec fn input_error_text(derive: DeriveKind, kind: InputKind) -> Option<Seq<char>> {
    let name = match derive {
        DeriveKind::Inject => "Inject"@,
        DeriveKind::Service => "Service"@,
        DeriveKind::TypedRequire => "TypedRequire"@,
    };
    match kind {
        InputKind::NamedStruct => None,
        InputKind::OtherStruct => Some(name + " can only be derived for structs with named fields"@),
        InputKind::NotStruct => Some(name + " can only be derived for structs"@),
    }
}

/// Whether `s` is the text `lit`.
fn text_is(s: &String, lit: &str) -> (r: bool)
    ensures
        r == (s@ == lit@),
{
    *s == String::from_str(lit)
}

/// The dependency kind an attribute marks.
pub fn attr_kind(a: &AttrShape) -> (r: Option<DepKind>)
    ensures
        r == attr_marker(*a),
{
    match &a.name {
        Some(n) => {
            if !(text_is(n, "inject") || text_is(n, "dep")) {
                return None;
            }
            if a.path_only {
                return Some(DepKind::Required);
            }
            match &a.ident_arg {
                Some(x) => if text_is(x, "optional") {
                    Some(DepKind::Optional)
                } else {
                    Some(DepKind::Required)
                },
                None => Some(DepKind::Required),
            }
        },
        None => None,
    }
}

/// The dependency kind of a field: that of its first `inject` or `dep`
/// attribute.
pub fn find_dep_attr(attrs: &Vec<AttrShape>) -> (r: Option<DepKind>)
    ensures
        r == dep_marker(attrs@),
{
    let n = attrs.len();
    let mut i: usize = 0;
    assert(attrs@.subrange(0, n as int) =~= attrs@);
    while i < n
        invariant
            n == attrs@.len(),
            i <= n,
            dep_marker(attrs@) == dep_marker(attrs@.subrange(i as int, n as int)),
        decreases n - i,
    {
        let k = attr_kind(&attrs[i]);
        let ghost rest = attrs@.subrange(i as int, n as int);
        assert(rest[0] == attrs@[i as int]);
        if k.is_some() {
            return k;
        }
        assert(rest.drop_first() =~= attrs@.subrange(i + 1, n as int));
        i = i + 1;
    }
    None
}

/// The prefixes of `attrs` hold no more markers than `attrs` itself.
proof fn lemma_marker_count_prefix(attrs: Seq<AttrShape>, k: int)
    requires
        0 <= k <= attrs.len(),
    ensures
        marker_count(attrs.take(k)) <= marker_count(attrs),
    decreases attrs.len() - k,
{
    if k < attrs.len() {
        lemma_marker_count_prefix(attrs, k + 1);
        assert(attrs.take(k + 1).drop_last() =~= attrs.take(k));
    } else {
        assert(attrs.take(k) =~= attrs);
    }
}

/// The position of a field's second dependency marker, if it has more than
/// one.
pub fn duplicate_marker(attrs: &Vec<AttrShape>) -> (r: Option<usize>)
    ensures
        r is None <==> marker_count(attrs@) <= 1,
        r matches Some(j) ==> j < attrs@.len() && attr_marker(attrs@[j as int]) is Some && marker_count(
            attrs@.take(j as int),
        ) == 1,
{
    let n = attrs.len();
    let mut seen: usize = 0;
    let mut i: usize = 0;
    while i < n
        invariant
            n == attrs@.len(),
            i <= n,
            seen == marker_count(attrs@.take(i as int)),
            seen <= 1,
        decreases n - i,
    {
        proof {
            assert(attrs@.take(i + 1).drop_last() =~= attrs@.take(i as int));
            assert(attrs@.take(i + 1).last() == attrs@[i as int]);
        }
        if attr_kind(&attrs[i]).is_some() {
            if seen == 1 {
                proof {
                    lemma_marker_count_prefix(attrs@, i + 1);
                }
                return Some(i);
            }
            seen = 1;
        }
        i = i + 1;
    }
    proof {
        assert(attrs@.take(n as int) =~= attrs@);
    }
    None
}

/// Whether a type is `Arc<T>` for some `T`.
pub fn is_arc(t: &TypeShape) -> (r: bool)
    ensures
        r == arc_inner(*t) is Some,
{
    match &t.last_segment {
        Some(s) => text_is(s, "Arc") && t.first_type_arg.is_some(),
        None => false,
    }
}

/// Whether a type is `Option<Arc<T>>` for some `T`.
pub fn is_option_arc(t: &TypeShape) -> (r: bool)
    ensures
        r == option_arc_inner(*t) is Some,
{
    match &t.last_segment {
        Some(s) => {
            if !text_is(s, "Option") {
                return false;
            }
            match &t.first_type_arg {
                Some(b) => is_arc(b),
                None => false,
            }
        },
        None => false,
    }
}

/// The message a derive gives for an item that is not a struct with named
/// fields; `None` for one that is.
pub fn input_error(derive: DeriveKind, kind: InputKind) -> (r: Option<String>)
    ensures
        r matches Some(m) ==> input_error_text(derive, kind) == Some(m@),
        r is None <==> input_error_text(derive, kind) is None,
{
    let name = match derive {
        DeriveKind::Inject => "Inject",
        DeriveKind::Service => "Service",
        DeriveKind::TypedRequire => "TypedRequire",
    };
    match kind {
        InputKind::NamedStruct => None,
        InputKind::OtherStruct => {
            let mut m = String::from_str(name);
            m.append(" can only be derived for structs with named fields");
            Some(m)
        },
        InputKind::NotStruct => {
            let mut m = String::from_str(name);
            m.append(" can only be derived for structs");
            Some(m)
        },
    }
}

/// How `#[derive(Inject)]` fills each field, or the first field (in field
/// order) it refuses.
pub fn plan_inject(fields: &Vec<FieldShape>) -> (r: Result<Vec<FieldInit>, FieldError>)
    ensures
        r matches Ok(inits) ==> inits@.len() == fields@.len() && forall|i: int|
            0 <= i < fields@.len() ==> inject_init(#[trigger] fields@[i]) == Ok::<FieldInit, Seq<char>>(
                inits@[i],
            ),
        r matches Err(e) ==> refused_attr(fields@[e.field as int], e.attr),
        r matches Err(e) ==> e.field < fields@.len() && inject_init(fields@[e.field as int]) == Err::<
            FieldInit,
            Seq<char>,
        >(e.message@) && forall|i: int| 0 <= i < e.field ==> (#[trigger] inject_init(fields@[i])) is Ok,
        r matches Ok(inits) ==> forall|i: int|
            0 <= i < fields@.len() ==> {
                &&& marker_count(fields@[i].attrs@) <= 1
                &&& (#[trigger] inits@[i] == FieldInit::Resolve) == (dep_marker(fields@[i].attrs@) == Some(
                    DepKind::Required,
                ))
                &&& (inits@[i] == FieldInit::TryResolve) == (dep_marker(fields@[i].attrs@) == Some(
                    DepKind::Optional,
                ))
                &&& (inits@[i] == FieldInit::Default) == (dep_marker(fields@[i].attrs@) is None)
                &&& dep_marker(fields@[i].attrs@) == Some(DepKind::Required) ==> arc_inner(fields@[i].ty) is Some
                &&& dep_marker(fields@[i].attrs@) == Some(DepKind::Optional) ==> option_arc_inner(
                    fields@[i].ty,
                ) is Some
            },
        r matches Err(e) ==> (e.message == INJECT_REQUIRED_ERROR ==> {
            &&& dep_marker(fields@[e.field as int].attrs@) == Some(DepKind::Required)
            &&& arc_inner(fields@[e.field as int].ty) is None
        }),
{
    let mut inits: Vec<FieldInit> = Vec::new();
    let n = fields.len();
    let mut i: usize = 0;
    while i < n
        invariant
            n == fields@.len(),
            i <= n,
            inits@.len() == i,
            forall|j: int|
                0 <= j < i ==> inject_init(#[trigger] fields@[j]) == Ok::<FieldInit, Seq<char>>(inits@[j]),
        decreases n - i,
    {
        let f = &fields[i];
        if let Some(j) = duplicate_marker(&f.attrs) {
            return Err(FieldError { field: i, attr: Some(j), message: DUPLICATE_MARKER_ERROR });
        }
        let init = match find_dep_attr(&f.attrs) {
            Some(DepKind::Required) => {
                if is_arc(&f.ty) {
                    FieldInit::Resolve
                } else {
                    return Err(FieldError { field: i, attr: None, message: INJECT_REQUIRED_ERROR });
                }
            },
            Some(DepKind::Optional) => {
                if is_option_arc(&f.ty) {
                    FieldInit::TryResolve
                } else {
                    return Err(FieldError { field: i, attr: None, message: INJECT_OPTIONAL_ERROR });
                }
            },
            None => FieldInit::Default,
        };
        inits.push(init);
        i = i + 1;
    }
    proof {
        assert forall|j: int| 0 <= j < fields@.len() implies marker_count(fields@[j].attrs@) <= 1
            && (dep_marker(fields@[j].attrs@) == Some(DepKind::Required) ==> (inits@[j] == FieldInit::Resolve
            && arc_inner(fields@[j].ty) is Some)) && (dep_marker(fields@[j].attrs@) == Some(DepKind::Optional)
            ==> (inits@[j] == FieldInit::TryResolve && option_arc_inner(fields@[j].ty) is Some)) && (
        dep_marker(fields@[j].attrs@) is None ==> inits@[j] == FieldInit::Default) by {
            assert(inject_init(fields@[j]) == Ok::<FieldInit, Seq<char>>(inits@[j]));
            law_inject_plans_by_marker(fields@[j]);
        }
    }
    Ok(inits)
}

/// A marked field counts: the fields before it hold fewer marked fields
/// than any longer prefix that includes it.
proof fn lemma_marked_count_grows(fields: Seq<FieldShape>, j: int, i: int)
    requires
        0 <= j < i <= fields.len(),
        dep_marker(fields[j].attrs@) is Some,
    ensures
        marked_count(fields.take(j)) < marked_count(fields.take(i)),
    decreases i - j,
{
    let t = fields.take(i);
    assert(t.drop_last() =~= fields.take(i - 1));
    assert(t.last() == fields[i - 1]);
    if j < i - 1 {
        lemma_marked_count_grows(fields, j, i - 1);
    }
}

/// How `#[derive(Service)]` fills each field and forms its dependency
/// tuple, or the first field (in field order) it refuses. Dependencies are
/// numbered in field order.
pub fn plan_service(fields: &Vec<FieldShape>) -> (r: Result<ServicePlan, FieldError>)
    ensures
        r matches Ok(p) ==> {
            &&& p.inits@.len() == fields@.len()
            &&& p.deps@.len() == marked_count(fields@)
            &&& forall|i: int|
                0 <= i < fields@.len() ==> (#[trigger] service_field(fields@[i])) is Ok
            &&& forall|i: int|
                0 <= i < fields@.len() ==> (#[trigger] p.inits@[i] == if service_field(fields@[i])
                    == Ok::<bool, Seq<char>>(true) {
                    FieldInit::Dependency(marked_count(fields@.take(i)) as usize)
                } else {
                    FieldInit::Default
                })
            &&& forall|i: int|
                0 <= i < fields@.len() && service_field(fields@[i]) == Ok::<bool, Seq<char>>(true)
                    ==> p.deps@[marked_count(#[trigger] fields@.take(i)) as int] == i
            &&& p.shape == if p.deps@.len() == 0 {
                DepsShape::Unit
            } else if p.deps@.len() == 1 {
                DepsShape::Single
            } else {
                DepsShape::Tuple
            }
        },
        r matches Err(e) ==> refused_attr(fields@[e.field as int], e.attr),
        r matches Err(e) ==> e.field < fields@.len() && service_field(fields@[e.field as int]) == Err::<
            bool,
            Seq<char>,
        >(e.message@) && forall|i: int| 0 <= i < e.field ==> (#[trigger] service_field(fields@[i])) is Ok,
{
    let mut inits: Vec<FieldInit> = Vec::new();
    let mut deps: Vec<usize> = Vec::new();
    let n = fields.len();
    let mut i: usize = 0;
    while i < n
        invariant
            n == fields@.len(),
            i <= n,
            inits@.len() == i,
            deps@.len() == marked_count(fields@.take(i as int)),
            deps@.len() <= i,
            forall|j: int| 0 <= j < i ==> (#[trigger] service_field(fields@[j])) is Ok,
            forall|j: int|
                0 <= j < i ==> (#[trigger] inits@[j] == if service_field(fields@[j]) == Ok::<
                    bool,
                    Seq<char>,
                >(true) {
                    FieldInit::Dependency(marked_count(fields@.take(j)) as usize)
                } else {
                    FieldInit::Default
                }),
            forall|j: int|
                0 <= j < i && service_field(fields@[j]) == Ok::<bool, Seq<char>>(true) ==> deps@[marked_count(
                    #[trigger] fields@.take(j),
                ) as int] == j,
        decreases n - i,
    {
        let f = &fields[i];
        if let Some(j) = duplicate_marker(&f.attrs) {
            return Err(FieldError { field: i, attr: Some(j), message: DUPLICATE_MARKER_ERROR });
        }
        let marked = find_dep_attr(&f.attrs);
        proof {
            assert(fields@.take(i + 1).drop_last() =~= fields@.take(i as int));
            assert(fields@.take(i + 1).last() == fields@[i as int]);
        }
        match marked {
            Some(DepKind::Required) => {
                if !is_arc(&f.ty) {
                    return Err(FieldError { field: i, attr: None, message: DEP_REQUIRED_ERROR });
                }
            },
            Some(DepKind::Optional) => {
                if !is_option_arc(&f.ty) {
                    return Err(FieldError { field: i, attr: None, message: DEP_OPTIONAL_ERROR });
                }
            },
            None => {},
        }
        if marked.is_some() {
            let k = deps.len();
            inits.push(FieldInit::Dependency(k));
            deps.push(i);
            proof {
                assert forall|j: int|
                    0 <= j < i && service_field(fields@[j]) == Ok::<bool, Seq<char>>(true) implies deps@[marked_count(
                    #[trigger] fields@.take(j),
                ) as int] == j by {
                    lemma_marked_count_grows(fields@, j, i as int);
                }
            }
        } else {
            inits.push(FieldInit::Default);
        }
        i = i + 1;
    }
    proof {
        assert(fields@.take(n as int) =~= fields@);
    }
    let shape = if deps.len() == 0 {
        DepsShape::Unit
    } else if deps.len() == 1 {
        DepsShape::Single
    } else {
        DepsShape::Tuple
    };
    Ok(ServicePlan { inits, deps, shape })
}

/// The fields that `#[derive(TypedRequire)]` lists as required
/// dependencies, in field order (optional and unmarked fields are left
/// out), or the first field (in field order) it refuses.
pub fn plan_typed_require(fields: &Vec<FieldShape>) -> (r: Result<Vec<usize>, FieldError>)
    ensures
        r matches Ok(deps) ==> {
            &&& forall|i: int| 0 <= i < fields@.len() ==> (#[trigger] required_field(fields@[i])) is Ok
            &&& deps@.len() == required_positions(fields@).len()
            &&& forall|k: int| 0 <= k < deps@.len() ==> deps@[k] == #[trigger] required_positions(fields@)[k]
        },
        r matches Err(e) ==> refused_attr(fields@[e.field as int], e.attr),
        r matches Err(e) ==> e.field < fields@.len() && required_field(fields@[e.field as int]) == Err::<
            bool,
            Seq<char>,
        >(e.message@) && forall|i: int| 0 <= i < e.field ==> (#[trigger] required_field(fields@[i])) is Ok,
        r matches Ok(deps) ==> {
            &&& forall|k: int|
                0 <= k < deps@.len() ==> {
                    &&& (#[trigger] deps@[k]) < fields@.len()
                    &&& dep_marker(fields@[deps@[k] as int].attrs@) == Some(DepKind::Required)
                    &&& arc_inner(fields@[deps@[k] as int].ty) is Some
                }
            &&& forall|k1: int, k2: int| 0 <= k1 < k2 < deps@.len() ==> #[trigger] deps@[k1] < #[trigger] deps@[k2]
            &&& forall|i: int|
                0 <= i < fields@.len() && dep_marker(#[trigger] fields@[i].attrs@) == Some(DepKind::Required)
                    ==> exists|k: int| 0 <= k < deps@.len() && deps@[k] == i
        },
{
    let mut deps: Vec<usize> = Vec::new();
    let n = fields.len();
    let mut i: usize = 0;
    while i < n
        invariant
            n == fields@.len(),
            i <= n,
            forall|j: int| 0 <= j < i ==> (#[trigger] required_field(fields@[j])) is Ok,
            deps@.len() == required_positions(fields@.take(i as int)).len(),
            forall|k: int|
                0 <= k < deps@.len() ==> deps@[k] == #[trigger] required_positions(fields@.take(i as int))[k],
        decreases n - i,
    {
        let f = &fields[i];
        if let Some(j) = duplicate_marker(&f.attrs) {
            return Err(FieldError { field: i, attr: Some(j), message: DUPLICATE_MARKER_ERROR });
        }
        let marked = find_dep_attr(&f.attrs);
        proof {
            assert(fields@.take(i + 1).drop_last() =~= fields@.take(i as int));
            assert(fields@.take(i + 1).last() == fields@[i as int]);
        }
        match marked {
            Some(DepKind::Required) => {
                if !is_arc(&f.ty) {
                    return Err(FieldError { field: i, attr: None, message: DEP_REQUIRED_ERROR });
                }
                deps.push(i);
            },
            _ => {},
        }
        i = i + 1;
    }
    proof {
        assert(fields@.take(n as int) =~= fields@);
        law_typed_require_lists_required_fields(fields@);
        let rp = required_positions(fields@);
        assert forall|k: int| 0 <= k < deps@.len() implies {
            &&& (#[trigger] deps@[k]) < fields@.len()
            &&& dep_marker(fields@[deps@[k] as int].attrs@) == Some(DepKind::Required)
            &&& arc_inner(fields@[deps@[k] as int].ty) is Some
        } by {
            assert(deps@[k] == rp[k]);
            assert(required_field(fields@[rp[k]]) is Ok);
        }
        assert forall|i: int|
            0 <= i < fields@.len() && dep_marker(#[trigger] fields@[i].attrs@) == Some(DepKind::Required) implies exists|
            k: int,
        | 0 <= k < deps@.len() && deps@[k] == i by {
            let k = choose|k: int| 0 <= k < rp.len() && rp[k] == i;
            assert(deps@[k] == rp[k]);
        }
        assert forall|k1: int, k2: int| 0 <= k1 < k2 < deps@.len() implies #[trigger] deps@[k1] < #[trigger] deps@[k2] by {
            assert(deps@[k1] == rp[k1] && deps@[k2] == rp[k2]);
        }
    }
    Ok(deps)
}

/// `#[inject]` and `#[dep]` are exact aliases, with or without
/// `(optional)`: two attributes that differ only in which of the two names
/// they use mark the same dependency kind.
pub proof fn law_marker_names_are_aliases(a: AttrShape, b: AttrShape)
    requires
        a.name matches Some(n) && is_marker_name(n@),
        b.name matches Some(n) && is_marker_name(n@),
        a.path_only == b.path_only,
        a.ident_arg matches Some(x) ==> b.ident_arg matches Some(y) && x@ == y@,
        a.ident_arg is None ==> b.ident_arg is None,
    ensures
        attr_marker(a) == attr_marker(b),
{
}

/// A field that no attribute marks is never a dependency: `Inject`
/// defaults it, `Service` defaults it and `TypedRequire` leaves it out.
pub proof fn law_unmarked_fields_default(f: FieldShape)
    requires
        forall|i: int| 0 <= i < f.attrs@.len() ==> (#[trigger] attr_marker(f.attrs@[i])) is None,
    ensures
        inject_init(f) == Ok::<FieldInit, Seq<char>>(FieldInit::Default),
        service_field(f) == Ok::<bool, Seq<char>>(false),
        required_field(f) == Ok::<bool, Seq<char>>(false),
{
    lemma_no_marker(f.attrs@);
}

proof fn lemma_no_marker(attrs: Seq<AttrShape>)
    requires
        forall|i: int| 0 <= i < attrs.len() ==> (#[trigger] attr_marker(attrs[i])) is None,
    ensures
        dep_marker(attrs) is None,
        marker_count(attrs) == 0,
    decreases attrs.len(),
{
    if attrs.len() > 0 {
        let init = attrs.drop_last();
        assert forall|i: int| 0 <= i < init.len() implies (#[trigger] attr_marker(init[i])) is None by {
            assert(init[i] == attrs[i]);
        }
        lemma_no_marker(init);
        assert(attr_marker(attrs[attrs.len() - 1]) is None);
        assert(attr_marker(attrs[0]) is None);
        let rest = attrs.drop_first();
        assert forall|i: int| 0 <= i < rest.len() implies (#[trigger] attr_marker(rest[i])) is None by {
            assert(rest[i] == attrs[i + 1]);
        }
        lemma_no_marker(rest);
    }
}

/// An optional dependency is never a required one: `TypedRequire` lists a
/// field exactly when `Service` takes it as a dependency and it is not
/// marked optional.
pub proof fn law_typed_require_lists_required_service_deps(f: FieldShape)
    requires
        service_field(f) is Ok,
    ensures
        required_field(f) == Ok::<bool, Seq<char>>(
            service_field(f) == Ok::<bool, Seq<char>>(true) && dep_marker(f.attrs@) != Some(
                DepKind::Optional,
            ),
        ),
{
}

/// A field with more than one dependency marker is refused by every
/// derive, whatever its type.
pub proof fn law_duplicate_markers_refused(f: FieldShape)
    requires
        marker_count(f.attrs@) >= 2,
    ensures
        inject_init(f) == Err::<FieldInit, Seq<char>>(DUPLICATE_MARKER_ERROR@),
        service_field(f) == Err::<bool, Seq<char>>(DUPLICATE_MARKER_ERROR@),
        required_field(f) == Err::<bool, Seq<char>>(DUPLICATE_MARKER_ERROR@),
{
}

/// `#[derive(Inject)]` decides a field by its marker alone: a field marked
/// required is resolved exactly when its type is `Arc<T>` and refused with
/// the required-marker message otherwise; only a field marked optional is
/// resolved if present, and only an unmarked field is defaulted.
pub proof fn law_inject_plans_by_marker(f: FieldShape)
    ensures
        marker_count(f.attrs@) <= 1 && dep_marker(f.attrs@) == Some(DepKind::Required) ==> {
            &&& arc_inner(f.ty) is Some ==> inject_init(f) == Ok::<FieldInit, Seq<char>>(FieldInit::Resolve)
            &&& arc_inner(f.ty) is None ==> inject_init(f) == Err::<FieldInit, Seq<char>>(
                INJECT_REQUIRED_ERROR@,
            )
        },
        inject_init(f) is Ok ==> marker_count(f.attrs@) <= 1,
        inject_init(f) == Ok::<FieldInit, Seq<char>>(FieldInit::Resolve) ==> dep_marker(f.attrs@) == Some(
            DepKind::Required,
        ) && arc_inner(f.ty) is Some,
        inject_init(f) == Ok::<FieldInit, Seq<char>>(FieldInit::TryResolve) ==> dep_marker(f.attrs@)
            == Some(DepKind::Optional) && option_arc_inner(f.ty) is Some,
        inject_init(f) == Ok::<FieldInit, Seq<char>>(FieldInit::Default) ==> dep_marker(f.attrs@) is None,
        inject_init(f) is Ok ==> !(inject_init(f) matches Ok(FieldInit::Dependency(_))),
{
}

/// The required dependencies `#[derive(TypedRequire)]` lists are exactly
/// the fields marked required, each once, in field order: every listed
/// position is a field marked required, positions strictly increase, and
/// every field marked required is listed.
pub proof fn law_typed_require_lists_required_fields(fields: Seq<FieldShape>)
    ensures
        forall|k: int|
            0 <= k < required_positions(fields).len() ==> 0 <= #[trigger] required_positions(fields)[k]
                < fields.len() && dep_marker(fields[required_positions(fields)[k]].attrs@) == Some(
                DepKind::Required,
            ),
        forall|k1: int, k2: int|
            0 <= k1 < k2 < required_positions(fields).len() ==> #[trigger] required_positions(fields)[k1]
                < #[trigger] required_positions(fields)[k2],
        forall|i: int|
            0 <= i < fields.len() && dep_marker(#[trigger] fields[i].attrs@) == Some(DepKind::Required)
                ==> exists|k: int| 0 <= k < required_positions(fields).len() && required_positions(fields)[k] == i,
    decreases fields.len(),
{
    if fields.len() > 0 {
        let pre = fields.drop_last();
        law_typed_require_lists_required_fields(pre);
        let rp = required_positions(fields);
        let rq = required_positions(pre);
        assert forall|k: int| 0 <= k < rq.len() implies #[trigger] rq[k] < pre.len() by {}
        assert forall|k: int| 0 <= k < rp.len() implies 0 <= #[trigger] rp[k] < fields.len() && dep_marker(
            fields[rp[k]].attrs@,
        ) == Some(DepKind::Required) by {
            if k < rq.len() {
                assert(rp[k] == rq[k]);
                assert(pre[rq[k]] == fields[rq[k]]);
            }
        }
        assert forall|k1: int, k2: int| 0 <= k1 < k2 < rp.len() implies #[trigger] rp[k1] < #[trigger] rp[k2] by {
            if k2 < rq.len() {
                assert(rp[k1] == rq[k1] && rp[k2] == rq[k2]);
            } else {
                assert(rp[k1] == rq[k1]);
                assert(rq[k1] < pre.len());
            }
        }
        assert forall|i: int|
            0 <= i < fields.len() && dep_marker(#[trigger] fields[i].attrs@) == Some(DepKind::Required) implies exists|
            k: int,
        | 0 <= k < rp.len() && rp[k] == i by {
            if i < pre.len() {
                assert(pre[i] == fields[i]);
                let k = choose|k: int| 0 <= k < rq.len() && rq[k] == i;
                assert(rp[k] == rq[k]);
            } else {
                assert(fields.last() == fields[i]);
                assert(rp[rp.len() - 1] == i);
            }
        }
    }
}

} // verus!
