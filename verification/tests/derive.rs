use dependency_injector::derive::{
    attr_kind, duplicate_marker, find_dep_attr, input_error, is_arc, is_option_arc, plan_inject, plan_service,
    plan_typed_require, AttrShape, DepKind, DepsShape, DeriveKind, FieldInit, FieldShape,
    InputKind, TypeShape, DEP_OPTIONAL_ERROR, DEP_REQUIRED_ERROR, DUPLICATE_MARKER_ERROR,
    INJECT_OPTIONAL_ERROR, INJECT_REQUIRED_ERROR,
};

fn marker(name: &str) -> AttrShape {
    AttrShape { name: Some(name.to_string()), path_only: true, ident_arg: None }
}

fn marker_with(name: &str, arg: &str) -> AttrShape {
    AttrShape { name: Some(name.to_string()), path_only: false, ident_arg: Some(arg.to_string()) }
}

fn path(name: &str) -> TypeShape {
    TypeShape { last_segment: Some(name.to_string()), first_type_arg: None }
}

fn generic(name: &str, arg: TypeShape) -> TypeShape {
    TypeShape { last_segment: Some(name.to_string()), first_type_arg: Some(Box::new(arg)) }
}

fn arc_of(name: &str) -> TypeShape {
    generic("Arc", path(name))
}

fn option_arc_of(name: &str) -> TypeShape {
    generic("Option", arc_of(name))
}

fn field(attrs: Vec<AttrShape>, ty: TypeShape) -> FieldShape {
    FieldShape { attrs, ty }
}

/// `db: Arc<Database>`, `cache: Option<Arc<Cache>>`, `counter: u64`, with
/// the dependency markers spelled `spelling`.
fn db_cache_counter(spelling: &str) -> Vec<FieldShape> {
    vec![
        field(vec![marker(spelling)], arc_of("Database")),
        field(vec![marker_with(spelling, "optional")], option_arc_of("Cache")),
        field(vec![], path("u64")),
    ]
}

#[test]
fn inject_accepts_dep_spelling() {
    let plan = plan_inject(&db_cache_counter("dep")).ok().unwrap();
    assert_eq!(plan, vec![FieldInit::Resolve, FieldInit::TryResolve, FieldInit::Default]);
    assert_eq!(plan_inject(&db_cache_counter("inject")).ok().unwrap(), plan);
}

#[test]
fn inject_accepts_dep_optional_spelling() {
    let fields = vec![field(vec![marker_with("dep", "optional")], option_arc_of("Cache"))];
    assert_eq!(plan_inject(&fields).ok().unwrap(), vec![FieldInit::TryResolve]);
}

#[test]
fn service_accepts_inject_spelling() {
    let plan = plan_service(&db_cache_counter("inject")).ok().unwrap();
    assert_eq!(plan.inits, vec![FieldInit::Dependency(0), FieldInit::Dependency(1), FieldInit::Default]);
    assert_eq!(plan.deps, vec![0, 1]);
    assert_eq!(plan.shape, DepsShape::Tuple);
}

#[test]
fn service_accepts_inject_optional_spelling() {
    let fields = vec![field(vec![marker_with("inject", "optional")], option_arc_of("Cache"))];
    let plan = plan_service(&fields).ok().unwrap();
    assert_eq!(plan.inits, vec![FieldInit::Dependency(0)]);
    assert_eq!(plan.deps, vec![0]);
    assert_eq!(plan.shape, DepsShape::Single);
}

#[test]
fn typed_require_accepts_inject_spelling() {
    let fields = vec![
        field(vec![marker("inject")], arc_of("Database")),
        field(vec![marker("inject")], arc_of("Cache")),
    ];
    assert_eq!(plan_typed_require(&fields).ok().unwrap(), vec![0, 1]);
}

#[test]
fn typed_require_excludes_optional_inject_deps() {
    let fields = vec![
        field(vec![marker("inject")], arc_of("Database")),
        field(vec![marker_with("inject", "optional")], option_arc_of("Cache")),
    ];
    assert_eq!(plan_typed_require(&fields).ok().unwrap(), vec![0]);
}

#[test]
fn typed_require_allows_mixed_spellings() {
    let fields = vec![
        field(vec![marker("inject")], arc_of("Database")),
        field(vec![marker("dep")], arc_of("Cache")),
    ];
    assert_eq!(plan_typed_require(&fields).ok().unwrap(), vec![0, 1]);
}

#[test]
fn generates_reg_chain_for_dep_fields() {
    // db, then cache: the chain lists them head-first in field order.
    let fields = vec![
        field(vec![marker("dep")], arc_of("Database")),
        field(vec![marker("dep")], arc_of("Cache")),
    ];
    assert_eq!(plan_typed_require(&fields).ok().unwrap(), vec![0, 1]);
}

#[test]
fn generates_unit_for_no_dep_fields() {
    let fields = vec![field(vec![], path("u64"))];
    assert!(plan_typed_require(&fields).ok().unwrap().is_empty());
}

#[test]
fn excludes_optional_deps_from_required_list() {
    let fields = vec![
        field(vec![marker("dep")], arc_of("Database")),
        field(vec![marker_with("dep", "optional")], option_arc_of("Cache")),
    ];
    assert_eq!(plan_typed_require(&fields).ok().unwrap(), vec![0]);
}

#[test]
fn dependencies_match_typed_builder_registry() {
    // A builder that registers Cache, then Database, has Database at the
    // head of its registry chain; UserService lists db (Database) first.
    let fields = vec![
        field(vec![marker("dep")], arc_of("Database")),
        field(vec![marker("dep")], arc_of("Cache")),
    ];
    let deps = plan_typed_require(&fields).ok().unwrap();
    let head = &fields[deps[0]].ty.first_type_arg.as_ref().unwrap().last_segment;
    assert_eq!(head.as_deref(), Some("Database"));
}

#[test]
fn first_marker_attribute_decides() {
    let attrs = vec![
        AttrShape { name: Some("allow".to_string()), path_only: false, ident_arg: Some("dead_code".to_string()) },
        marker_with("dep", "optional"),
        marker("inject"),
    ];
    assert_eq!(find_dep_attr(&attrs), Some(DepKind::Optional));
    assert_eq!(find_dep_attr(&vec![]), None);
    assert_eq!(attr_kind(&marker_with("inject", "other")), Some(DepKind::Required));
    let with_tokens = AttrShape { name: Some("dep".to_string()), path_only: false, ident_arg: None };
    assert_eq!(attr_kind(&with_tokens), Some(DepKind::Required));
    let multi_segment = AttrShape { name: None, path_only: true, ident_arg: None };
    assert_eq!(attr_kind(&multi_segment), None);
}

#[test]
fn type_shapes() {
    assert!(is_arc(&arc_of("Db")));
    assert!(!is_arc(&path("Arc")));
    assert!(!is_arc(&option_arc_of("Db")));
    assert!(is_option_arc(&option_arc_of("Db")));
    assert!(!is_option_arc(&generic("Option", path("Db"))));
    assert!(!is_option_arc(&TypeShape { last_segment: None, first_type_arg: None }));
}

#[test]
fn wrong_types_are_refused_at_the_first_bad_field() {
    let fields = vec![
        field(vec![], path("u64")),
        field(vec![marker("inject")], path("Database")),
        field(vec![marker_with("inject", "optional")], arc_of("Cache")),
    ];
    let e = plan_inject(&fields).err().unwrap();
    assert_eq!(e.field, 1);
    assert_eq!(e.message, INJECT_REQUIRED_ERROR);

    let optional_only = vec![field(vec![marker_with("inject", "optional")], arc_of("Cache"))];
    assert_eq!(plan_inject(&optional_only).err().unwrap().message, INJECT_OPTIONAL_ERROR);

    let e = plan_service(&fields).err().unwrap();
    assert_eq!(e.field, 1);
    assert_eq!(e.message, DEP_REQUIRED_ERROR);
    assert_eq!(plan_service(&optional_only).err().unwrap().message, DEP_OPTIONAL_ERROR);

    // TypedRequire ignores optional fields, whatever their type.
    assert!(plan_typed_require(&optional_only).ok().unwrap().is_empty());
    assert_eq!(plan_typed_require(&fields).err().unwrap().field, 1);
}

#[test]
fn service_without_dependencies_takes_unit() {
    let plan = plan_service(&vec![field(vec![], path("u64"))]).ok().unwrap();
    assert_eq!(plan.inits, vec![FieldInit::Default]);
    assert!(plan.deps.is_empty());
    assert_eq!(plan.shape, DepsShape::Unit);
}

#[test]
fn only_structs_with_named_fields() {
    assert_eq!(input_error(DeriveKind::Inject, InputKind::NamedStruct), None);
    assert_eq!(
        input_error(DeriveKind::Inject, InputKind::OtherStruct).unwrap(),
        "Inject can only be derived for structs with named fields"
    );
    assert_eq!(
        input_error(DeriveKind::Service, InputKind::NotStruct).unwrap(),
        "Service can only be derived for structs"
    );
    assert_eq!(
        input_error(DeriveKind::TypedRequire, InputKind::OtherStruct).unwrap(),
        "TypedRequire can only be derived for structs with named fields"
    );
}

#[test]
fn a_second_marker_is_refused_at_that_attribute() {
    let attrs = vec![
        marker("inject"),
        AttrShape { name: Some("doc".to_string()), path_only: false, ident_arg: None },
        marker("dep"),
    ];
    assert_eq!(duplicate_marker(&attrs), Some(2));
    assert_eq!(duplicate_marker(&vec![marker("dep")]), None);
    assert_eq!(duplicate_marker(&vec![]), None);

    let fields = vec![field(vec![], path("u64")), field(attrs, arc_of("Database"))];
    for e in [
        plan_inject(&fields).err().unwrap(),
        plan_service(&fields).err().unwrap(),
        plan_typed_require(&fields).err().unwrap(),
    ] {
        assert_eq!(e.field, 1);
        assert_eq!(e.attr, Some(2));
        assert_eq!(e.message, DUPLICATE_MARKER_ERROR);
    }
    // A refused type points at no attribute.
    let bad_type = vec![field(vec![marker("dep")], path("Database"))];
    assert_eq!(plan_service(&bad_type).err().unwrap().attr, None);
}
