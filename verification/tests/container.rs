use dependency_injector::container::{Container, ScopeId, Step};
use dependency_injector::error::DiError;
use dependency_injector::storage::Factory;
use std::any::{Any, TypeId};
use std::sync::atomic::{AtomicBool, AtomicU32, Ordering};
use std::sync::Arc;

type Svc = Arc<dyn Any + Send + Sync>;
type Fac = Box<dyn Fn() -> Svc + Send + Sync>;

fn key<T: 'static>() -> TypeId {
    TypeId::of::<T>()
}

fn svc<T: Any + Send + Sync>(value: T) -> Svc {
    Arc::new(value)
}

/// Resolve `T` from scope `s` the way a caller of the container does:
/// follow the step the container names, running a pending factory and
/// recording a lazy instance.
fn get<T: Any + Send + Sync>(c: &mut Container<Svc, Fac>, s: ScopeId) -> Option<Arc<T>> {
    let k = key::<T>();
    loop {
        let (made, record) = match c.resolution_step(s, &k) {
            Step::Missing => return None,
            Step::Ready(v) => return v.clone().downcast::<T>().ok(),
            Step::RunEachTime(f) => return f().downcast::<T>().ok(),
            Step::RunAndRecord { factory, owner, generation } => (factory(), (owner, generation)),
        };
        if c.complete_lazy_at(s, k, record.0, record.1, made) {
            let f = c.get(s, &k)?;
            return f.instance()?.clone().downcast::<T>().ok();
        }
    }
}

#[derive(Clone)]
struct TestService {
    value: String,
}

#[allow(dead_code)]
#[derive(Clone)]
struct AnotherService {
    name: String,
}

#[test]
fn test_singleton() {
    let mut container: Container<Svc, Fac> = Container::new();
    let root = container.root();
    container.singleton(root, key::<TestService>(), svc(TestService { value: "test".into() }));

    let s1 = get::<TestService>(&mut container, root).unwrap();
    let s2 = get::<TestService>(&mut container, root).unwrap();

    assert_eq!(s1.value, "test");
    assert!(Arc::ptr_eq(&s1, &s2));
}

#[test]
fn test_lazy() {
    let created = Arc::new(AtomicBool::new(false));
    let flag = Arc::clone(&created);

    let mut container: Container<Svc, Fac> = Container::new();
    let root = container.root();
    container.lazy(
        root,
        key::<TestService>(),
        Box::new(move || {
            flag.store(true, Ordering::SeqCst);
            svc(TestService { value: "lazy".into() })
        }),
    );

    assert!(!created.load(Ordering::SeqCst));

    let s = get::<TestService>(&mut container, root).unwrap();
    assert!(created.load(Ordering::SeqCst));
    assert_eq!(s.value, "lazy");
}

#[derive(Clone)]
struct Counter(u32);

#[test]
fn test_transient() {
    let counter = Arc::new(AtomicU32::new(0));
    let c = Arc::clone(&counter);

    let mut container: Container<Svc, Fac> = Container::new();
    let root = container.root();
    container.transient(
        root,
        key::<Counter>(),
        Box::new(move || svc(Counter(c.fetch_add(1, Ordering::SeqCst)))),
    );

    let c1 = get::<Counter>(&mut container, root).unwrap();
    let c2 = get::<Counter>(&mut container, root).unwrap();

    assert_ne!(c1.0, c2.0);
}

#[test]
fn test_scope_inheritance() {
    let mut container: Container<Svc, Fac> = Container::new();
    let root = container.root();
    container.singleton(root, key::<TestService>(), svc(TestService { value: "root".into() }));

    let child = container.scope(root);
    container.singleton(child, key::<AnotherService>(), svc(AnotherService { name: "child".into() }));

    // Child sees both
    assert!(container.contains(child, &key::<TestService>()));
    assert!(container.contains(child, &key::<AnotherService>()));

    // Root only sees its own
    assert!(container.contains(root, &key::<TestService>()));
    assert!(!container.contains(root, &key::<AnotherService>()));
}

#[test]
fn test_scope_override() {
    let mut container: Container<Svc, Fac> = Container::new();
    let root = container.root();
    container.singleton(root, key::<TestService>(), svc(TestService { value: "root".into() }));

    let child = container.scope(root);
    container.singleton(child, key::<TestService>(), svc(TestService { value: "child".into() }));

    let root_service = get::<TestService>(&mut container, root).unwrap();
    let child_service = get::<TestService>(&mut container, child).unwrap();

    assert_eq!(root_service.value, "root");
    assert_eq!(child_service.value, "child");
}

#[test]
fn container_test_not_found() {
    let mut container: Container<Svc, Fac> = Container::new();
    let root = container.root();
    let result = get::<TestService>(&mut container, root);
    assert!(result.is_none());
    assert!(container.get(root, &key::<TestService>()).is_none());
}

#[test]
fn test_lock() {
    let mut container: Container<Svc, Fac> = Container::new();
    let root = container.root();
    assert!(!container.is_locked(root));

    container.lock(root);
    assert!(container.is_locked(root));
}

#[derive(Clone)]
struct ServiceA(i32);
#[allow(dead_code)]
#[derive(Clone)]
struct ServiceB(String);

#[test]
fn test_batch_registration() {
    let mut container: Container<Svc, Fac> = Container::new();
    let root = container.root();
    container.register_batch(
        root,
        vec![
            (key::<ServiceA>(), Factory::singleton(svc(ServiceA(42)))),
            (key::<ServiceB>(), Factory::singleton(svc(ServiceB("test".into())))),
            (
                key::<TestService>(),
                Factory::lazy(Box::new(|| svc(TestService { value: "lazy".into() })) as Fac),
            ),
        ],
    );

    assert!(container.contains(root, &key::<ServiceA>()));
    assert!(container.contains(root, &key::<ServiceB>()));
    assert!(container.contains(root, &key::<TestService>()));

    let a = get::<ServiceA>(&mut container, root).unwrap();
    assert_eq!(a.0, 42);
}

#[derive(Clone)]
struct RootService(i32);
#[derive(Clone)]
struct MiddleService(i32);
#[derive(Clone)]
struct LeafService(i32);

#[test]
fn test_deep_parent_chain() {
    // Create 4-level hierarchy: root -> middle1 -> middle2 -> leaf
    let mut container: Container<Svc, Fac> = Container::new();
    let root = container.root();
    container.singleton(root, key::<RootService>(), svc(RootService(1)));

    let middle1 = container.scope(root);
    container.singleton(middle1, key::<MiddleService>(), svc(MiddleService(2)));

    let middle2 = container.scope(middle1);
    // No service in middle2

    let leaf = container.scope(middle2);
    container.singleton(leaf, key::<LeafService>(), svc(LeafService(4)));

    assert!(container.contains(leaf, &key::<RootService>()), "Should find root service in leaf");
    assert!(container.contains(leaf, &key::<MiddleService>()), "Should find middle service in leaf");
    assert!(container.contains(leaf, &key::<LeafService>()), "Should find leaf service in leaf");

    let root_svc = get::<RootService>(&mut container, leaf).unwrap();
    assert_eq!(root_svc.0, 1);

    let middle_svc = get::<MiddleService>(&mut container, leaf).unwrap();
    assert_eq!(middle_svc.0, 2);

    let leaf_svc = get::<LeafService>(&mut container, leaf).unwrap();
    assert_eq!(leaf_svc.0, 4);

    assert!(container.contains(middle2, &key::<RootService>()));
    assert!(container.contains(middle2, &key::<MiddleService>()));
    assert!(!container.contains(middle2, &key::<LeafService>()));

    assert_eq!(container.depth(leaf), 3);
    assert_eq!(container.owner(leaf, &key::<MiddleService>()), Some(middle1));
}

#[derive(Clone)]
struct Database {
    url: String,
}

#[allow(dead_code)]
#[derive(Clone)]
struct UserService {
    name: String,
}

#[test]
fn test_singleton_registration() {
    let mut container: Container<Svc, Fac> = Container::new();
    let root = container.root();
    container.singleton(root, key::<Database>(), svc(Database { url: "test".into() }));

    let db = get::<Database>(&mut container, root).unwrap();
    assert_eq!(db.url, "test");
}

#[test]
fn test_multiple_resolve_same_instance() {
    let mut container: Container<Svc, Fac> = Container::new();
    let root = container.root();
    container.singleton(root, key::<Database>(), svc(Database { url: "test".into() }));

    let db1 = get::<Database>(&mut container, root).unwrap();
    let db2 = get::<Database>(&mut container, root).unwrap();

    assert!(Arc::ptr_eq(&db1, &db2));
}

#[test]
fn test_transient_creates_new_instance() {
    let counter = Arc::new(AtomicU32::new(0));
    let c = Arc::clone(&counter);

    let mut container: Container<Svc, Fac> = Container::new();
    let root = container.root();
    container.transient(
        root,
        key::<Counter>(),
        Box::new(move || svc(Counter(c.fetch_add(1, Ordering::SeqCst)))),
    );

    let c1 = get::<Counter>(&mut container, root).unwrap();
    let c2 = get::<Counter>(&mut container, root).unwrap();

    assert_ne!(c1.0, c2.0);
}

#[derive(Clone)]
struct LazyService;

#[test]
fn test_lazy_singleton() {
    let created = Arc::new(AtomicU32::new(0));
    let c = Arc::clone(&created);

    let mut container: Container<Svc, Fac> = Container::new();
    let root = container.root();
    container.lazy(
        root,
        key::<LazyService>(),
        Box::new(move || {
            c.fetch_add(1, Ordering::SeqCst);
            svc(LazyService)
        }),
    );

    assert_eq!(created.load(Ordering::SeqCst), 0);

    let _ = get::<LazyService>(&mut container, root).unwrap();
    assert_eq!(created.load(Ordering::SeqCst), 1);

    // Second resolve doesn't create new instance
    let _ = get::<LazyService>(&mut container, root).unwrap();
    assert_eq!(created.load(Ordering::SeqCst), 1);
}

#[test]
fn test_scoped_container() {
    let mut container: Container<Svc, Fac> = Container::new();
    let root = container.root();
    container.singleton(root, key::<Database>(), svc(Database { url: "root".into() }));

    let child = container.scope(root);
    container.singleton(child, key::<UserService>(), svc(UserService { name: "child".into() }));

    assert!(container.contains(child, &key::<Database>()));
    assert!(container.contains(child, &key::<UserService>()));

    assert!(container.contains(root, &key::<Database>()));
    assert!(!container.contains(root, &key::<UserService>()));
}

#[test]
fn test_not_found_error() {
    let mut container: Container<Svc, Fac> = Container::new();
    let root = container.root();
    let result = get::<Database>(&mut container, root);
    assert!(result.is_none());
}

#[test]
fn test_override_in_scope() {
    let mut container: Container<Svc, Fac> = Container::new();
    let root = container.root();
    container.singleton(root, key::<Database>(), svc(Database { url: "production".into() }));

    let test_scope = container.scope(root);
    container.singleton(test_scope, key::<Database>(), svc(Database { url: "test".into() }));

    let root_db = get::<Database>(&mut container, root).unwrap();
    assert_eq!(root_db.url, "production");

    let child_db = get::<Database>(&mut container, test_scope).unwrap();
    assert_eq!(child_db.url, "test");
}

// ---------------------------------------------------------------------------
// Behaviour of scopes, locks and lifetimes beyond the scenarios above
// ---------------------------------------------------------------------------

#[test]
fn parent_registration_after_scope_creation_is_visible() {
    let mut container: Container<Svc, Fac> = Container::new();
    let root = container.root();
    let child = container.scope(root);
    assert!(!container.contains(child, &key::<Database>()));

    container.singleton(root, key::<Database>(), svc(Database { url: "late".into() }));
    let db = get::<Database>(&mut container, child).unwrap();
    assert_eq!(db.url, "late");
}

#[test]
fn clear_falls_through_to_parent() {
    let mut container: Container<Svc, Fac> = Container::new();
    let root = container.root();
    container.singleton(root, key::<Database>(), svc(Database { url: "root".into() }));
    let child = container.scope(root);
    container.singleton(child, key::<Database>(), svc(Database { url: "child".into() }));
    assert_eq!(get::<Database>(&mut container, child).unwrap().url, "child");

    let before = container.generation(child);
    container.clear(child);
    assert_ne!(container.generation(child), before);
    assert_eq!(container.len(child), 0);
    assert!(container.is_empty(child));
    assert_eq!(get::<Database>(&mut container, child).unwrap().url, "root");
    assert_eq!(container.len(root), 1);
}

#[test]
fn remove_only_touches_its_scope() {
    let mut container: Container<Svc, Fac> = Container::new();
    let root = container.root();
    container.singleton(root, key::<Database>(), svc(Database { url: "root".into() }));
    let child = container.scope(root);
    assert!(!container.remove(child, &key::<Database>()));
    assert!(container.contains(child, &key::<Database>()));
    assert!(container.remove(root, &key::<Database>()));
    assert!(!container.contains(child, &key::<Database>()));
    assert!(!container.remove(root, &key::<Database>()));
}

#[test]
fn lock_is_per_scope() {
    let mut container: Container<Svc, Fac> = Container::new();
    let root = container.root();
    let child = container.scope(root);
    container.lock(root);
    assert!(container.is_locked(root));
    assert!(!container.is_locked(child));
    container.singleton(child, key::<Database>(), svc(Database { url: "child".into() }));
    assert!(container.contains(child, &key::<Database>()));
}

#[test]
fn lazy_instance_is_shared_by_child_scopes() {
    let created = Arc::new(AtomicU32::new(0));
    let c = Arc::clone(&created);
    let mut container: Container<Svc, Fac> = Container::new();
    let root = container.root();
    container.lazy(
        root,
        key::<LazyService>(),
        Box::new(move || {
            c.fetch_add(1, Ordering::SeqCst);
            svc(LazyService)
        }),
    );
    let a = container.scope(root);
    let b = container.scope(root);
    let from_a = get::<LazyService>(&mut container, a).unwrap();
    let from_b = get::<LazyService>(&mut container, b).unwrap();
    let from_root = get::<LazyService>(&mut container, root).unwrap();
    assert_eq!(created.load(Ordering::SeqCst), 1);
    assert!(Arc::ptr_eq(&from_a, &from_b));
    assert!(Arc::ptr_eq(&from_a, &from_root));
}

#[test]
fn complete_lazy_keeps_the_first_instance() {
    let mut container: Container<Svc, Fac> = Container::new();
    let root = container.root();
    container.lazy(root, key::<Database>(), Box::new(|| svc(Database { url: "factory".into() })));
    assert!(container.complete_lazy(root, key::<Database>(), svc(Database { url: "first".into() })));
    assert!(!container.complete_lazy(root, key::<Database>(), svc(Database { url: "second".into() })));
    assert_eq!(get::<Database>(&mut container, root).unwrap().url, "first");
}

#[test]
fn complete_lazy_refuses_other_lifetimes() {
    let mut container: Container<Svc, Fac> = Container::new();
    let root = container.root();
    container.singleton(root, key::<Database>(), svc(Database { url: "s".into() }));
    container.transient(root, key::<Counter>(), Box::new(|| svc(Counter(7))));
    assert!(!container.complete_lazy(root, key::<Database>(), svc(Database { url: "x".into() })));
    assert!(!container.complete_lazy(root, key::<Counter>(), svc(Counter(1))));
    assert!(!container.complete_lazy(root, key::<LazyService>(), svc(LazyService)));
    assert!(container.is_transient(root, &key::<Counter>()));
    assert!(!container.is_transient(root, &key::<Database>()));
}

#[test]
fn registered_types_lists_local_keys_once() {
    let mut container: Container<Svc, Fac> = Container::new();
    let root = container.root();
    container.singleton(root, key::<Database>(), svc(Database { url: "a".into() }));
    container.singleton(root, key::<Database>(), svc(Database { url: "b".into() }));
    container.singleton(root, key::<ServiceA>(), svc(ServiceA(1)));
    let child = container.scope(root);
    let types = container.registered_types(root);
    assert_eq!(types.len(), 2);
    assert!(types.contains(&key::<Database>()));
    assert!(types.contains(&key::<ServiceA>()));
    assert!(container.registered_types(child).is_empty());
    assert_eq!(get::<Database>(&mut container, root).unwrap().url, "b");
}

#[test]
fn scope_metadata() {
    let mut container: Container<Svc, Fac> = Container::with_capacity(8);
    let root = container.root();
    assert_eq!(root, 0);
    assert_eq!(container.depth(root), 0);
    assert!(!container.has_parent(root));
    assert_eq!(container.parent(root), None);
    let child = container.create_scope(root);
    assert_eq!(container.depth(child), 1);
    assert_eq!(container.parent(child), Some(root));
    assert!(container.has_parent(child));
    assert_eq!(container.scope_len(), 2);
}

#[test]
fn aliases_register_as_their_targets() {
    let mut container: Container<Svc, Fac> = Container::new();
    let root = container.root();
    container.register(root, key::<Database>(), svc(Database { url: "reg".into() }));
    container.register_boxed(root, key::<ServiceA>(), Box::new(svc(ServiceA(3))));
    container.register_by_id(root, key::<ServiceB>(), svc(ServiceB("id".into())));
    container.register_factory(root, key::<LazyService>(), Box::new(|| svc(LazyService)));
    assert!(container.has(root, &key::<Database>()));
    assert_eq!(get::<ServiceA>(&mut container, root).unwrap().0, 3);
    assert!(container.resolve(root, &key::<ServiceB>()).is_some());
    assert!(matches!(
        container.get(root, &key::<LazyService>()),
        Some(Factory::Lazy { instance: None, .. })
    ));
}

#[test]
fn scope_chain_runs_from_scope_to_root() {
    let mut c: Container<Svc, Fac> = Container::new();
    let root = c.root();
    let mid = c.scope(root);
    let leaf = c.scope(mid);
    let other = c.scope(root);
    assert_eq!(c.scope_chain(leaf), vec![leaf, mid, root]);
    assert_eq!(c.scope_chain(other), vec![other, root]);
    assert_eq!(c.scope_chain(root), vec![root]);
    assert_eq!(c.scope_chain(leaf).len() as u32, c.depth(leaf) + 1);
}

#[test]
fn locking_changes_no_resolution() {
    let mut c: Container<Svc, Fac> = Container::new();
    let root = c.root();
    c.singleton(root, key::<i32>(), svc(5i32));
    let child = c.scope(root);
    c.singleton(child, key::<u8>(), svc(6u8));
    c.lock(root);
    c.lock(child);
    assert_eq!(*get::<i32>(&mut c, child).unwrap(), 5);
    assert_eq!(*get::<u8>(&mut c, child).unwrap(), 6);
    // Removal and clearing stay permitted on a locked scope.
    assert!(c.remove(child, &key::<u8>()));
    c.clear(root);
    assert!(!c.contains(child, &key::<i32>()));
    assert!(c.is_locked(root));
}

#[test]
fn require_reports_not_found_with_the_key() {
    let mut c: Container<Svc, Fac> = Container::new();
    let root = c.root();
    let child = c.scope(root);
    match c.require(child, &key::<u16>(), "u16") {
        Err(DiError::NotFound { service, type_id }) => {
            assert_eq!(service, "u16");
            assert_eq!(type_id, key::<u16>());
        }
        _ => panic!("expected NotFound"),
    }
    c.singleton(root, key::<u16>(), svc(3u16));
    let f = c.require(child, &key::<u16>(), "u16").ok().unwrap();
    assert_eq!(*f.instance().unwrap().clone().downcast::<u16>().unwrap(), 3);
}

#[test]
fn resolution_step_names_what_to_do() {
    let mut c: Container<Svc, Fac> = Container::new();
    let root = c.root();
    assert!(matches!(c.resolution_step(root, &key::<u8>()), Step::Missing));
    c.singleton(root, key::<u8>(), svc(1u8));
    assert!(matches!(c.resolution_step(root, &key::<u8>()), Step::Ready(_)));
    let t: Fac = Box::new(|| svc(2u16));
    c.transient(root, key::<u16>(), t);
    assert!(matches!(c.resolution_step(root, &key::<u16>()), Step::RunEachTime(_)));
    let child = c.scope(root);
    let l: Fac = Box::new(|| svc(3u32));
    c.lazy(child, key::<u32>(), l);
    match c.resolution_step(child, &key::<u32>()) {
        Step::RunAndRecord { owner, generation, .. } => {
            assert_eq!(owner, child);
            assert_eq!(generation, c.generation(child));
        }
        _ => panic!("expected a lazy step"),
    }
}

#[test]
fn complete_lazy_at_refuses_a_registration_made_meanwhile() {
    let mut c: Container<Svc, Fac> = Container::new();
    let root = c.root();
    let first: Fac = Box::new(|| svc(1u32));
    c.lazy(root, key::<u32>(), first);
    let (owner, generation) = match c.resolution_step(root, &key::<u32>()) {
        Step::RunAndRecord { owner, generation, .. } => (owner, generation),
        _ => panic!("expected a lazy step"),
    };
    // Re-registered while the first factory was running.
    let second: Fac = Box::new(|| svc(2u32));
    c.lazy(root, key::<u32>(), second);
    assert!(!c.complete_lazy_at(root, key::<u32>(), owner, generation, svc(1u32)));
    assert!(c.get(root, &key::<u32>()).unwrap().instance().is_none());
    // The fresh step records the second factory's instance.
    assert_eq!(*get::<u32>(&mut c, root).unwrap(), 2);
}
