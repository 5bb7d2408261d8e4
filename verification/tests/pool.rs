use dependency_injector::container::{Container, ScopeId};
use dependency_injector::pool::ScopePool;
use std::any::{Any, TypeId};
use std::sync::Arc;

type Svc = Arc<dyn Any + Send + Sync>;
type Fac = Box<dyn Fn() -> Svc + Send + Sync>;

fn key<T: 'static>() -> TypeId {
    TypeId::of::<T>()
}

fn svc<T: Any + Send + Sync>(value: T) -> Svc {
    Arc::new(value)
}

fn get<T: Any + Send + Sync + Clone>(c: &Container<Svc, Fac>, s: ScopeId) -> Option<T> {
    let f = c.get(s, &key::<T>())?;
    let v = f.instance()?.clone();
    v.downcast::<T>().ok().map(|a| (*a).clone())
}

#[derive(Clone)]
struct TestService {
    value: String,
}

#[derive(Clone)]
struct RequestId(u64);

#[test]
fn test_scope_pool_basic() {
    let mut container: Container<Svc, Fac> = Container::new();
    let root = container.root();
    container.singleton(root, key::<TestService>(), svc(TestService { value: "root".into() }));

    let mut pool = ScopePool::new(&mut container, root, 2);
    assert_eq!(pool.available_count(), 2);

    let scope = pool.acquire(&mut container);
    assert_eq!(pool.available_count(), 1);

    // The parent's services are visible from the pooled scope.
    assert!(container.contains(scope, &key::<TestService>()));
    assert_eq!(get::<TestService>(&container, scope).unwrap().value, "root");

    container.singleton(scope, key::<RequestId>(), svc(RequestId(123)));
    assert!(container.contains(scope, &key::<RequestId>()));
    let id = get::<RequestId>(&container, scope).unwrap();
    assert_eq!(id.0, 123);

    pool.release(&mut container, scope);
    assert_eq!(pool.available_count(), 2);
}

#[test]
fn test_scope_pool_reuse() {
    let mut container: Container<Svc, Fac> = Container::new();
    let root = container.root();
    let mut pool = ScopePool::new(&mut container, root, 1);

    let first = pool.acquire(&mut container);
    container.singleton(first, key::<RequestId>(), svc(RequestId(1)));
    assert!(container.contains(first, &key::<RequestId>()));
    pool.release(&mut container, first);

    // The same scope comes back, with the previous registration gone.
    let second = pool.acquire(&mut container);
    assert_eq!(first, second);
    assert!(!container.contains(second, &key::<RequestId>()));

    container.singleton(second, key::<RequestId>(), svc(RequestId(2)));
    let id = get::<RequestId>(&container, second).unwrap();
    assert_eq!(id.0, 2);
    pool.release(&mut container, second);
}

#[test]
fn test_scope_pool_expansion() {
    let mut container: Container<Svc, Fac> = Container::new();
    let root = container.root();
    let mut pool = ScopePool::new(&mut container, root, 1);

    let s1 = pool.acquire(&mut container);
    let s2 = pool.acquire(&mut container);
    assert_ne!(s1, s2);
    assert_eq!(pool.available_count(), 0);

    pool.release(&mut container, s1);
    pool.release(&mut container, s2);
    assert_eq!(pool.available_count(), 2);
}

#[test]
fn pool_scopes_are_children_of_the_parent() {
    let mut container: Container<Svc, Fac> = Container::new();
    let root = container.root();
    let mut pool = ScopePool::new(&mut container, root, 1);
    assert_eq!(pool.parent(), root);

    let s = pool.acquire(&mut container);
    assert_eq!(container.parent(s), Some(root));
    assert_eq!(container.depth(s), container.depth(root) + 1);
    assert!(container.is_empty(s));
    pool.release(&mut container, s);
}

#[test]
fn released_scope_is_unlocked() {
    let mut container: Container<Svc, Fac> = Container::new();
    let root = container.root();
    let mut pool = ScopePool::new(&mut container, root, 1);

    let s = pool.acquire(&mut container);
    container.lock(s);
    assert!(container.is_locked(s));
    pool.release(&mut container, s);

    let again = pool.acquire(&mut container);
    assert_eq!(again, s);
    assert!(!container.is_locked(again));
}

#[test]
fn release_leaves_other_scopes_alone() {
    let mut container: Container<Svc, Fac> = Container::new();
    let root = container.root();
    container.singleton(root, key::<TestService>(), svc(TestService { value: "kept".into() }));
    let mut pool = ScopePool::new(&mut container, root, 2);

    let a = pool.acquire(&mut container);
    let b = pool.acquire(&mut container);
    container.singleton(a, key::<RequestId>(), svc(RequestId(7)));
    container.singleton(b, key::<RequestId>(), svc(RequestId(8)));

    pool.release(&mut container, a);
    assert!(!container.contains(a, &key::<RequestId>()));
    assert_eq!(get::<RequestId>(&container, b).unwrap().0, 8);
    assert_eq!(get::<TestService>(&container, root).unwrap().value, "kept");
    pool.release(&mut container, b);
}
