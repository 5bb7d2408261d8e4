use dependency_injector::storage::{Factory, ServiceStorage};
use std::any::{Any, TypeId};
use std::sync::Arc;

type Svc = Arc<dyn Any + Send + Sync>;
type Fac = Box<dyn Fn() -> Svc + Send + Sync>;

#[derive(Clone)]
struct TestService {
    value: i32,
}

fn value_of(f: &Factory<Svc, Fac>) -> i32 {
    let s = f.instance().expect("singleton instance").clone();
    s.downcast::<TestService>().ok().expect("a TestService").value
}

#[test]
fn test_storage_insert_and_get() {
    let mut storage: ServiceStorage<Svc, Fac> = ServiceStorage::new();
    let type_id = TypeId::of::<TestService>();

    storage.insert(type_id, Factory::singleton(Arc::new(TestService { value: 42 })));

    let service = storage.get(&type_id).unwrap();
    assert_eq!(value_of(service), 42);
}

#[test]
fn test_storage_contains() {
    let mut storage: ServiceStorage<Svc, Fac> = ServiceStorage::new();
    let type_id = TypeId::of::<TestService>();

    assert!(!storage.contains(&type_id));

    storage.insert(type_id, Factory::singleton(Arc::new(TestService { value: 0 })));

    assert!(storage.contains(&type_id));
}

#[test]
fn test_storage_remove() {
    let mut storage: ServiceStorage<Svc, Fac> = ServiceStorage::new();
    let type_id = TypeId::of::<TestService>();

    storage.insert(type_id, Factory::singleton(Arc::new(TestService { value: 0 })));
    assert!(storage.contains(&type_id));

    storage.remove(&type_id);
    assert!(!storage.contains(&type_id));
}

#[test]
fn insert_replaces_and_stamps_generation() {
    let mut storage: ServiceStorage<Svc, Fac> = ServiceStorage::with_capacity(4);
    let type_id = TypeId::of::<TestService>();
    let g0 = storage.generation();
    storage.insert(type_id, Factory::singleton(Arc::new(TestService { value: 1 })));
    let g1 = storage.generation();
    assert_ne!(g0, g1);
    storage.insert(type_id, Factory::singleton(Arc::new(TestService { value: 2 })));
    assert_ne!(storage.generation(), g1);
    assert_eq!(storage.len(), 1);
    assert_eq!(value_of(storage.get(&type_id).unwrap()), 2);

    // Removing nothing leaves the generation alone.
    let g2 = storage.generation();
    assert!(!storage.remove(&TypeId::of::<u8>()));
    assert_eq!(storage.generation(), g2);
}

#[test]
fn clear_keeps_parent_and_empties() {
    let mut storage: ServiceStorage<Svc, Fac> = ServiceStorage::with_parent(3);
    assert!(storage.has_parent());
    assert_eq!(storage.parent(), Some(3));
    storage.insert(TypeId::of::<u8>(), Factory::singleton(Arc::new(1u8)));
    storage.insert(TypeId::of::<u16>(), Factory::transient(Box::new(|| Arc::new(2u16) as Svc)));
    assert_eq!(storage.len(), 2);
    assert!(storage.is_transient(&TypeId::of::<u16>()));
    assert!(!storage.is_transient(&TypeId::of::<u8>()));
    assert!(!storage.is_transient(&TypeId::of::<u32>()));
    let ids = storage.type_ids();
    assert_eq!(ids, vec![TypeId::of::<u8>(), TypeId::of::<u16>()]);
    storage.clear();
    assert!(storage.is_empty());
    assert_eq!(storage.parent(), Some(3));
}

#[test]
fn transient_flag_and_fill_lazy() {
    let mut storage: ServiceStorage<Svc, Fac> = ServiceStorage::new();
    let k = TypeId::of::<TestService>();
    storage.insert(k, Factory::lazy(Box::new(|| Arc::new(TestService { value: 5 }) as Svc)));
    let (f, transient) = storage.get_with_transient_flag(&k).unwrap();
    assert!(!transient);
    assert!(f.instance().is_none());
    let made = (f.pending_factory().unwrap())();
    let g = storage.generation();
    storage.fill_lazy(&k, made);
    assert_eq!(storage.generation(), g);
    let f = storage.get(&k).unwrap();
    assert!(f.pending_factory().is_none());
    assert_eq!(value_of(f), 5);
    assert!(storage.get_with_transient_flag(&TypeId::of::<u8>()).is_none());
}
