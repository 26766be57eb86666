use quickwit_splits::registry::HandleRegistry;

#[test]
fn test_handle_generation() {
    let mut registry: HandleRegistry<u32> = HandleRegistry::new();
    let handle1 = registry.generate_handle();
    let handle2 = registry.generate_handle();
    assert_ne!(handle1, handle2);
    assert!(handle1 > 0);
    assert!(handle2 > 0);
}

#[test]
fn test_generator_registry() {
    let mut registry: HandleRegistry<u32> = HandleRegistry::new();
    let handle = registry.generate_handle();
    assert!(handle > 0);
}

#[test]
fn test_handles_strictly_increasing() {
    let mut registry: HandleRegistry<u32> = HandleRegistry::new();
    let mut previous: u64 = 0;
    for _ in 0..10 {
        let h = registry.generate_handle();
        assert!(h > 0);
        assert!(h > previous);
        previous = h;
    }
}

#[test]
fn test_registry_lifecycle() {
    let mut registry: HandleRegistry<String> = HandleRegistry::new();
    let handle = registry.register(String::from("an object"));
    assert!(handle > 0);
    assert_eq!(registry.get(handle), Some(&String::from("an object")));
    assert!(registry.unregister(handle));
    assert!(registry.get(handle).is_none());
    assert!(!registry.unregister(handle));
}

#[test]
fn test_registry_handles_not_reused() {
    let mut registry: HandleRegistry<u32> = HandleRegistry::new();
    let h1 = registry.register(11);
    assert!(registry.unregister(h1));
    let h2 = registry.register(22);
    assert_ne!(h1, h2);
    assert!(h2 > h1);
    assert!(registry.get(h1).is_none());
    assert_eq!(registry.get(h2), Some(&22));
}

#[test]
fn test_registry_two_objects() {
    let mut registry: HandleRegistry<u32> = HandleRegistry::new();
    let h1 = registry.register(1);
    let h2 = registry.register(2);
    assert_eq!(registry.get(h1), Some(&1));
    assert_eq!(registry.get(h2), Some(&2));
    assert!(registry.unregister(h1));
    assert_eq!(registry.get(h2), Some(&2));
    assert!(registry.get(h1).is_none());
}
