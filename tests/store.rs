use sparse_ecs::{Component, EntityStore};

#[derive(Debug, PartialEq, Eq, Clone)]
struct TestComponent {
    value: i32,
}

impl Component for TestComponent {}

#[derive(Debug, PartialEq, Eq, Clone)]
struct Position {
    x: i64,
    y: i64,
}

impl Component for Position {}

#[derive(Debug, PartialEq, Eq, Clone)]
struct Tag;

impl Component for Tag {}

#[test]
fn new_component_in_store() {
    let mut store = EntityStore::new();
    store.new_component::<TestComponent>();
    assert!(store.get::<TestComponent>().is_some());
}

#[test]
fn add_component_in_store() {
    let mut store = EntityStore::new();
    store.new_component::<TestComponent>();
    let component = TestComponent { value: 42 };
    store.add_component(0, component.clone());
    let pool = store.get::<TestComponent>().unwrap();
    assert_eq!(pool.component_list().len(), 1);
    assert_eq!(pool.component_list()[0], component);
}

#[test]
fn reserve_up_to_in_store_with_no_components() {
    let mut store = EntityStore::new();
    store.reserve_up_to(5);
    assert_eq!(store.max_entity(), 5);
}

#[test]
fn add_component_in_store_with_no_component_type() {
    let mut store = EntityStore::new();
    let component = TestComponent { value: 42 };
    store.add_component(0, component.clone());
    assert!(store.get::<TestComponent>().is_none());
}

#[test]
fn get_non_existent_component_in_store() {
    let store = EntityStore::new();
    let result = store.get::<TestComponent>();
    assert!(result.is_none());
}

#[test]
fn remove_component_from_non_existent_entity_in_store() {
    let mut store = EntityStore::new();
    store.new_component::<TestComponent>();
    let id = 3;
    if let Some(pool) = store.get_mut::<TestComponent>() {
        pool.remove(id);
    }
    let pool = store.get::<TestComponent>().unwrap();
    assert_eq!(pool.entity_list().len(), 0);
    assert_eq!(pool.component_list().len(), 0);
    assert!(pool.entity_indices().get(id).is_none());
}

#[test]
fn remove_entity_reaches_every_registered_type() {
    let mut store = EntityStore::new();
    store.new_component::<TestComponent>();
    store.new_component::<Position>();
    store.add_component(5, TestComponent { value: 1 });
    store.add_component(5, Position { x: 2, y: 3 });
    store.add_component(6, Position { x: 4, y: 5 });
    assert!(store.has_component::<TestComponent>(5));
    assert!(store.has_component::<Position>(5));
    assert!(store.remove_entity(5));
    assert!(!store.has_component::<TestComponent>(5));
    assert!(!store.has_component::<Position>(5));
    assert!(store.has_component::<Position>(6));
    assert_eq!(store.components::<Position>().unwrap().len(), 1);
}

#[test]
fn writes_for_an_unregistered_type_are_dropped() {
    let mut store = EntityStore::new();
    store.new_component::<TestComponent>();
    store.add_component(2, TestComponent { value: 9 });
    store.add_component(5, Tag);
    store.remove_component::<Tag>(2);
    assert!(store.get::<Tag>().is_none());
    assert!(!store.has_component::<Tag>(5));
    assert!(store.entities::<Tag>().is_none());
    assert!(store.components::<Tag>().is_none());
    assert!(store.components_mut::<Tag>().is_none());
    assert_eq!(store.components_iter::<Tag>().count(), 0);
    assert_eq!(store.max_entity(), 0);
    let pool = store.get::<TestComponent>().unwrap();
    assert_eq!(pool.entity_list(), &vec![2]);
}

#[test]
fn new_pools_start_at_the_high_water_mark() {
    let mut store = EntityStore::new();
    store.new_component::<TestComponent>();
    store.reserve_up_to(7);
    store.reserve_up_to(3);
    assert_eq!(store.max_entity(), 7);
    store.new_component::<Position>();
    assert_eq!(store.get::<Position>().unwrap().entity_indices().len(), 8);
    // pools registered earlier grow only when a handle is used in them
    assert_eq!(store.get::<TestComponent>().unwrap().entity_indices().len(), 1);
    store.add_component(4, TestComponent { value: 4 });
    assert_eq!(store.get::<TestComponent>().unwrap().entity_indices().len(), 5);
}

#[test]
fn registering_a_type_again_starts_it_afresh() {
    let mut store = EntityStore::new();
    store.new_component::<TestComponent>();
    store.add_component(1, TestComponent { value: 1 });
    store.new_component::<TestComponent>();
    assert_eq!(store.get::<TestComponent>().unwrap().entity_list().len(), 0);
    store.add_component(1, TestComponent { value: 2 });
    assert!(store.remove_entity(1));
    assert!(!store.has_component::<TestComponent>(1));
}

#[test]
fn store_forwards_reads_and_writes() {
    let mut store = EntityStore::new();
    store.new_component::<Position>();
    store.add_component(3, Position { x: 1, y: 1 });
    store.add_component(1, Position { x: 2, y: 2 });
    store.remove_component::<Position>(3);
    let ids: Vec<usize> = store.entities::<Position>().unwrap().into_iter().copied().collect();
    assert_eq!(ids, vec![1]);
    if let Some(mut pairs) = store.components_mut::<Position>() {
        assert_eq!(*pairs[0].0, 1);
        pairs[0].1.x = 9;
    }
    let pairs: Vec<(usize, i64)> = store.components_iter::<Position>().map(|(h, p)| (*h, p.x)).collect();
    assert_eq!(pairs, vec![(1, 9)]);
    assert_eq!(store.get_mut::<Position>().unwrap().get(1), Some(&Position { x: 9, y: 2 }));
    for (_, p) in store.components_iter_mut::<Position>() {
        p.y = 7;
    }
    assert_eq!(store.get::<Position>().unwrap().get(1), Some(&Position { x: 9, y: 7 }));
    assert_eq!(store.components_iter_mut::<Tag>().count(), 0);
}

#[test]
fn remove_entity_without_components_changes_nothing() {
    let mut store = EntityStore::new();
    store.new_component::<TestComponent>();
    store.new_component::<Position>();
    store.add_component(2, TestComponent { value: 3 });
    assert!(store.remove_entity(7));
    assert_eq!(store.get::<TestComponent>().unwrap().entity_list(), &vec![2]);
    assert_eq!(store.get::<Position>().unwrap().entity_list().len(), 0);
    let mut empty = EntityStore::new();
    assert!(empty.remove_entity(0));
}
