use sparse_ecs::{Component, Pool};

#[derive(Debug, PartialEq, Eq, Clone)]
struct TestComponent {
    value: i32,
}

impl Component for TestComponent {}

#[test]
fn new_pool() {
    let pool: Pool<TestComponent> = Pool::new();
    assert_eq!(pool.entity_indices().len(), 0);
    assert_eq!(pool.entity_list().len(), 0);
    assert_eq!(pool.component_list().len(), 0);
}

#[test]
fn new_entity() {
    let mut pool: Pool<TestComponent> = Pool::new();
    let id = pool.new_entity();
    assert_eq!(id, 0);
}

#[test]
fn add_component() {
    let mut pool: Pool<TestComponent> = Pool::new();
    let id = pool.new_entity();
    let component = TestComponent { value: 42 };
    pool.add_component(id, component.clone());
    assert_eq!(pool.entity_list().len(), 1);
    assert_eq!(pool.component_list().len(), 1);
    assert_eq!(pool.component_list()[0], component);
}

#[test]
fn remove_component() {
    let mut pool: Pool<TestComponent> = Pool::new();
    let id = pool.new_entity();
    let component = TestComponent { value: 42 };
    pool.add_component(id, component.clone());
    assert_eq!(pool.entity_list().len(), 1);
    assert_eq!(pool.component_list().len(), 1);
    pool.remove(id);
    assert_eq!(pool.entity_list().len(), 0);
    assert_eq!(pool.component_list().len(), 0);
}

#[test]
fn reserve_up_to() {
    let mut pool: Pool<TestComponent> = Pool::new();
    pool.reserve_up_to(5);
    assert_eq!(pool.entity_indices().len(), 6);
    assert!(pool.entity_indices().iter().all(|&x| x == None));
}

#[test]
fn add_component_non_existent_entity() {
    let mut pool: Pool<TestComponent> = Pool::new();
    let component = TestComponent { value: 42 };
    pool.add_component(3, component.clone());
    assert_eq!(pool.entity_list().len(), 1);
    assert_eq!(pool.component_list().len(), 1);
    assert_eq!(pool.component_list()[0], component);
    assert_eq!(pool.entity_indices().len(), 4);
}

#[test]
fn remove_non_existent_entity() {
    let mut pool: Pool<TestComponent> = Pool::new();
    pool.remove(3);
    assert_eq!(pool.entity_list().len(), 0);
    assert_eq!(pool.component_list().len(), 0);
    assert_eq!(pool.entity_indices().len(), 0);
}

#[test]
fn add_multiple_components_to_same_entity() {
    let mut pool: Pool<TestComponent> = Pool::new();
    let id = pool.new_entity();
    let component1 = TestComponent { value: 42 };
    let component2 = TestComponent { value: 100 };
    pool.add_component(id, component1.clone());
    pool.add_component(id, component2.clone());
    assert_eq!(pool.entity_list().len(), 1);
    assert_eq!(pool.component_list().len(), 1);
    assert_eq!(pool.component_list()[0], component2);
}

#[test]
fn remove_entity_with_no_component() {
    let mut pool: Pool<TestComponent> = Pool::new();
    let id = pool.new_entity();
    pool.remove(id);
    assert_eq!(pool.entity_list().len(), 0);
    assert_eq!(pool.component_list().len(), 0);
    assert_eq!(pool.entity_indices()[id], None);
}

#[test]
fn add_components_in_non_sequential_order() {
    let mut pool: Pool<TestComponent> = Pool::new();
    let component = TestComponent { value: 42 };
    pool.add_component(3, component.clone());
    assert_eq!(pool.entity_list().len(), 1);
    assert_eq!(pool.component_list().len(), 1);
    assert_eq!(pool.component_list()[0], component);
    assert_eq!(pool.entity_indices()[3].unwrap(), 0);
}

fn tc(value: i32) -> TestComponent {
    TestComponent { value }
}

/// Checks the sparse and dense layers against each other.
fn consistent(pool: &Pool<TestComponent>) -> bool {
    let sparse = pool.entity_indices();
    let dense = pool.entity_list();
    if dense.len() != pool.component_list().len() {
        return false;
    }
    for (i, &h) in dense.iter().enumerate() {
        if h >= sparse.len() || sparse[h] != Some(i) {
            return false;
        }
    }
    for (h, slot) in sparse.iter().enumerate() {
        if let Some(i) = *slot {
            if i >= dense.len() || dense[i] != h {
                return false;
            }
        }
    }
    true
}

#[test]
fn layers_stay_consistent_over_mixed_operations() {
    let mut pool: Pool<TestComponent> = Pool::new();
    pool.add_component(4, tc(1));
    assert!(consistent(&pool));
    let e = pool.new_entity();
    assert_eq!(e, 5);
    pool.add_component(e, tc(2));
    pool.add_component(0, tc(3));
    assert!(consistent(&pool));
    pool.remove(4);
    assert!(consistent(&pool));
    pool.reserve_up_to(9);
    pool.add_component(4, tc(5));
    pool.remove(0);
    pool.remove(7);
    assert!(consistent(&pool));
    assert_eq!(pool.entity_indices().len(), 10);
    assert_eq!(pool.len(), 2);
    assert_eq!(pool.get(5), Some(&tc(2)));
    assert_eq!(pool.get(4), Some(&tc(5)));
    assert_eq!(pool.get(0), None);
}

#[test]
fn removing_an_absent_handle_changes_nothing() {
    let mut pool: Pool<TestComponent> = Pool::new();
    pool.add_component(1, tc(10));
    pool.reserve_up_to(4);
    pool.remove(3);
    pool.remove(50);
    assert_eq!(pool.entity_list(), &vec![1]);
    assert_eq!(pool.component_list(), &vec![tc(10)]);
    assert_eq!(pool.entity_indices().len(), 5);
}

#[test]
fn second_add_overwrites_in_place() {
    let mut pool: Pool<TestComponent> = Pool::new();
    pool.add_component(2, tc(7));
    pool.add_component(5, tc(8));
    pool.add_component(2, tc(9));
    assert_eq!(pool.entity_list(), &vec![2, 5]);
    assert_eq!(pool.component_list(), &vec![tc(9), tc(8)]);
    assert_eq!(pool.get(2), Some(&tc(9)));
}

#[test]
fn swap_remove_moves_last_entry_into_the_gap() {
    let mut pool: Pool<TestComponent> = Pool::new();
    pool.add_component(1, tc(10));
    pool.add_component(2, tc(20));
    pool.add_component(3, tc(30));
    pool.remove(2);
    assert_eq!(pool.len(), 2);
    let pairs: Vec<(usize, i32)> = pool.components().iter().map(|(h, c)| (**h, c.value)).collect();
    assert!(pairs.contains(&(1, 10)));
    assert!(pairs.contains(&(3, 30)));
    let slot_of_3 = pool.entity_indices()[3].unwrap();
    assert_eq!(pool.entity_list()[slot_of_3], 3);
    assert_eq!(pool.component_list()[slot_of_3], tc(30));
    assert_eq!(pool.entity_indices()[2], None);
    assert!(!pool.has_component(2));
    assert!(pool.has_component(3));
}

#[test]
fn removing_the_last_entry_truncates() {
    let mut pool: Pool<TestComponent> = Pool::new();
    pool.add_component(1, tc(10));
    pool.add_component(2, tc(20));
    pool.remove(2);
    assert_eq!(pool.entity_list(), &vec![1]);
    assert_eq!(pool.entity_indices()[1], Some(0));
    assert_eq!(pool.entity_indices()[2], None);
}

#[test]
fn reserve_never_shrinks() {
    let mut pool: Pool<TestComponent> = Pool::new();
    pool.reserve_up_to(3);
    pool.reserve_up_to(1);
    assert!(pool.entity_indices().len() >= 4);
    assert_eq!(pool.entity_indices().len(), 4);
}

#[test]
fn lookups_of_unknown_handles_are_absent() {
    let mut pool: Pool<TestComponent> = Pool::new();
    assert_eq!(pool.get(0), None);
    assert!(pool.get_mut(100).is_none());
    assert!(!pool.has_component(100));
    pool.new_entity();
    assert!(!pool.has_component(0));
    pool.add_component(0, tc(4));
    assert!(pool.has_component(0));
    assert_eq!(pool.get_mut(0), Some(&mut tc(4)));
    if let Some(c) = pool.get_mut(0) {
        c.value = 40;
    }
    assert_eq!(pool.get(0), Some(&tc(40)));
    assert_eq!(pool.entity_list(), &vec![0]);
}

#[test]
fn dense_views_pair_handles_with_components() {
    let mut pool: Pool<TestComponent> = Pool::new();
    pool.add_component(6, tc(60));
    pool.add_component(2, tc(20));
    let ids: Vec<usize> = pool.entities().into_iter().copied().collect();
    assert_eq!(ids, vec![6, 2]);
    let pairs: Vec<(usize, i32)> = pool.components_iter().map(|(h, c)| (*h, c.value)).collect();
    assert_eq!(pairs, vec![(6, 60), (2, 20)]);
    {
        let mut pairs = pool.components_mut();
        assert_eq!(pairs.len(), 2);
        assert_eq!(*pairs[0].0, 6);
        assert_eq!(*pairs[1].0, 2);
        pairs[1].1.value = 21;
    }
    assert_eq!(pool.get(2), Some(&tc(21)));
    assert_eq!(pool.entity_indices()[2], Some(1));
    for (h, c) in pool.components_iter_mut() {
        c.value += *h as i32;
    }
    assert_eq!(pool.component_list(), &vec![tc(66), tc(23)]);
    assert_eq!(pool.entity_list(), &vec![6, 2]);
}
