use ferex::scenario::SavedScenario;
use ferex::store::{sort_by_updated_desc, ScenarioStore};

fn scenario(id: &str, name: &str, data: &str, created: &str, updated: &str) -> SavedScenario {
    SavedScenario {
        id: id.to_string(),
        name: name.to_string(),
        data: data.to_string(),
        created_at: created.to_string(),
        updated_at: updated.to_string(),
    }
}

#[test]
fn round_trip_preserves_fields() {
    let mut store = ScenarioStore::new();
    store.save(scenario("s1", "my plan", "{\"x\":1}", "2024-01-01", "2024-01-02"));
    let rows = store.list();
    assert_eq!(rows.len(), 1);
    assert_eq!(rows[0].id, "s1");
    assert_eq!(rows[0].name, "my plan");
    assert_eq!(rows[0].data, "{\"x\":1}");
    assert_eq!(rows[0].created_at, "2024-01-01");
    assert_eq!(rows[0].updated_at, "2024-01-02");
}

#[test]
fn upsert_keeps_one_row_with_second_values() {
    let mut store = ScenarioStore::new();
    store.save(scenario("s1", "first", "a", "2024-01-01", "2024-01-01"));
    store.save(scenario("s1", "second", "b", "2024-01-01", "2024-02-01"));
    let rows = store.list();
    assert_eq!(rows.len(), 1);
    assert_eq!(rows[0].id, "s1");
    assert_eq!(rows[0].name, "second");
    assert_eq!(rows[0].data, "b");
    assert_eq!(rows[0].updated_at, "2024-02-01");
}

#[test]
fn delete_absent_id_is_noop() {
    let mut store = ScenarioStore::new();
    store.save(scenario("s1", "kept", "a", "2024-01-01", "2024-01-01"));
    store.delete(&"missing".to_string());
    let rows = store.list();
    assert_eq!(rows.len(), 1);
    assert_eq!(rows[0].id, "s1");
    assert_eq!(rows[0].name, "kept");
}

#[test]
fn delete_removes_the_row() {
    let mut store = ScenarioStore::new();
    store.save(scenario("s1", "gone", "a", "2024-01-01", "2024-01-01"));
    store.delete(&"s1".to_string());
    assert_eq!(store.list().len(), 0);
}

#[test]
fn delete_twice_leaves_store_as_one_delete() {
    let mut store = ScenarioStore::new();
    store.save(scenario("s1", "gone", "a", "2024-01-01", "2024-01-01"));
    store.save(scenario("s2", "kept", "b", "2024-01-01", "2024-01-01"));
    store.delete(&"s1".to_string());
    store.delete(&"s1".to_string());
    let rows = store.list();
    assert_eq!(rows.len(), 1);
    assert_eq!(rows[0].id, "s2");
}

#[test]
fn list_orders_by_updated_at_descending() {
    let mut store = ScenarioStore::new();
    store.save(scenario("a", "n1", "d1", "2024-01-01", "2024-01-01"));
    store.save(scenario("b", "n2", "d2", "2024-01-01", "2024-03-01"));
    store.save(scenario("c", "n3", "d3", "2024-01-01", "2024-02-01"));
    let rows = store.list();
    assert_eq!(rows.len(), 3);
    assert_eq!(rows[0].updated_at, "2024-03-01");
    assert_eq!(rows[1].updated_at, "2024-02-01");
    assert_eq!(rows[2].updated_at, "2024-01-01");
    assert_eq!(rows[0].id, "b");
    assert_eq!(rows[1].id, "c");
    assert_eq!(rows[2].id, "a");
}

#[test]
fn empty_store_lists_nothing() {
    let store = ScenarioStore::new();
    assert_eq!(store.list().len(), 0);
}

#[test]
fn empty_id_is_a_normal_key() {
    let mut store = ScenarioStore::new();
    store.save(scenario("", "unnamed key", "a", "2024-01-01", "2024-01-01"));
    let rows = store.list();
    assert_eq!(rows.len(), 1);
    assert_eq!(rows[0].id, "");
    store.delete(&String::new());
    assert_eq!(store.list().len(), 0);
}

#[test]
fn sort_reorders_an_arbitrary_vector() {
    let mut rows = vec![
        scenario("a", "n", "d", "2024-01-01", "2023-12-31"),
        scenario("b", "n", "d", "2024-01-01", "2024-06-15"),
        scenario("c", "n", "d", "2024-01-01", "2024-02-29"),
        scenario("d", "n", "d", "2024-01-01", "2024-06-15"),
    ];
    sort_by_updated_desc(&mut rows);
    assert_eq!(rows[0].updated_at, "2024-06-15");
    assert_eq!(rows[1].updated_at, "2024-06-15");
    assert_eq!(rows[2].updated_at, "2024-02-29");
    assert_eq!(rows[3].updated_at, "2023-12-31");
}
