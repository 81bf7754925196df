use recstore::codec::{unmarshall, Record};
use recstore::storage::StorageManager;
use recstore::types::{FieldName, PageId, TableName};

fn record(pairs: &[(&str, &str)]) -> Record {
    let mut data = Record::new();
    for (field, value) in pairs {
        data.set(FieldName(field.to_string()), value.to_string());
    }
    data
}

#[test]
fn insert() {
    let data = record(&[("foo", "1234"), ("bar", "the value")]);
    let table_name = TableName("the_table".to_string());

    let mut s = StorageManager::new();

    let id = s.insert_data(table_name, data).unwrap();

    let p = s.read(id).unwrap();
    let read_data: Record = unmarshall(&p.data).unwrap();
    assert_eq!(read_data, record(&[("foo", "1234"), ("bar", "the value")]));
}

#[test]
fn update() {
    let data = record(&[("foo", "1234"), ("bar", "the value")]);
    let table_name = TableName("the_table".to_string());

    let mut s = StorageManager::new();
    let id = s.insert_data(table_name, data).unwrap();

    s.update_data(id, record(&[("fooooo", "1234"), ("barooo", "the value")]))
        .unwrap();

    let p = s.read(id).unwrap();
    let read_data: Record = unmarshall(&p.data).unwrap();
    assert_eq!(read_data, record(&[("fooooo", "1234"), ("barooo", "the value")]));
}

#[test]
fn update_leaves_other_pages_alone() {
    let mut s = StorageManager::new();
    let id0 = s
        .insert_data(TableName("t".to_string()), record(&[("a", "1")]))
        .unwrap();
    let id1 = s
        .insert_data(TableName("t".to_string()), record(&[("b", "2")]))
        .unwrap();
    assert_eq!(id0, PageId(0));
    assert_eq!(id1, PageId(1));

    s.update_data(id0, record(&[("a", "changed")])).unwrap();

    let p1 = s.read(id1).unwrap();
    assert_eq!(unmarshall(&p1.data).unwrap(), record(&[("b", "2")]));
    let p0 = s.read(id0).unwrap();
    assert_eq!(unmarshall(&p0.data).unwrap(), record(&[("a", "changed")]));

    assert!(s.read(PageId(2)).is_none());
    assert!(s.update_data(PageId(2), record(&[("c", "3")])).is_err());
}

#[test]
fn table_sets_grow_and_stay_disjoint() {
    let mut s = StorageManager::new();
    let id0 = s
        .insert_data(TableName("first".to_string()), record(&[("a", "1")]))
        .unwrap();
    let id1 = s
        .insert_data(TableName("first".to_string()), record(&[("a", "2")]))
        .unwrap();
    let other = s
        .insert_data(TableName("second".to_string()), record(&[("a", "3")]))
        .unwrap();

    let first_pages = s.table_pages(&TableName("first".to_string()));
    assert_eq!(first_pages, vec![id0, id1]);

    let second_pages = s.table_pages(&TableName("second".to_string()));
    assert_eq!(second_pages, vec![other]);
    assert!(!second_pages.contains(&id0));
    assert!(!second_pages.contains(&id1));

    assert_eq!(s.table_pages(&TableName("unknown".to_string())), vec![]);
}
