use variadb::Disk;

fn fresh() -> Disk {
    Disk::new(&[]).unwrap()
}

/// The stored bytes of a text value: its variant tag, then the string.
fn text(s: &str) -> Vec<u8> {
    let mut b = vec![0u8];
    b.extend(postcard::to_allocvec(&s.to_string()).unwrap());
    b
}

#[test]
fn disk_test_test_put_and_get() {
    let mut disk = fresh();
    let key = "test_key".to_string();
    let value = text("test_value");
    disk.put(&key, value.clone()).unwrap();
    let result = disk.get(&key).unwrap();
    assert_eq!(result, Some(value));
}

#[test]
fn disk_test_test_put_and_delete() {
    let mut disk = fresh();
    let key = "test_key".to_string();
    let value = text("test_value");
    disk.put(&key, value.clone()).unwrap();
    let result = disk.get(&key).unwrap();
    assert_eq!(result, Some(value));
    disk.del(&key).unwrap();
    let result = disk.get(&key).unwrap();
    assert_eq!(result, None);
}

#[test]
fn disk_test_test_put_and_update() {
    let mut disk = fresh();
    let key = "test_key".to_string();
    let value = text("test_value");
    disk.put(&key, value.clone()).unwrap();
    let result = disk.get(&key).unwrap();
    assert_eq!(result, Some(value));
    let value = text("test_value_2");
    disk.put(&key, value.clone()).unwrap();
    let result = disk.get(&key).unwrap();
    assert_eq!(result, Some(value));
}

#[test]
fn disk_test_test_empty_key_and_value_1() {
    let mut disk = fresh();
    let key = "".to_string();
    let value = text("");
    disk.put(&key, value.clone()).unwrap();
    let result = disk.get(&key).unwrap();
    assert_eq!(result, Some(value));
}

#[test]
fn disk_test_test_empty_key_and_value_2() {
    let mut disk = fresh();
    let key = "".to_string();
    let value = text("");
    disk.put(&key, value.clone()).unwrap();
    let result = disk.get(&key).unwrap();
    assert_eq!(result, Some(value));
    let value = text("test_value");
    disk.put(&key, value.clone()).unwrap();
    let result = disk.get(&key).unwrap();
    assert_eq!(result, Some(value));
}

#[test]
fn disk_test_test_very_large_value_1() {
    let mut disk = fresh();
    let key = "test_key".to_string();
    let value = text(&"test_value".repeat(100000));
    disk.put(&key, value.clone()).unwrap();
    let result = disk.get(&key).unwrap();
    assert_eq!(result, Some(value));
}

#[test]
fn disk_test_test_very_large_value_2() {
    let mut disk = fresh();
    let key = "test_key".to_string();
    let value = text(&"test_value".repeat(100000));
    disk.put(&key, value.clone()).unwrap();
    let result = disk.get(&key).unwrap();
    assert_eq!(result, Some(value));
    let value = text(&"test_value_2".repeat(100000));
    disk.put(&key, value.clone()).unwrap();
    let result = disk.get(&key).unwrap();
    assert_eq!(result, Some(value));
}

#[test]
fn disk_test_test_very_large_key_1() {
    let mut disk = fresh();
    let key = "test_key".repeat(100000);
    let value = text("test_value");
    disk.put(&key, value.clone()).unwrap();
    let result = disk.get(&key).unwrap();
    assert_eq!(result, Some(value));
}

#[test]
fn disk_test_test_very_large_key_2() {
    let mut disk = fresh();
    let key = "test_key".repeat(100000);
    let value = text("test_value");
    disk.put(&key, value.clone()).unwrap();
    let result = disk.get(&key).unwrap();
    assert_eq!(result, Some(value));
    let value = text("test_value_2");
    disk.put(&key, value.clone()).unwrap();
    let result = disk.get(&key).unwrap();
    assert_eq!(result, Some(value));
}

#[test]
fn disk_test_test_gapping() {
    let mut disk = fresh();
    let key = "test_key".to_string();
    let value = text("test_value");
    disk.put(&key, value.clone()).unwrap();
    let result = disk.get(&key).unwrap();
    assert_eq!(result, Some(value));
    disk.del(&key).unwrap();
    let result = disk.get(&key).unwrap();
    assert_eq!(result, None);
    let key = "test_key_2".to_string();
    let value = text("test_value_2");
    disk.put(&key, value.clone()).unwrap();
    let result = disk.get(&key).unwrap();
    assert_eq!(result, Some(value));
}

#[test]
fn disk_test_test_gapping_very_large_values() {
    let mut disk = fresh();
    let key = "test_key".to_string();
    let value = text(&"test_value".repeat(100000));
    disk.put(&key, value.clone()).unwrap();
    let result = disk.get(&key).unwrap();
    assert_eq!(result, Some(value));
    disk.del(&key).unwrap();
    let result = disk.get(&key).unwrap();
    assert_eq!(result, None);
    let key = "test_key_2".to_string();
    let value = text(&"test_value_2".repeat(100000));
    disk.put(&key, value.clone()).unwrap();
    let result = disk.get(&key).unwrap();
    assert_eq!(result, Some(value));
}

#[test]
fn disk_test_test_gapping_very_small_values() {
    let mut disk = fresh();
    let key = "test_key".to_string();
    let value = text(&"test_value".repeat(10));
    disk.put(&key, value.clone()).unwrap();
    let result = disk.get(&key).unwrap();
    assert_eq!(result, Some(value));
    disk.del(&key).unwrap();
    let result = disk.get(&key).unwrap();
    assert_eq!(result, None);
    let key = "test_key_2".to_string();
    let value = text(&"test_value_2".repeat(10));
    disk.put(&key, value.clone()).unwrap();
    let result = disk.get(&key).unwrap();
    assert_eq!(result, Some(value));
}

#[test]
fn disk_test_test_list_small_keys() {
    let mut disk = fresh();
    let key = "test_key".to_string();
    let value = text("test_value");
    disk.put(&key, value.clone()).unwrap();
    let result = disk.list().unwrap();
    assert_eq!(result, vec![key.clone()]);
}

#[test]
fn disk_test_test_list_large_keys() {
    let mut disk = fresh();
    let key = "test_key".repeat(100000);
    let value = text("test_value");
    disk.put(&key, value.clone()).unwrap();
    let result = disk.list().unwrap();
    assert_eq!(result, vec![key.clone()]);
}

#[test]
fn disk_test_test_list_gapping() {
    let mut disk = fresh();
    let key = "test_key".to_string();
    let value = text("test_value");
    disk.put(&key, value.clone()).unwrap();
    disk.del(&key).unwrap();
    let key = "test_key_2".to_string();
    let value = text("test_value_2");
    disk.put(&key, value.clone()).unwrap();
    let result = disk.list().unwrap();
    assert_eq!(result, vec![key.clone()]);
}

#[test]
fn disk_test_test_list_gapping_very_large_values() {
    let mut disk = fresh();
    let key = "test_key".to_string();
    let value = text(&"test_value".repeat(100000));
    disk.put(&key, value.clone()).unwrap();
    disk.del(&key).unwrap();
    let key = "test_key_2".to_string();
    let value = text(&"test_value_2".repeat(100000));
    disk.put(&key, value.clone()).unwrap();
    let result = disk.list().unwrap();
    assert_eq!(result, vec![key.clone()]);
}

#[test]
fn disk_test_test_clear() {
    let mut disk = fresh();
    let key = "test_key".to_string();
    let value = text("test_value");
    disk.put(&key, value.clone()).unwrap();
    disk.clear();
    let result = disk.get(&key).unwrap();
    assert_eq!(result, None);
}

#[test]
fn disk_test_test_clear_gapping() {
    let mut disk = fresh();
    let key = "test_key".to_string();
    let value = text("test_value");
    disk.put(&key, value.clone()).unwrap();
    disk.del(&key).unwrap();
    let key = "test_key_2".to_string();
    let value = text("test_value_2");
    disk.put(&key, value.clone()).unwrap();
    disk.clear();
    let result = disk.get(&key).unwrap();
    assert_eq!(result, None);
}

#[test]
fn disk_test_test_len() {
    let mut disk = fresh();
    let key = "test_key".to_string();
    let value = text("test_value");
    assert_eq!(disk.len(), 0);
    disk.put(&key, value.clone()).unwrap();
    assert_eq!(disk.len(), 1);
    disk.del(&key).unwrap();
    assert_eq!(disk.len(), 0);
}

#[test]
fn disk_test_test_is_empty() {
    let mut disk = fresh();
    assert_eq!(disk.is_empty(), true);
    let key = "test_key".to_string();
    let value = text("test_value");
    disk.put(&key, value.clone()).unwrap();
    assert_eq!(disk.is_empty(), false);
    disk.del(&key).unwrap();
    assert_eq!(disk.is_empty(), true);
}

#[test]
fn disk_test_test_defrag() {
    let mut disk = fresh();
    let key = "test_key".to_string();
    let value = text(&"test_value".repeat(100000));
    disk.put(&key, value.clone()).unwrap();
    disk.del(&key).unwrap();
    let key = "test_key_2".to_string();
    let value = text(&"test_value_2".repeat(100000));
    disk.put(&key, value.clone()).unwrap();
    disk.defrag();
    let result = disk.list().unwrap();
    assert_eq!(result, vec![key.clone()]);
}
