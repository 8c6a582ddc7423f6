use http_server::fields::Fields;

fn value<'a>(fields: &'a Fields, name: &[u8]) -> Option<&'a [u8]> {
    fields.get(name).map(|v| v.as_slice())
}

#[test]
fn a_new_map_is_empty() {
    let fields = Fields::new();
    assert!(fields.is_empty());
    assert_eq!(fields.len(), 0);
    assert_eq!(value(&fields, b"a"), None);
    assert!(!fields.contains_key(b"a"));
}

#[test]
fn insert_then_get() {
    let mut fields = Fields::new();
    fields.insert(b"Host".to_vec(), b"example.org".to_vec());
    fields.insert(b"Accept".to_vec(), b"*/*".to_vec());
    assert_eq!(fields.len(), 2);
    assert!(!fields.is_empty());
    assert_eq!(value(&fields, b"Host"), Some(&b"example.org"[..]));
    assert_eq!(value(&fields, b"Accept"), Some(&b"*/*"[..]));
    assert_eq!(value(&fields, b"Other"), None);
    assert!(fields.contains_key(b"Host"));
}

#[test]
fn the_last_value_entered_under_a_name_stays() {
    let mut fields = Fields::new();
    fields.insert(b"a".to_vec(), b"1".to_vec());
    fields.insert(b"b".to_vec(), b"2".to_vec());
    fields.insert(b"a".to_vec(), b"3".to_vec());
    assert_eq!(fields.len(), 2);
    assert_eq!(value(&fields, b"a"), Some(&b"3"[..]));
    assert_eq!(value(&fields, b"b"), Some(&b"2"[..]));
}

#[test]
fn a_replaced_name_keeps_its_place() {
    let mut fields = Fields::new();
    fields.insert(b"a".to_vec(), b"1".to_vec());
    fields.insert(b"b".to_vec(), b"2".to_vec());
    fields.insert(b"a".to_vec(), b"3".to_vec());
    assert_eq!(fields.entry(0).name, b"a".to_vec());
    assert_eq!(fields.entry(0).value, b"3".to_vec());
    assert_eq!(fields.entry(1).name, b"b".to_vec());
    assert_eq!(fields.entry(1).value, b"2".to_vec());
}

#[test]
fn names_are_case_sensitive() {
    let mut fields = Fields::new();
    fields.insert(b"Host".to_vec(), b"a".to_vec());
    fields.insert(b"host".to_vec(), b"b".to_vec());
    assert_eq!(fields.len(), 2);
    assert_eq!(value(&fields, b"Host"), Some(&b"a"[..]));
    assert_eq!(value(&fields, b"host"), Some(&b"b"[..]));
    assert_eq!(value(&fields, b"HOST"), None);
}

#[test]
fn the_empty_name_is_a_name() {
    let mut fields = Fields::new();
    fields.insert(Vec::new(), b"x".to_vec());
    assert_eq!(value(&fields, b""), Some(&b"x"[..]));
    assert_eq!(fields.len(), 1);
}

#[test]
fn a_clone_holds_the_same_entries() {
    let mut fields = Fields::new();
    fields.insert(b"a".to_vec(), b"1".to_vec());
    fields.insert(b"b".to_vec(), b"2".to_vec());
    let copy = fields.clone();
    fields.insert(b"a".to_vec(), b"9".to_vec());
    assert_eq!(copy.len(), 2);
    assert_eq!(value(&copy, b"a"), Some(&b"1"[..]));
    assert_eq!(value(&copy, b"b"), Some(&b"2"[..]));
    assert_eq!(value(&fields, b"a"), Some(&b"9"[..]));
}
