use kavakava::codec::{export_bytes, import_bytes};
use kavakava::dispatch::{by_keys, by_values, delete, update};
use kavakava::store::Store;
use kavakava::text::{render_usize, trim};

fn filled(pairs: &[(&str, &str)]) -> Store {
    let mut store = Store::new();
    let mut args: Vec<String> = Vec::new();
    for (k, v) in pairs {
        args.push((*k).to_string());
        args.push((*v).to_string());
    }
    assert_eq!(update(&mut store, &args), "OK");
    store
}

#[test]
fn export_then_import_rebuilds_the_store() {
    let store = filled(&[("pear", "3"), ("apple", "1"), ("quince", "2")]);
    let bytes = export_bytes(&store, b',');
    let mut reloaded = Store::new();
    assert!(import_bytes(&mut reloaded, &bytes, b','));
    assert_eq!(reloaded.entries, store.entries);
}

#[test]
fn export_writes_sorted_crlf_records() {
    let store = filled(&[("b", "2"), ("a", "1")]);
    assert_eq!(export_bytes(&store, b','), b"a,1\r\nb,2\r\n".to_vec());
    assert_eq!(export_bytes(&store, b';'), b"a;1\r\nb;2\r\n".to_vec());
    assert_eq!(export_bytes(&Store::new(), b','), Vec::<u8>::new());
}

#[test]
fn import_merges_by_upsert() {
    let mut store = filled(&[("keep", "old"), ("swap", "old")]);
    assert!(import_bytes(&mut store, b"swap,new\r\nnew,1\r\n", b','));
    let keys = vec!["keep".to_string(), "swap".to_string(), "new".to_string()];
    assert_eq!(
        by_keys(&store, &keys),
        vec![
            ("keep".to_string(), "old".to_string()),
            ("swap".to_string(), "new".to_string()),
            ("new".to_string(), "1".to_string()),
        ]
    );
}

#[test]
fn import_skips_short_rows_and_ignores_extra_fields() {
    let mut store = Store::new();
    assert!(import_bytes(&mut store, b"lonely\r\na,1,extra,more\r\n\r\n", b','));
    assert_eq!(store.len(), 1);
    let keys = vec!["a".to_string()];
    assert_eq!(by_keys(&store, &keys), vec![("a".to_string(), "1".to_string())]);
}

#[test]
fn import_invalid_utf8_fails_but_keeps_prior_rows() {
    let mut store = Store::new();
    let mut bytes = b"a,1\r\n".to_vec();
    bytes.extend_from_slice(&[0xFF, 0xFE]);
    bytes.extend_from_slice(b",2\r\nb,3\r\n");
    assert!(!import_bytes(&mut store, &bytes, b','));
    assert_eq!(store.len(), 1);
    let keys = vec!["a".to_string(), "b".to_string()];
    assert_eq!(
        by_keys(&store, &keys),
        vec![
            ("a".to_string(), "1".to_string()),
            ("b".to_string(), "".to_string()),
        ]
    );
}

#[test]
fn import_of_empty_image_changes_nothing() {
    let mut store = filled(&[("a", "1")]);
    assert!(import_bytes(&mut store, b"", b','));
    assert_eq!(store.len(), 1);
}

#[test]
fn store_keeps_entries_sorted_by_key() {
    let store = filled(&[("mango", "1"), ("apple", "2"), ("kiwi", "3"), ("banana", "4")]);
    let keys: Vec<&str> = store.entries.iter().map(|e| e.0.as_str()).collect();
    assert_eq!(keys, vec!["apple", "banana", "kiwi", "mango"]);
}

#[test]
fn byvals_is_exactly_the_matching_subset() {
    let store = filled(&[("d", "x"), ("a", "y"), ("c", "x"), ("b", "z")]);
    let wanted = vec!["x".to_string(), "z".to_string()];
    assert_eq!(
        by_values(&store, &wanted),
        vec![
            ("b".to_string(), "z".to_string()),
            ("c".to_string(), "x".to_string()),
            ("d".to_string(), "x".to_string()),
        ]
    );
}

#[test]
fn delete_then_reinsert() {
    let mut store = filled(&[("a", "1"), ("b", "2")]);
    assert_eq!(delete(&mut store, &vec!["a".to_string()]), "OK");
    assert_eq!(store.len(), 1);
    assert_eq!(update(&mut store, &vec!["a".to_string(), "9".to_string()]), "OK");
    assert_eq!(store.len(), 2);
    assert_eq!(store.get("a"), Some(&"9".to_string()));
}

#[test]
fn trim_removes_whitespace_at_both_ends_only() {
    assert_eq!(trim("  spaced  out  "), "spaced  out");
    assert_eq!(trim("\t\r\nword\u{85}\u{2000}"), "word");
    assert_eq!(trim("   "), "");
    assert_eq!(trim(""), "");
    assert_eq!(trim("plain"), "plain");
}

#[test]
fn render_usize_is_plain_decimal() {
    assert_eq!(render_usize(0), "0");
    assert_eq!(render_usize(7), "7");
    assert_eq!(render_usize(10), "10");
    assert_eq!(render_usize(105), "105");
    assert_eq!(render_usize(98765), "98765");
}
