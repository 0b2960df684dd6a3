use bitcask_rs::db::Engine;
use bitcask_rs::options::{IteratorOptions, Options};
use bitcask_rs::rand_kv::get_test_value;

fn open_empty() -> Engine {
    Engine::open(Options::default(), Vec::new(), true).expect("failed to open engine")
}

#[test]
fn test_list_keys() {
    let mut engine = open_empty();

    let keys1 = engine.list_keys();
    assert_eq!(keys1.ok().unwrap().len(), 0);

    let put_res1 = engine.put("aacc".as_bytes().to_vec(), get_test_value(10));
    assert!(put_res1.is_ok());
    let put_res2 = engine.put("eecc".as_bytes().to_vec(), get_test_value(10));
    assert!(put_res2.is_ok());
    let put_res3 = engine.put("bbac".as_bytes().to_vec(), get_test_value(10));
    assert!(put_res3.is_ok());
    let put_res4 = engine.put("ccde".as_bytes().to_vec(), get_test_value(10));
    assert!(put_res4.is_ok());

    let keys2 = engine.list_keys();
    assert_eq!(keys2.ok().unwrap().len(), 4);
}

#[test]
fn test_fold() {
    let mut engine = open_empty();

    let put_res1 = engine.put("aacc".as_bytes().to_vec(), get_test_value(10));
    assert!(put_res1.is_ok());
    let put_res2 = engine.put("eecc".as_bytes().to_vec(), get_test_value(10));
    assert!(put_res2.is_ok());
    let put_res3 = engine.put("bbac".as_bytes().to_vec(), get_test_value(10));
    assert!(put_res3.is_ok());
    let put_res4 = engine.put("ccde".as_bytes().to_vec(), get_test_value(10));
    assert!(put_res4.is_ok());

    engine
        .fold(|key, value| {
            assert!(!key.is_empty());
            assert!(!value.is_empty());
            true
        })
        .unwrap();
}

#[test]
fn test_iterator_seek() {
    let mut engine = open_empty();

    // no data
    let mut iter1 = engine.iter(IteratorOptions::default());
    iter1.seek("aa".as_bytes().to_vec());
    assert!(iter1.next(&engine).is_none());

    // one entry
    let put_res1 = engine.put("aacc".as_bytes().to_vec(), get_test_value(10));
    assert!(put_res1.is_ok());
    let mut iter2 = engine.iter(IteratorOptions::default());
    iter2.seek("a".as_bytes().to_vec());
    assert!(iter2.next(&engine).is_some());

    // several entries
    let put_res2 = engine.put("eecc".as_bytes().to_vec(), get_test_value(10));
    assert!(put_res2.is_ok());
    let put_res3 = engine.put("bbac".as_bytes().to_vec(), get_test_value(10));
    assert!(put_res3.is_ok());
    let put_res4 = engine.put("ccde".as_bytes().to_vec(), get_test_value(10));
    assert!(put_res4.is_ok());

    let mut iter3 = engine.iter(IteratorOptions::default());
    iter3.seek("a".as_bytes().to_vec());
    assert_eq!("aacc".as_bytes().to_vec(), iter3.next(&engine).unwrap().0);
}

#[test]
fn test_iterator_next() {
    let mut engine = open_empty();

    // one entry
    let put_res1 = engine.put("eecc".as_bytes().to_vec(), get_test_value(10));
    assert!(put_res1.is_ok());
    let mut iter1 = engine.iter(IteratorOptions::default());
    assert!(iter1.next(&engine).is_some());
    iter1.rewind();
    assert!(iter1.next(&engine).is_some());
    assert!(iter1.next(&engine).is_none());

    // several entries
    let put_res2 = engine.put("aade".as_bytes().to_vec(), get_test_value(10));
    assert!(put_res2.is_ok());
    let put_res3 = engine.put("ddce".as_bytes().to_vec(), get_test_value(10));
    assert!(put_res3.is_ok());
    let put_res4 = engine.put("bbcc".as_bytes().to_vec(), get_test_value(10));
    assert!(put_res4.is_ok());

    let mut iter_opts1 = IteratorOptions::default();
    iter_opts1.reverse = true;
    let mut iter2 = engine.iter(iter_opts1);
    let mut seen = Vec::new();
    while let Some(item) = iter2.next(&engine) {
        assert!(!item.0.is_empty());
        seen.push(item.0);
    }
    assert_eq!(seen.len(), 4);
    assert_eq!(seen[0], "eecc".as_bytes().to_vec());
    assert_eq!(seen[3], "aade".as_bytes().to_vec());
}

#[test]
fn test_iterator_prefix() {
    let mut engine = open_empty();

    let put_res1 = engine.put("eecc".as_bytes().to_vec(), get_test_value(10));
    assert!(put_res1.is_ok());
    let put_res2 = engine.put("aade".as_bytes().to_vec(), get_test_value(10));
    assert!(put_res2.is_ok());
    let put_res3 = engine.put("ddce".as_bytes().to_vec(), get_test_value(10));
    assert!(put_res3.is_ok());
    let put_res4 = engine.put("bbcc".as_bytes().to_vec(), get_test_value(10));
    assert!(put_res4.is_ok());
    let put_res5 = engine.put("ddaa".as_bytes().to_vec(), get_test_value(10));
    assert!(put_res5.is_ok());

    let mut iter_opt1 = IteratorOptions::default();
    iter_opt1.prefix = "dd".as_bytes().to_vec();
    let mut iter1 = engine.iter(iter_opt1);
    let mut seen = Vec::new();
    while let Some(item) = iter1.next(&engine) {
        assert!(!item.0.is_empty());
        seen.push(item.0);
    }
    assert_eq!(seen.len(), 2);
    assert_eq!(seen[0], "ddaa".as_bytes().to_vec());
    assert_eq!(seen[1], "ddce".as_bytes().to_vec());
}
