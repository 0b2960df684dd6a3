use bitcask_rs::rand_kv::{get_test_key, get_test_value};

#[test]
fn it_works() {
    let result = bitcask_rs::add(2, 2);
    assert_eq!(result, 4);
}

#[test]
fn test_get_test_key_value() {
    for i in 0..=10 {
        assert!(!get_test_key(i).is_empty())
    }

    for i in 0..=10 {
        assert!(!get_test_value(i).is_empty())
    }
}
