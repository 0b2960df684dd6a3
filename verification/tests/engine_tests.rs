use bitcask_rs::data_file::DataFile;
use bitcask_rs::db::Engine;
use bitcask_rs::error::Errors;
use bitcask_rs::log_record::{LogRecord, LogRecordType};
use bitcask_rs::options::{Options, WriteBatchOptions};
use bitcask_rs::rand_kv::{get_test_key, get_test_value};
use bitcask_rs::replay::log_record_key_with_seq;

fn open_empty(opts: Options) -> Engine {
    Engine::open(opts, Vec::new(), true).expect("failed to open engine")
}

fn reopen(opts: Options, images: Vec<(u32, Vec<u8>)>) -> Engine {
    let mut files = Vec::new();
    for (id, bytes) in images {
        files.push(DataFile::open_existing(id, bytes).expect("bad image"));
    }
    Engine::open(opts, files, false).expect("failed to reopen engine")
}

#[test]
fn test_engine_put_get_delete() {
    let mut engine = open_empty(Options::default());
    engine
        .put("name".as_bytes().to_vec(), "bitcask-rs".as_bytes().to_vec())
        .expect("put failed");
    let got = engine.get(&"name".as_bytes().to_vec()).expect("get failed");
    assert_eq!(got, "bitcask-rs".as_bytes().to_vec());
    engine.delete("name".as_bytes().to_vec()).expect("delete failed");
    assert_eq!(
        engine.get(&"name".as_bytes().to_vec()).unwrap_err(),
        Errors::KeyNotFound
    );
}

#[test]
fn test_engine_empty_key() {
    let mut engine = open_empty(Options::default());
    assert_eq!(
        engine.put(Vec::new(), "v".as_bytes().to_vec()).unwrap_err(),
        Errors::KeyIsEmpty
    );
    assert_eq!(engine.get(&Vec::new()).unwrap_err(), Errors::KeyIsEmpty);
    assert_eq!(engine.delete(Vec::new()).unwrap_err(), Errors::KeyIsEmpty);
}

#[test]
fn test_check_options_errors() {
    let mut opts = Options::default();
    opts.data_file_size = 0;
    assert_eq!(
        bitcask_rs::db::check_options(&opts).unwrap_err(),
        Errors::DataFileSizeTooSmall
    );
    let mut opts2 = Options::default();
    opts2.dir_path = String::new();
    assert_eq!(
        bitcask_rs::db::check_options(&opts2).unwrap_err(),
        Errors::DirPathIsEmpty
    );
    let mut opts3 = Options::default();
    opts3.data_file_merge_ratio = 101;
    assert_eq!(
        bitcask_rs::db::check_options(&opts3).unwrap_err(),
        Errors::InvalidMergeRatio
    );
}

#[test]
fn test_batch_commit() {
    let mut engine = open_empty(Options::default());
    let mut batch = engine
        .new_write_batch(WriteBatchOptions::default())
        .expect("batch failed");
    batch
        .put("k1".as_bytes().to_vec(), "v1".as_bytes().to_vec())
        .expect("stage failed");
    batch
        .put("k2".as_bytes().to_vec(), "v2".as_bytes().to_vec())
        .expect("stage failed");
    assert_eq!(
        engine.get(&"k1".as_bytes().to_vec()).unwrap_err(),
        Errors::KeyNotFound
    );
    batch.commit(&mut engine).expect("commit failed");
    assert_eq!(
        engine.get(&"k1".as_bytes().to_vec()).expect("get failed"),
        "v1".as_bytes().to_vec()
    );
    assert_eq!(engine.seq_no(), 2);
}

#[test]
fn test_batch_exceeds_max() {
    let mut engine = open_empty(Options::default());
    let mut small = WriteBatchOptions::default();
    small.max_batch_num = 1;
    let mut batch = engine.new_write_batch(small).expect("batch failed");
    batch.put("a".as_bytes().to_vec(), "1".as_bytes().to_vec()).unwrap();
    batch.put("b".as_bytes().to_vec(), "2".as_bytes().to_vec()).unwrap();
    assert_eq!(batch.commit(&mut engine).unwrap_err(), Errors::ExceedMaxBatchNum);
}

#[test]
fn test_batch_reopen() {
    let opts = Options::default();
    let mut engine = open_empty(opts.clone());
    let mut batch = engine
        .new_write_batch(WriteBatchOptions::default())
        .expect("batch failed");
    batch.put("k1".as_bytes().to_vec(), "v1".as_bytes().to_vec()).unwrap();
    batch.put("k2".as_bytes().to_vec(), "v2".as_bytes().to_vec()).unwrap();
    batch.commit(&mut engine).expect("commit failed");
    let mut batch2 = engine
        .new_write_batch(WriteBatchOptions::default())
        .expect("batch failed");
    batch2.put("k1".as_bytes().to_vec(), "v1".as_bytes().to_vec()).unwrap();
    batch2.commit(&mut engine).expect("commit failed");
    engine.close().expect("close failed");

    let engine2 = reopen(opts, engine.file_images());
    let keys = engine2.list_keys().expect("list failed");
    assert_eq!(keys.len(), 2);
    assert_eq!(engine2.seq_no(), 3);
}

#[test]
fn test_torn_batch_recovery() {
    let opts = Options::default();
    let mut engine = open_empty(opts.clone());
    let mut batch = engine
        .new_write_batch(WriteBatchOptions::default())
        .expect("batch failed");
    batch.put("k1".as_bytes().to_vec(), "v1".as_bytes().to_vec()).unwrap();
    batch.put("k2".as_bytes().to_vec(), "v2".as_bytes().to_vec()).unwrap();
    batch.commit(&mut engine).expect("commit failed");

    let seq2 = engine.seq_no();
    let mut batch2 = engine
        .new_write_batch(WriteBatchOptions::default())
        .expect("batch failed");
    batch2.put("k3".as_bytes().to_vec(), "v3".as_bytes().to_vec()).unwrap();
    batch2.commit(&mut engine).expect("commit failed");

    // cut the finish marker of the second batch off the tail, the shape a
    // crash between the batch records and the marker leaves behind
    let fin = LogRecord {
        key: log_record_key_with_seq(&"legacy".as_bytes().to_vec(), seq2),
        value: Vec::new(),
        rec_type: LogRecordType::TxnFinished,
    };
    let fin_len = fin.encode().len();
    let mut images = engine.file_images();
    let last = images.len() - 1;
    let keep = images[last].1.len() - fin_len;
    images[last].1.truncate(keep);

    let engine2 = reopen(opts, images);
    assert_eq!(
        engine2.get(&"k1".as_bytes().to_vec()).expect("get failed"),
        "v1".as_bytes().to_vec()
    );
    assert_eq!(
        engine2.get(&"k2".as_bytes().to_vec()).expect("get failed"),
        "v2".as_bytes().to_vec()
    );
    assert_eq!(
        engine2.get(&"k3".as_bytes().to_vec()).unwrap_err(),
        Errors::KeyNotFound
    );
    assert_eq!(engine2.seq_no(), seq2 + 1);
}

#[test]
fn test_reopen_keeps_keys() {
    let opts = Options::default();
    let mut engine = open_empty(opts.clone());
    engine.put("a".as_bytes().to_vec(), "1".as_bytes().to_vec()).unwrap();
    engine.put("b".as_bytes().to_vec(), "2".as_bytes().to_vec()).unwrap();
    engine.put("c".as_bytes().to_vec(), "3".as_bytes().to_vec()).unwrap();
    engine.delete("b".as_bytes().to_vec()).unwrap();
    engine.close().expect("close failed");

    let engine2 = reopen(opts, engine.file_images());
    let keys = engine2.list_keys().expect("list failed");
    assert_eq!(keys.len(), 2);
    assert_eq!(keys[0], "a".as_bytes().to_vec());
    assert_eq!(keys[1], "c".as_bytes().to_vec());
    assert_eq!(
        engine2.get(&"b".as_bytes().to_vec()).unwrap_err(),
        Errors::KeyNotFound
    );
}

#[test]
fn test_zero_tail_is_skipped() {
    let opts = Options::default();
    let mut engine = open_empty(opts.clone());
    engine.put("a".as_bytes().to_vec(), "1".as_bytes().to_vec()).unwrap();
    engine.put("b".as_bytes().to_vec(), "2".as_bytes().to_vec()).unwrap();
    let mut images = engine.file_images();
    let last = images.len() - 1;
    for _ in 0..64 {
        images[last].1.push(0);
    }
    let engine2 = reopen(opts, images);
    assert_eq!(
        engine2.get(&"a".as_bytes().to_vec()).expect("get failed"),
        "1".as_bytes().to_vec()
    );
    assert_eq!(
        engine2.get(&"b".as_bytes().to_vec()).expect("get failed"),
        "2".as_bytes().to_vec()
    );
}

#[test]
fn test_corrupt_record_rejected_at_open() {
    let opts = Options::default();
    let mut engine = open_empty(opts.clone());
    engine
        .put("name".as_bytes().to_vec(), "bitcask-rs".as_bytes().to_vec())
        .unwrap();
    let mut images = engine.file_images();
    let last = images.len() - 1;
    let mid = images[last].1.len() / 2;
    images[last].1[mid] ^= 0x55;
    let mut files = Vec::new();
    for (id, bytes) in images {
        files.push(DataFile::open_existing(id, bytes).expect("bad image"));
    }
    assert!(Engine::open(opts, files, false).is_err());
}

#[test]
fn test_stat_counts_keys() {
    let mut engine = open_empty(Options::default());
    for i in 0..3 {
        engine.put(get_test_key(i), get_test_value(i)).unwrap();
    }
    let st = engine.stat().expect("stat failed");
    let keys = engine.list_keys().expect("list failed");
    assert_eq!(st.key_num, keys.len());
    assert_eq!(st.key_num, 3);
    assert_eq!(st.data_file_num, 1);
}

#[test]
fn test_rotation() {
    let mut opts = Options::default();
    opts.data_file_size = 64 * 1024 * 1024;
    let mut engine = open_empty(opts);
    let big = vec![66u8; 1024 * 1024];
    for i in 0..70 {
        engine.put(get_test_key(i), big.clone()).unwrap();
    }
    let st = engine.stat().expect("stat failed");
    assert!(st.data_file_num >= 2);
    for i in 0..70 {
        assert_eq!(engine.get(&get_test_key(i)).expect("get failed"), big);
    }
}

#[test]
fn test_merge() {
    let mut opts = Options::default();
    opts.data_file_merge_ratio = 30;
    opts.data_file_size = 256 * 1024;
    let mut engine = open_empty(opts);
    for i in 0..10000 {
        engine.put(get_test_key(i), get_test_value(i)).unwrap();
    }
    for i in 0..10000 {
        engine.put(get_test_key(i), get_test_value(i + 1)).unwrap();
    }
    let before = engine.stat().expect("stat failed");
    engine.merge().expect("merge failed");
    let after = engine.stat().expect("stat failed");
    assert_eq!(after.reclaim_size, 0);
    assert!(after.disk_size < before.disk_size);
    assert!(after.data_file_num <= before.data_file_num);
    let keys = engine.list_keys().expect("list failed");
    assert_eq!(keys.len(), 10000);
    for i in (0..10000).step_by(97) {
        assert_eq!(
            engine.get(&get_test_key(i)).expect("get failed"),
            get_test_value(i + 1)
        );
    }
}

#[test]
fn test_merge_ratio_unreached() {
    let mut engine = open_empty(Options::default());
    engine.put("a".as_bytes().to_vec(), "1".as_bytes().to_vec()).unwrap();
    assert_eq!(engine.merge().unwrap_err(), Errors::MergeRatioUnreached);
}
