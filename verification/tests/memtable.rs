use lsm_core::memtable::{ImmutableMemtable, MemTable, SetError, SetRet};
use lsm_core::types::{Key, Value, TOMBSTONE};
use spectral::assert_that;
use spectral::boolean::BooleanAssertions;
use spectral::option::OptionAssertions;
use spectral::result::ResultAssertions;

#[test]
fn test_memtable_set() {
    let mut memtable = MemTable::new(10);
    // used 8 bytes, 2 bytes left
    assert_that(&memtable.set(b"key".to_vec(), b"value".to_vec()))
        .is_ok()
        .is_equal_to(&SetRet::AvailableSpace);
    assert_that(&memtable.is_threshold_reached()).is_false();
    // use 16 bytes, threshold reached
    assert_that(&memtable.set(b"key".to_vec(), b"value".to_vec()))
        .is_ok()
        .is_equal_to(&SetRet::ThresholdReached);
    assert_that(&memtable.is_threshold_reached()).is_true();
}

#[test]
fn test_memtable_get() {
    let mut memtable = MemTable::new(10);
    assert_that(&memtable.get(b"key")).is_none();
    assert_that(&memtable.set(b"key".to_vec(), b"value".to_vec()))
        .is_ok()
        .is_equal_to(&SetRet::AvailableSpace);
    assert_eq!(memtable.get(b"key"), Some(b"value".to_vec()));
    assert_eq!(memtable.get(b"key2"), None);
}

#[test]
fn test_memtable_remove() {
    let mut memtable = MemTable::new(10);
    // used 8 bytes, 2 bytes left
    assert_that(&memtable.set(b"key".to_vec(), b"value".to_vec()))
        .is_ok()
        .is_equal_to(&SetRet::AvailableSpace);
    assert_that(&memtable.get(b"key"))
        .is_some()
        .is_equal_to(&b"value".to_vec());
    assert_that(&memtable.remove(b"key".to_vec())).is_ok();
    assert_that(&memtable.get(b"key"))
        .is_some()
        .is_equal_to(&TOMBSTONE.to_vec());
}

#[test]
fn test_into_immutable_memtable() {
    let mut memtable = MemTable::new(10000);
    let mut sst = vec![];
    for i in 0..100 {
        let key = vec![b'k', b'e', b'y', i];
        let value = vec![b'v', b'a', b'l', b'u', b'e', i];
        sst.push((key.clone(), value.clone()));
        assert_that(&memtable.set(key, value))
            .is_ok()
            .is_equal_to(&SetRet::AvailableSpace);
    }

    let immutable: ImmutableMemtable = memtable.into();
    assert_that(&immutable.get(b"key1"))
        .is_some()
        .is_equal_to(&b"value1".to_vec());

    let iteror_sst: Vec<(Key, Value)> = immutable
        .iter()
        .map(|(k, v)| (k.clone(), v.clone()))
        .collect();
    assert_that(&sst).is_equal_to(&iteror_sst);
}

#[test]
fn tombstone_key_is_refused() {
    let mut memtable = MemTable::new(100);
    assert_eq!(
        memtable.set(TOMBSTONE.to_vec(), b"value".to_vec()),
        Err(SetError::TombstoneKey)
    );
    assert_eq!(memtable.get(&TOMBSTONE), None);
    assert_eq!(memtable.remove(TOMBSTONE.to_vec()), Err(SetError::TombstoneKey));
    assert!(!memtable.is_threshold_reached());
    // Nothing was counted: 100 bytes still go in.
    assert_eq!(memtable.set(vec![1; 40], vec![2; 59]), Ok(SetRet::AvailableSpace));
    assert_eq!(memtable.set(vec![3], vec![]), Ok(SetRet::ThresholdReached));
}

#[test]
fn tombstone_key_is_refused_before_the_budget_is_looked_at() {
    let mut memtable = MemTable::new(0);
    assert!(memtable.is_threshold_reached());
    assert_eq!(memtable.set(TOMBSTONE.to_vec(), vec![]), Err(SetError::TombstoneKey));
    assert_eq!(memtable.set(b"k".to_vec(), vec![]), Err(SetError::ThresholdReached));
}

#[test]
fn a_full_table_refuses_and_stays_as_it_is() {
    let mut memtable = MemTable::new(10);
    assert_eq!(memtable.set(b"key".to_vec(), b"value12".to_vec()), Ok(SetRet::ThresholdReached));
    assert!(memtable.is_threshold_reached());
    assert_eq!(memtable.set(b"other".to_vec(), b"x".to_vec()), Err(SetError::ThresholdReached));
    assert_eq!(memtable.set(b"key".to_vec(), b"y".to_vec()), Err(SetError::ThresholdReached));
    assert_eq!(memtable.remove(b"key".to_vec()), Err(SetError::ThresholdReached));
    assert!(memtable.is_threshold_reached());
    assert_eq!(memtable.get(b"key"), Some(b"value12".to_vec()));
    assert_eq!(memtable.get(b"other"), None);
}

#[test]
fn the_budget_counts_every_set_even_an_overwrite() {
    let mut memtable = MemTable::new(24);
    assert_eq!(memtable.set(b"key".to_vec(), b"value".to_vec()), Ok(SetRet::AvailableSpace));
    assert_eq!(memtable.set(b"key".to_vec(), b"other".to_vec()), Ok(SetRet::AvailableSpace));
    assert_eq!(memtable.get(b"key"), Some(b"other".to_vec()));
    // 16 bytes are counted, though the table holds 8; 8 more reach the budget.
    assert_eq!(memtable.set(b"key".to_vec(), b"third".to_vec()), Ok(SetRet::ThresholdReached));
    assert_eq!(memtable.set(b"key".to_vec(), b"no".to_vec()), Err(SetError::ThresholdReached));
    assert_eq!(memtable.get(b"key"), Some(b"third".to_vec()));
}

#[test]
fn the_threshold_is_reached_when_the_bytes_add_up_to_the_budget() {
    for budget in 1usize..40 {
        let mut memtable = MemTable::new(budget);
        let mut given = 0usize;
        let mut i = 0u8;
        while given < budget {
            assert!(!memtable.is_threshold_reached());
            let r = memtable.set(vec![b'k', i], vec![i; 3]);
            given += 5;
            if given >= budget {
                assert_eq!(r, Ok(SetRet::ThresholdReached));
            } else {
                assert_eq!(r, Ok(SetRet::AvailableSpace));
            }
            i += 1;
        }
        assert!(memtable.is_threshold_reached());
        assert_eq!(memtable.set(vec![b'z'], vec![]), Err(SetError::ThresholdReached));
    }
}

#[test]
fn a_removed_key_reads_as_the_tombstone() {
    let mut memtable = MemTable::new(100);
    // Removing a key that was never set stores the marker too.
    assert_eq!(memtable.remove(b"ghost".to_vec()), Ok(SetRet::AvailableSpace));
    assert_eq!(memtable.get(b"ghost"), Some(vec![0x6b, 0xe5, 0xa5, 0xa2]));
    assert_eq!(memtable.set(b"key".to_vec(), b"value".to_vec()), Ok(SetRet::AvailableSpace));
    assert_eq!(memtable.remove(b"key".to_vec()), Ok(SetRet::AvailableSpace));
    assert_eq!(memtable.get(b"key"), Some(TOMBSTONE.to_vec()));
    // A removal counts the key and the four bytes of the marker.
    let mut memtable = MemTable::new(7);
    assert_eq!(memtable.remove(b"abc".to_vec()), Ok(SetRet::ThresholdReached));
}

#[test]
fn a_value_may_be_the_tombstone_marker() {
    let mut memtable = MemTable::new(100);
    assert_eq!(memtable.set(b"key".to_vec(), TOMBSTONE.to_vec()), Ok(SetRet::AvailableSpace));
    assert_eq!(memtable.get(b"key"), Some(TOMBSTONE.to_vec()));
}

#[test]
fn frozen_table_walks_in_key_order_and_reads_the_same() {
    let mut memtable = MemTable::new(10_000);
    let keys: Vec<&[u8]> = vec![
        b"pear", b"", b"apple", b"app", b"\xff", b"applf", b"b", b"apple\x00", b"a", b"\x00",
    ];
    for (i, key) in keys.iter().enumerate() {
        assert_eq!(memtable.set(key.to_vec(), vec![i as u8]), Ok(SetRet::AvailableSpace));
    }
    assert_eq!(memtable.set(b"app".to_vec(), b"again".to_vec()), Ok(SetRet::AvailableSpace));
    assert_eq!(memtable.remove(b"b".to_vec()), Ok(SetRet::AvailableSpace));
    let mut read = Vec::new();
    for key in keys.iter() {
        read.push(memtable.get(key));
    }
    assert_eq!(memtable.get(b"missing"), None);

    let frozen = ImmutableMemtable::from(memtable);
    for (key, value) in keys.iter().zip(read.iter()) {
        assert_eq!(frozen.get(key), value.as_ref());
    }
    assert_eq!(frozen.get(b"missing"), None);
    assert_eq!(frozen.get(b"app"), Some(&b"again".to_vec()));
    assert_eq!(frozen.get(b"b"), Some(&TOMBSTONE.to_vec()));

    let walked: Vec<(Key, Value)> = frozen.iter().cloned().collect();
    let expected: Vec<(Key, Value)> = vec![
        (b"".to_vec(), vec![1]),
        (b"\x00".to_vec(), vec![9]),
        (b"a".to_vec(), vec![8]),
        (b"app".to_vec(), b"again".to_vec()),
        (b"apple".to_vec(), vec![2]),
        (b"apple\x00".to_vec(), vec![7]),
        (b"applf".to_vec(), vec![5]),
        (b"b".to_vec(), TOMBSTONE.to_vec()),
        (b"pear".to_vec(), vec![0]),
        (b"\xff".to_vec(), vec![4]),
    ];
    assert_eq!(walked, expected);
    // The walk can be started again.
    assert_eq!(frozen.iter().count(), 10);
    assert_eq!(frozen.iter().next(), Some(&(b"".to_vec(), vec![1])));
}

#[test]
fn an_empty_table_freezes_to_an_empty_walk() {
    let frozen: ImmutableMemtable = MemTable::new(1).into();
    assert_eq!(frozen.iter().count(), 0);
    assert_eq!(frozen.get(b"key"), None);
}
