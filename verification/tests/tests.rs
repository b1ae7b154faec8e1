use kvs::codec::{decode_command, encode_command};
use kvs::{Command, FileId, Index, KvError, KvStore, LogPointer, Segment, Sequencer, Storage};

#[test]
fn storage_set() {
    let mut storage = Storage::new(Vec::new()).unwrap();
    let seq = Sequencer::new().unwrap();
    let cmd = Command::Put {
        key: "key1".to_owned(),
        value: "value1".to_owned(),
        sequencer: seq,
    };
    let expected = cmd.clone();

    let lp = storage.mutate(cmd).unwrap();

    assert_eq!(expected, storage.get(&lp).unwrap());
}

#[test]
fn storage_build_index() {
    let mut storage = Storage::new(Vec::new()).unwrap();
    let seq1 = Sequencer::new().unwrap();
    let cmd1 = Command::Put {
        key: "key1".to_owned(),
        value: "value1".to_owned(),
        sequencer: seq1,
    };
    let lp1 = storage.mutate(cmd1).unwrap();

    let seq2 = Sequencer { timestamp: seq1.timestamp + 1 };
    let cmd2 = Command::Put {
        key: "key2".to_owned(),
        value: "value2".to_owned(),
        sequencer: seq2,
    };
    let lp2 = storage.mutate(cmd2).unwrap();

    let mut index = Index::new();

    storage.build_index(&mut index).expect("FAIL");

    assert_eq!(lp1, index.get_index(&"key1".to_owned()).unwrap());
    assert_eq!(lp2, index.get_index(&"key2".to_owned()).unwrap());
}

#[test]
fn index_iter() {
    let mut index = Index::new();

    let seq1 = Sequencer::new().unwrap();
    let cmd1 = Command::Put {
        key: "key1".to_owned(),
        value: "value1".to_owned(),
        sequencer: seq1,
    };
    let lp1 = LogPointer { start_pos: 0, len: 1, f_id: FileId { id: 0 } };
    index.update_index(&cmd1, lp1).expect("FAIL");

    let seq2 = Sequencer { timestamp: seq1.timestamp + 1 };
    let cmd2 = Command::Put {
        key: "key2".to_owned(),
        value: "value2".to_owned(),
        sequencer: seq2,
    };
    let lp2 = LogPointer { start_pos: 1, len: 2, f_id: FileId { id: 0 } };
    index.update_index(&cmd2, lp2).expect("FAIL");

    let mut found_key1 = false;
    let mut found_key2 = false;
    let mut i = 0;
    while i < index.entry_count() {
        let e = index.entry_at(i);
        if e.key == "key1" {
            found_key1 = true;
            assert_eq!(e.lp, lp1);
        }
        if e.key == "key2" {
            found_key2 = true;
            assert_eq!(e.lp, lp2);
        }
        i += 1;
    }
    assert!(found_key1 && found_key2);
}

#[test]
fn index_update() {
    let mut index = Index::new();

    let seq1 = Sequencer::new().unwrap();
    let cmd1 = Command::Put {
        key: "key1".to_owned(),
        value: "value1".to_owned(),
        sequencer: seq1,
    };
    let lp1 = LogPointer { start_pos: 0, len: 1, f_id: FileId { id: 0 } };
    let expected = lp1;
    index.update_index(&cmd1, lp1).expect("FAIL");

    assert_eq!(expected, index.get_index(cmd1.get_key()).unwrap())
}

#[test]
fn index_update_conflict() {
    let mut index = Index::new();

    let seq1 = Sequencer::new().unwrap();
    let seq2 = Sequencer { timestamp: seq1.timestamp + 1 };

    let cmd1 = Command::Put {
        key: "key1".to_owned(),
        value: "value1".to_owned(),
        sequencer: seq2,
    };
    let cmd2 = Command::Put {
        key: "key1".to_owned(),
        value: "value2".to_owned(),
        sequencer: seq1,
    };
    let lp1 = LogPointer { start_pos: 0, len: 1, f_id: FileId { id: 0 } };
    let lp2 = LogPointer { start_pos: 2, len: 3, f_id: FileId { id: 0 } };

    index.update_index(&cmd1, lp1).expect("FAIL");

    match index.update_index(&cmd2, lp2) {
        Err(_) => {}
        _ => {
            assert!(false)
        }
    }
}

// Should get previously stored value.
#[test]
fn get_stored_value() -> Result<(), KvError> {
    let mut store = KvStore::open(Vec::new())?;

    store.set("key1".to_owned(), "value1".to_owned())?;
    store.set("key2".to_owned(), "value2".to_owned())?;

    assert_eq!(store.get("key1".to_owned())?, Some("value1".to_owned()));
    assert_eq!(store.get("key2".to_owned())?, Some("value2".to_owned()));

    // Open from the same segments again and check persistent data.
    let dir = store.into_segments();
    let mut store = KvStore::open(dir)?;
    assert_eq!(store.get("key1".to_owned())?, Some("value1".to_owned()));
    assert_eq!(store.get("key2".to_owned())?, Some("value2".to_owned()));

    Ok(())
}

// Should overwrite existent value.
#[test]
fn overwrite_value() -> Result<(), KvError> {
    let mut store = KvStore::open(Vec::new())?;

    store.set("key1".to_owned(), "value1".to_owned())?;
    assert_eq!(store.get("key1".to_owned())?, Some("value1".to_owned()));
    store.set("key1".to_owned(), "value2".to_owned())?;
    assert_eq!(store.get("key1".to_owned())?, Some("value2".to_owned()));

    // Open from the same segments again and check persistent data.
    let dir = store.into_segments();
    let mut store = KvStore::open(dir)?;
    assert_eq!(store.get("key1".to_owned())?, Some("value2".to_owned()));
    store.set("key1".to_owned(), "value3".to_owned())?;
    assert_eq!(store.get("key1".to_owned())?, Some("value3".to_owned()));

    Ok(())
}

// Should get `None` when getting a non-existent key.
#[test]
fn get_non_existent_value() -> Result<(), KvError> {
    let mut store = KvStore::open(Vec::new())?;

    store.set("key1".to_owned(), "value1".to_owned())?;
    assert_eq!(store.get("key2".to_owned())?, None);

    // Open from the same segments again and check persistent data.
    let dir = store.into_segments();
    let mut store = KvStore::open(dir)?;
    assert_eq!(store.get("key2".to_owned())?, None);

    Ok(())
}

#[test]
fn remove_non_existent_key() -> Result<(), KvError> {
    let mut store = KvStore::open(Vec::new())?;
    assert!(store.remove("key1".to_owned()).is_err());
    Ok(())
}

#[test]
fn remove_key() -> Result<(), KvError> {
    let mut store = KvStore::open(Vec::new())?;
    store.set("key1".to_owned(), "value1".to_owned())?;
    assert!(store.remove("key1".to_owned()).is_ok());
    assert_eq!(store.get("key1".to_owned())?, None);
    Ok(())
}

// Insert data until the total size of the segments decreases.
// Test data correctness after compaction.
#[test]
fn compaction() -> Result<(), KvError> {
    let mut store = KvStore::open(Vec::new())?;

    let mut current_size = store.total_bytes_on_disk();
    for iter in 0..100 {
        for key_id in 0..100 {
            let key = format!("key{}", key_id);
            let value = format!("{}", iter);
            store.set(key, value)?;
        }

        let new_size = store.total_bytes_on_disk();
        if new_size > current_size {
            current_size = new_size;
            continue;
        }
        // Compaction triggered.

        // Reopen from the same segments and check content.
        let dir = store.into_segments();
        let mut store = KvStore::open(dir)?;
        for key_id in 0..100 {
            let key = format!("key{}", key_id);
            assert_eq!(store.get(key)?, Some(format!("{}", iter)));
        }
        return Ok(());
    }

    panic!("No compaction detected");
}

// The codec round trip: a decoded record is the encoded one, and
// decoding consumes exactly the encoded span.
#[test]
fn codec_round_trip() {
    let put = Command::Put {
        key: "alpha".to_owned(),
        value: "".to_owned(),
        sequencer: Sequencer { timestamp: 12345678901234567890 },
    };
    let bytes = encode_command(&put);
    let (decoded, next) = decode_command(&bytes, 0).unwrap();
    assert_eq!(decoded, put);
    assert_eq!(next, bytes.len());

    let rm = Command::Rm { key: "omega".to_owned(), sequencer: Sequencer { timestamp: 7 } };
    let mut two = encode_command(&rm);
    let split = two.len();
    two.extend_from_slice(&encode_command(&put));
    let (first, mid) = decode_command(&two, 0).unwrap();
    assert_eq!(first, rm);
    assert_eq!(mid, split);
    let (second, end) = decode_command(&two, mid).unwrap();
    assert_eq!(second, put);
    assert_eq!(end, two.len());
}

// Garbage is refused with a codec error.
#[test]
fn codec_rejects_garbage() {
    let garbage: Vec<u8> = vec![9, 9, 9, 9];
    assert_eq!(decode_command(&garbage, 0).err(), Some(KvError::Codec));
}

// Opening an empty directory succeeds and holds nothing.
#[test]
fn open_empty_directory() -> Result<(), KvError> {
    let mut store = KvStore::open(Vec::new())?;
    assert_eq!(store.get("anything".to_owned())?, None);
    Ok(())
}

// A set with an empty-string value is legal.
#[test]
fn set_empty_value() -> Result<(), KvError> {
    let mut store = KvStore::open(Vec::new())?;
    store.set("key1".to_owned(), "".to_owned())?;
    assert_eq!(store.get("key1".to_owned())?, Some("".to_owned()));
    let dir = store.into_segments();
    let mut store = KvStore::open(dir)?;
    assert_eq!(store.get("key1".to_owned())?, Some("".to_owned()));
    Ok(())
}

// A key that was set and then removed reports `KeyNotFound` on a
// second removal.
#[test]
fn remove_removed_key() -> Result<(), KvError> {
    let mut store = KvStore::open(Vec::new())?;
    store.set("key1".to_owned(), "value1".to_owned())?;
    assert!(store.remove("key1".to_owned()).is_ok());
    assert_eq!(store.get("key1".to_owned())?, None);
    assert_eq!(store.remove("key1".to_owned()), Err(KvError::KeyNotFound));
    Ok(())
}

// Writes before a drop are visible after a reopen, last write wins.
#[test]
fn reopen_last_write_wins() -> Result<(), KvError> {
    let mut store = KvStore::open(Vec::new())?;
    store.set("k1".to_owned(), "v1".to_owned())?;
    store.set("k1".to_owned(), "v2".to_owned())?;
    let dir = store.into_segments();
    let mut store = KvStore::open(dir)?;
    assert_eq!(store.get("k1".to_owned())?, Some("v2".to_owned()));
    Ok(())
}

// A directory whose last segment ends mid-record replays up to the
// last whole record.
#[test]
fn reopen_after_torn_write() -> Result<(), KvError> {
    let mut store = KvStore::open(Vec::new())?;
    store.set("key1".to_owned(), "value1".to_owned())?;
    store.set("key2".to_owned(), "value2".to_owned())?;
    let mut dir = store.into_segments();
    // A record was half written: its first bytes reached the disk,
    // the rest never did.
    let torn = encode_command(&Command::Put {
        key: "key3".to_owned(),
        value: "value3".to_owned(),
        sequencer: Sequencer { timestamp: u128::MAX - 1 },
    });
    let n = dir.len();
    dir[n - 1].data.extend_from_slice(&torn[0..torn.len() / 2]);
    let mut store = KvStore::open(dir)?;
    assert_eq!(store.get("key1".to_owned())?, Some("value1".to_owned()));
    assert_eq!(store.get("key2".to_owned())?, Some("value2".to_owned()));
    assert_eq!(store.get("key3".to_owned())?, None);
    Ok(())
}

// Ten sets interleaved with removes, snapshot, reopen, compare.
#[test]
fn rebuild_matches_snapshot() -> Result<(), KvError> {
    let mut store = KvStore::open(Vec::new())?;
    for i in 0..10 {
        store.set(format!("key{}", i), format!("value{}", i * 31 % 7))?;
        if i % 3 == 0 {
            store.remove(format!("key{}", i))?;
        }
    }
    let mut expected: Vec<(String, Option<String>)> = Vec::new();
    for i in 0..10 {
        expected.push((format!("key{}", i), store.get(format!("key{}", i))?));
    }
    let dir = store.into_segments();
    let mut store = KvStore::open(dir)?;
    for (key, want) in expected {
        assert_eq!(store.get(key)?, want);
    }
    assert_eq!(store.get("absent".to_owned())?, None);
    Ok(())
}

// Rapid-fire sets on one key: the last non-empty segment, parsed in
// order, yields strictly increasing sequencers.
#[test]
fn sequencer_monotonicity() -> Result<(), KvError> {
    let mut store = KvStore::open(Vec::new())?;
    for _ in 0..10000 {
        store.set("k".to_owned(), "v".to_owned())?;
    }
    let dir = store.into_segments();
    let seg = dir.iter().rev().find(|s| !s.data.is_empty()).unwrap();
    let mut pos = 0;
    let mut last: Option<u128> = None;
    let mut records = 0;
    while pos < seg.data.len() {
        let (cmd, next) = decode_command(&seg.data, pos).unwrap();
        let ts = cmd.get_sequencer().timestamp;
        if let Some(prev) = last {
            assert!(prev < ts);
        }
        last = Some(ts);
        records += 1;
        pos = next;
    }
    assert!(records > 0);
    Ok(())
}

// Compaction reclaims bytes: after heavy overwriting the segments
// hold fewer bytes than before, and every binding survives.
#[test]
fn compaction_reclaims_space() -> Result<(), KvError> {
    let mut store = KvStore::open(Vec::new())?;
    for i in 0..10 {
        store.set(format!("key{}", i), "x".repeat(2000))?;
    }
    let mut peak = store.total_bytes_on_disk();
    let mut shrunk = false;
    for round in 0..200 {
        for i in 0..10 {
            store.set(format!("key{}", i), "y".repeat(500 + round))?;
        }
        let now = store.total_bytes_on_disk();
        if now < peak {
            shrunk = true;
            break;
        }
        peak = now;
    }
    assert!(shrunk);
    for i in 0..10 {
        assert!(store.get(format!("key{}", i))?.is_some());
    }
    Ok(())
}

// A pointer into a segment that no longer exists is a stale pointer.
#[test]
fn storage_get_stale_pointer() {
    let mut storage = Storage::new(Vec::new()).unwrap();
    let lp = LogPointer { start_pos: 0, len: 10, f_id: FileId { id: 999 } };
    assert_eq!(storage.get(&lp).err(), Some(KvError::KeyNotFound));
}

// Identifiers grow by one; their file names order numerically.
#[test]
fn file_id_increments() {
    let id = FileId { id: 41 };
    assert_eq!(id.inc(), FileId { id: 42 });
}

// Opening an unsorted directory still replays in identifier order.
#[test]
fn open_unsorted_directory() -> Result<(), KvError> {
    let mut store = KvStore::open(Vec::new())?;
    store.set("key1".to_owned(), "old".to_owned())?;
    let mut dir = store.into_segments();
    // A later segment holding a later write for the same key, listed
    // first: the store must sort by identifier before replaying.
    let base = dir.iter().map(|s| s.f_id.id).max().unwrap();
    let mut storage2 = Storage::new(Vec::new()).unwrap();
    storage2
        .mutate(Command::Put {
            key: "key1".to_owned(),
            value: "new".to_owned(),
            sequencer: Sequencer { timestamp: u128::MAX - 5 },
        })
        .unwrap();
    let mut listing: Vec<Segment> = Vec::new();
    for mut s in storage2.into_parts() {
        if s.data.is_empty() {
            continue;
        }
        s.f_id = FileId { id: s.f_id.id + base };
        listing.push(s);
    }
    listing.append(&mut dir);
    let mut store = KvStore::open(listing)?;
    assert_eq!(store.get("key1".to_owned())?, Some("new".to_owned()));
    Ok(())
}

// A segment file name round-trips through the parser, zero-padded to
// eight digits.
#[test]
fn file_name_round_trip() {
    let name = kvs::file_name::file_name(&FileId { id: 7 });
    assert_eq!(name, "00000007.dat");
    assert_eq!(kvs::file_name::parse_file_name(&name), Some(FileId { id: 7 }));

    let wide = kvs::file_name::file_name(&FileId { id: 123456789012 });
    assert_eq!(wide, "123456789012.dat");
    assert_eq!(
        kvs::file_name::parse_file_name(&wide),
        Some(FileId { id: 123456789012 })
    );

    assert_eq!(kvs::file_name::parse_file_name(&"tmp.log".to_owned()), None);
    assert_eq!(kvs::file_name::parse_file_name(&".dat".to_owned()), None);
    assert_eq!(kvs::file_name::parse_file_name(&"12x4.dat".to_owned()), None);
    assert_eq!(
        kvs::file_name::parse_file_name(&"99999999999999999999999.dat".to_owned()),
        None
    );
}

// A write that leaves the active segment exactly at the threshold
// seals it: four records of 8189 + 8193 + 8193 + 8193 bytes end at
// 32768, and the next write must land in a fresh segment.
#[test]
fn rollover_at_exact_threshold() {
    let mut storage = Storage::new(Vec::new()).unwrap();
    let sizes = [2038usize, 2039, 2039, 2039];
    let mut ts: u128 = 1;
    for chars in sizes {
        let cmd = Command::Put {
            key: "k".to_owned(),
            value: "x".repeat(chars),
            sequencer: Sequencer { timestamp: ts },
        };
        ts += 1;
        storage.mutate(cmd).unwrap();
    }
    let parts = storage.into_parts();
    assert_eq!(parts.len(), 2);
    assert_eq!(parts[0].data.len(), 32768);
    assert_eq!(parts[1].data.len(), 0);
}
