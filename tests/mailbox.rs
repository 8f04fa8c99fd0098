use z11n_core::mailbox::{append_encoded, drained_commands, MailboxStore};

fn store() -> MailboxStore {
    MailboxStore::new(sled::Config::new().temporary(true).open().unwrap())
}

#[test]
fn append_drain_round_trip() {
    let mut m = store();
    let cmds: Vec<Vec<u8>> = vec![vec![1], vec![2, 2], vec![], vec![3, 3, 3]];
    for c in &cmds {
        m.append("a1", c).unwrap();
    }
    assert_eq!(m.drain("a1").unwrap(), cmds);
    assert!(m.drain("a1").unwrap().is_empty());
}

#[test]
fn drain_of_absent_mailbox_is_empty() {
    let mut m = store();
    assert!(m.drain("nobody").unwrap().is_empty());
}

#[test]
fn mailboxes_are_per_agent() {
    let mut m = store();
    m.append("a1", b"x").unwrap();
    m.append("a2", b"y").unwrap();
    assert_eq!(m.drain("a2").unwrap(), vec![b"y".to_vec()]);
    assert_eq!(m.drain("a1").unwrap(), vec![b"x".to_vec()]);
}

#[test]
fn corrupted_mailbox_reads_as_empty_and_is_replaced() {
    let mut m = store();
    m.db.insert("a1", vec![0xff, 0xff, 0xff]).unwrap();
    m.append("a1", b"k").unwrap();
    assert_eq!(m.drain("a1").unwrap(), vec![b"k".to_vec()]);
    m.db.insert("a1", vec![0xfe]).unwrap();
    assert!(m.drain("a1").unwrap().is_empty());
    assert!(m.db.get("a1").unwrap().is_none());
}

#[test]
fn append_encoded_extends_the_stored_list() {
    let first = append_encoded(None, b"ab");
    assert_ne!(first, b"ab".to_vec());
    let second = append_encoded(Some(&first), b"c");
    assert_eq!(drained_commands(Some(&second)), vec![b"ab".to_vec(), b"c".to_vec()]);
    assert!(drained_commands(None).is_empty());
}

#[test]
fn concurrent_appends_lose_nothing() {
    let mut m = store();
    let rt = tokio::runtime::Builder::new_multi_thread().worker_threads(4).build().unwrap();
    let n: u8 = 64;
    rt.block_on(async {
        let mut handles = Vec::new();
        for i in 0..n {
            let db = m.db.clone();
            handles.push(tokio::task::spawn_blocking(move || {
                let mut m = MailboxStore::new(db);
                m.append("a1", &[i]).unwrap();
            }));
        }
        for h in handles {
            h.await.unwrap();
        }
    });
    let mut got = m.drain("a1").unwrap();
    assert_eq!(got.len(), n as usize);
    got.sort();
    let want: Vec<Vec<u8>> = (0..n).map(|i| vec![i]).collect();
    assert_eq!(got, want);
}
