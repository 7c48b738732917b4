use pstree::process::{
    build_tree, initial_capacity, next_fetch_step, parse_kinfo_procs, FetchOutcome, FetchStep, Process,
    KINFO_PROC_SIZE, OFFSET_COMM, OFFSET_PID, OFFSET_PPID, OFFSET_UID,
};

fn make_proc(pid: i32, ppid: i32) -> Process {
    Process { pid, ppid, uid: 0, name: format!("proc{}", pid) }
}

#[test]
fn orphan_reparented_to_1() {
    // pid 99 has ppid 50 which doesn't exist → should be reparented to 1.
    let procs = vec![make_proc(1, 0), make_proc(99, 50)];
    let (pm, ch) = build_tree(procs);
    assert_eq!(pm[&99].ppid, 1);
    assert!(ch[&1].contains(&99));
}

#[test]
fn children_are_sorted() {
    let procs = vec![make_proc(1, 0), make_proc(5, 1), make_proc(2, 1), make_proc(3, 1)];
    let (_, ch) = build_tree(procs);
    assert_eq!(ch[&1], vec![2, 3, 5]);
}

#[test]
fn all_entries_have_children_key() {
    let procs = vec![make_proc(1, 0), make_proc(2, 1)];
    let (_, ch) = build_tree(procs);
    assert!(ch.contains_key(&1));
    assert!(ch.contains_key(&2));
}

#[test]
fn self_parent_reparented_but_roots_kept() {
    let procs = vec![make_proc(0, 0), make_proc(1, 0), make_proc(7, 7), make_proc(8, 0)];
    let (pm, ch) = build_tree(procs);
    assert_eq!(pm[&0].ppid, 0);
    assert_eq!(pm[&1].ppid, 0);
    assert_eq!(pm[&7].ppid, 1);
    assert_eq!(pm[&8].ppid, 0);
    assert_eq!(ch[&0], vec![1, 8]);
    assert_eq!(ch[&1], vec![7]);
    assert_eq!(ch[&7], Vec::<i32>::new());
    assert_eq!(ch.len(), 4);
}

#[test]
fn missing_parent_zero_reparented_to_1() {
    let procs = vec![make_proc(5, 0)];
    let (pm, ch) = build_tree(procs);
    assert_eq!(pm[&5].ppid, 1);
    assert_eq!(ch[&1], vec![5]);
    assert!(!ch.contains_key(&0));
}

#[test]
fn pid_one_keeps_missing_parent() {
    let procs = vec![make_proc(1, 40)];
    let (pm, ch) = build_tree(procs);
    assert_eq!(pm[&1].ppid, 40);
    assert_eq!(ch[&40], vec![1]);
    assert!(!pm.contains_key(&40));
}

#[test]
fn duplicate_pid_last_one_wins() {
    let mut a = make_proc(5, 1);
    a.uid = 10;
    let mut b = make_proc(5, 3);
    b.uid = 20;
    let procs = vec![make_proc(1, 0), make_proc(3, 1), a, b];
    let (pm, ch) = build_tree(procs);
    assert_eq!(pm[&5].uid, 20);
    assert_eq!(pm[&5].ppid, 3);
    assert_eq!(ch[&1], vec![3, 5]);
    assert_eq!(ch[&3], vec![5]);
}

#[test]
fn every_process_listed_under_its_parent() {
    let procs = vec![make_proc(1, 0), make_proc(4, 2), make_proc(2, 1), make_proc(9, 77), make_proc(3, 3)];
    let (pm, ch) = build_tree(procs);
    for (pid, p) in pm.iter() {
        assert!(ch.contains_key(pid));
        assert!(ch[&p.ppid].contains(pid));
        if *pid != 0 && *pid != 1 {
            assert_ne!(p.ppid, *pid);
            assert!(p.ppid == 1 || pm.contains_key(&p.ppid));
        }
    }
    for (parent, kids) in ch.iter() {
        for k in kids {
            assert_eq!(pm[k].ppid, *parent);
        }
    }
}

fn put_word(rec: &mut [u8], off: usize, v: u32) {
    rec[off..off + 4].copy_from_slice(&v.to_le_bytes());
}

fn record(pid: i32, ppid: i32, uid: u32, name: &[u8]) -> Vec<u8> {
    let mut rec = vec![0u8; KINFO_PROC_SIZE];
    put_word(&mut rec, OFFSET_PID, pid as u32);
    put_word(&mut rec, OFFSET_PPID, ppid as u32);
    put_word(&mut rec, OFFSET_UID, uid);
    rec[OFFSET_COMM..OFFSET_COMM + name.len()].copy_from_slice(name);
    rec
}

#[test]
fn kinfo_records_decoded() {
    let mut buf = record(1, 0, 0, b"launchd");
    buf.extend(record(-3, 1, 501, b"bash"));
    buf.extend(vec![7u8; 100]); // a partial record is ignored
    let procs = parse_kinfo_procs(&buf, true);
    assert_eq!(procs.len(), 2);
    assert_eq!(procs[0].pid, 1);
    assert_eq!(procs[0].ppid, 0);
    assert_eq!(procs[0].name, "launchd");
    assert_eq!(procs[1].pid, -3);
    assert_eq!(procs[1].ppid, 1);
    assert_eq!(procs[1].uid, 501);
    assert_eq!(procs[1].name, "bash");
}

#[test]
fn kinfo_big_endian_words() {
    let mut rec = vec![0u8; KINFO_PROC_SIZE];
    rec[OFFSET_PID..OFFSET_PID + 4].copy_from_slice(&300u32.to_be_bytes());
    rec[OFFSET_UID..OFFSET_UID + 4].copy_from_slice(&0xfffffffeu32.to_be_bytes());
    let procs = parse_kinfo_procs(&rec, false);
    assert_eq!(procs[0].pid, 300);
    assert_eq!(procs[0].uid, 0xfffffffe);
    assert_eq!(procs[0].name, "");
}

#[test]
fn kinfo_name_fills_field_and_lossy() {
    let rec = record(2, 1, 0, b"abcdefghijklmnopq");
    assert_eq!(parse_kinfo_procs(&rec, true)[0].name, "abcdefghijklmnopq");
    let rec = record(2, 1, 0, &[b'a', 0xff, b'b']);
    assert_eq!(parse_kinfo_procs(&rec, true)[0].name, "a\u{fffd}b");
    assert!(parse_kinfo_procs(&[0u8; 647], true).is_empty());
}

#[test]
fn fetch_steps() {
    assert_eq!(initial_capacity(1000), 1000 + 648 * 16);
    match next_fetch_step(5000, FetchOutcome::Filled(1296)) {
        FetchStep::Done(n) => assert_eq!(n, 1296),
        _ => panic!("expected Done"),
    }
    match next_fetch_step(500, FetchOutcome::Filled(1296)) {
        FetchStep::Done(n) => assert_eq!(n, 500),
        _ => panic!("expected Done"),
    }
    match next_fetch_step(5000, FetchOutcome::NoMemory) {
        FetchStep::Grow(n) => assert_eq!(n, 5000 + 648 * 64),
        _ => panic!("expected Grow"),
    }
    assert!(matches!(next_fetch_step(5000, FetchOutcome::Failed), FetchStep::Abort));
}

#[test]
fn order_of_processes_does_not_matter() {
    let procs = vec![make_proc(1, 0), make_proc(4, 2), make_proc(2, 1), make_proc(9, 77), make_proc(3, 3)];
    let mut reversed = procs.clone();
    reversed.reverse();
    let (pm1, ch1) = build_tree(procs);
    let (pm2, ch2) = build_tree(reversed);
    assert_eq!(pm1.len(), pm2.len());
    for (pid, p) in pm1.iter() {
        let q = &pm2[pid];
        assert_eq!((p.pid, p.ppid, p.uid, &p.name), (q.pid, q.ppid, q.uid, &q.name));
    }
    assert_eq!(ch1, ch2);
}

#[test]
fn roots_are_not_their_own_children() {
    let procs = vec![make_proc(0, 0), make_proc(1, 1), make_proc(2, 1)];
    let (pm, ch) = build_tree(procs);
    assert_eq!(pm[&0].ppid, 0);
    assert_eq!(pm[&1].ppid, 1);
    assert_eq!(ch[&0], Vec::<i32>::new());
    assert_eq!(ch[&1], vec![2]);
    for (k, kids) in ch.iter() {
        assert!(!kids.contains(k));
    }
}
