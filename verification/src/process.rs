//! Processes and the parent/child forest built from them.

use std::collections::HashMap;
use std::collections::HashSet;
use vstd::prelude::*;

verus! {

broadcast use vstd::std_specs::hash::group_hash_axioms;

/// Minimal process information: pid, parent pid, owner uid and command name.
#[derive(Debug, Clone)]
pub struct Process {
    pub pid: i32,
    pub ppid: i32,
    pub uid: u32,
    pub name: String,
}

/// Whether some process in `procs` has pid `k`.
pub open spec fn has_pid(procs: Seq<Process>, k: i32) -> bool {
    exists|i: int| 0 <= i < procs.len() && #[trigger] procs[i].pid == k
}

/// The parent under which `p` is placed when the forest is built from `procs`:
/// pids 0 and 1 keep their own parent; a process that is its own parent, or
/// whose parent is not among `procs`, goes under pid 1.
pub open spec fn adopted_ppid(procs: Seq<Process>, p: Process) -> i32 {
    if p.pid == 0 || p.pid == 1 {
        p.ppid
    } else if p.ppid == p.pid || !has_pid(procs, p.ppid) {
        1
    } else {
        p.ppid
    }
}

/// `p` with its parent replaced by the one it is placed under.
pub open spec fn adopted(procs: Seq<Process>, p: Process) -> Process {
    Process { pid: p.pid, ppid: adopted_ppid(procs, p), uid: p.uid, name: p.name }
}

/// Whether some process in `procs` is placed under `k`.
pub open spec fn is_some_parent(procs: Seq<Process>, k: i32) -> bool {
    exists|i: int| 0 <= i < procs.len() && adopted_ppid(procs, #[trigger] procs[i]) == k
}

/// The pids, in input order, of the first `n` processes of `procs` that are
/// placed under `k`, leaving out `k` itself: a root placed under itself is not
/// its own child.
pub open spec fn kids_upto(procs: Seq<Process>, n: int, k: i32) -> Seq<i32>
    decreases n,
{
    if n <= 0 || n > procs.len() {
        Seq::empty()
    } else if adopted_ppid(procs, procs[n - 1]) == k && procs[n - 1].pid != k {
        kids_upto(procs, n - 1, k).push(procs[n - 1].pid)
    } else {
        kids_upto(procs, n - 1, k)
    }
}

/// The pids of all processes of `procs` other than `k` placed under `k`, in
/// input order.
pub open spec fn kids_of(procs: Seq<Process>, k: i32) -> Seq<i32> {
    kids_upto(procs, procs.len() as int, k)
}

/// A sequence of pids in ascending order.
pub open spec fn sorted(s: Seq<i32>) -> bool {
    forall|i: int, j: int| 0 <= i <= j < s.len() ==> s[i] <= s[j]
}

/// `i` is the last position in `procs` whose pid is `k`.
pub open spec fn last_with_pid(procs: Seq<Process>, i: int, k: i32) -> bool {
    &&& 0 <= i < procs.len()
    &&& procs[i].pid == k
    &&& forall|j: int| i < j < procs.len() ==> #[trigger] procs[j].pid != k
}

/// `pm` and `ch` are the process map and the children map built from `procs`:
/// `pm` maps each pid to its last process, re-parented; `ch` has an entry for
/// every pid and every parent, listing in ascending order the other pids
/// placed under it.
pub open spec fn built_from(
    procs: Seq<Process>,
    pm: Map<i32, Process>,
    ch: Map<i32, Vec<i32>>,
) -> bool {
    &&& forall|k: i32| #[trigger] pm.contains_key(k) <==> has_pid(procs, k)
    &&& forall|k: i32| #[trigger]
        pm.contains_key(k) ==> exists|i: int|
            last_with_pid(procs, i, k) && pm[k] == #[trigger] adopted(procs, procs[i])
    &&& forall|k: i32| #[trigger]
        ch.contains_key(k) <==> (has_pid(procs, k) || is_some_parent(procs, k))
    &&& forall|k: i32| #[trigger]
        ch.contains_key(k) ==> sorted(ch[k]@) && ch[k]@.to_multiset() == kids_of(
            procs,
            k,
        ).to_multiset()
}

/// Inserts `x` into the ascending `v`, keeping it ascending.
fn insert_sorted(v: &mut Vec<i32>, x: i32)
    requires
        sorted(old(v)@),
    ensures
        sorted(final(v)@),
        final(v)@.to_multiset() == old(v)@.to_multiset().insert(x),
{
    broadcast use vstd::seq_lib::to_multiset_insert;

    let mut pos: usize = 0;
    while pos < v.len() && v[pos] <= x
        invariant
            pos <= v.len(),
            v@ == old(v)@,
            sorted(v@),
            forall|j: int| 0 <= j < pos ==> v@[j] <= x,
        decreases v.len() - pos,
    {
        pos = pos + 1;
    }
    let ghost before = v@;
    v.insert(pos, x);
    assert forall|i: int, j: int| 0 <= i <= j < v@.len() implies v@[i] <= v@[j] by {
        if j < pos {
        } else if j == pos {
        } else if i < pos {
            assert(v@[j] == before[j - 1]);
        } else if i == pos {
            assert(v@[j] == before[j - 1]);
            assert(before[pos as int] > x);
        } else {
            assert(v@[i] == before[i - 1]);
            assert(v@[j] == before[j - 1]);
        }
    }
}

/// Builds the adjacency maps from a flat process list: pid to process, and
/// pid to its children's pids in ascending order. Processes whose parent is
/// themselves or is missing are re-parented to pid 1; pids 0 and 1 keep their
/// parent, and when that is themselves they are roots, not their own
/// children.
pub fn build_tree(processes: Vec<Process>) -> (r: (HashMap<i32, Process>, HashMap<i32, Vec<i32>>))
    ensures
        built_from(processes@, r.0@, r.1@),
{
    let ghost procs = processes@;
    let n = processes.len();
    let mut pid_set: HashSet<i32> = HashSet::new();
    let mut i: usize = 0;
    while i < n
        invariant
            n == procs.len(),
            procs == processes@,
            i <= n,
            forall|k: i32|
                pid_set@.contains(k) <==> exists|j: int| 0 <= j < i && #[trigger] procs[j].pid == k,
        decreases n - i,
    {
        pid_set.insert(processes[i].pid);
        i = i + 1;
    }
    assert forall|k: i32| pid_set@.contains(k) <==> has_pid(procs, k) by {}

    let mut proc_map: HashMap<i32, Process> = HashMap::new();
    let mut children: HashMap<i32, Vec<i32>> = HashMap::new();
    let mut i: usize = 0;
    while i < n
        invariant
            n == procs.len(),
            procs == processes@,
            i <= n,
            forall|k: i32| pid_set@.contains(k) <==> has_pid(procs, k),
            forall|k: i32| #[trigger]
                proc_map@.contains_key(k) <==> exists|j: int|
                    0 <= j < i && #[trigger] procs[j].pid == k,
            forall|k: i32| #[trigger]
                proc_map@.contains_key(k) ==> exists|j: int|
                    0 <= j < i && procs[j].pid == k && (forall|l: int|
                        j < l < i ==> #[trigger] procs[l].pid != k) && proc_map@[k]
                        == #[trigger] adopted(procs, procs[j]),
            forall|k: i32| #[trigger]
                children@.contains_key(k) <==> exists|j: int|
                    0 <= j < i && (#[trigger] procs[j].pid == k || adopted_ppid(procs, procs[j])
                        == k),
            forall|k: i32| #[trigger]
                children@.contains_key(k) ==> sorted(children@[k]@) && children@[k]@.to_multiset()
                    == kids_upto(procs, i as int, k).to_multiset(),
            forall|k: i32| !#[trigger] children@.contains_key(k) ==> kids_upto(procs, i as int, k)
                == Seq::<i32>::empty(),
        decreases n - i,
    {
        let p = &processes[i];
        let pid = p.pid;
        let ppid = if pid == 0 || pid == 1 {
            p.ppid
        } else if p.ppid == pid || !pid_set.contains(&p.ppid) {
            1
        } else {
            p.ppid
        };
        assert(ppid == adopted_ppid(procs, procs[i as int]));
        let ghost old_children = children@;
        let ghost old_map = proc_map@;
        proof {
            broadcast use vstd::seq_lib::to_multiset_build;
            assert forall|k: i32| #[trigger]
                kids_upto(procs, i + 1, k) == if k == ppid && pid != k {
                    kids_upto(procs, i as int, k).push(pid)
                } else {
                    kids_upto(procs, i as int, k)
                } by {}
        }

        let mut v = match children.remove(&ppid) {
            Some(v) => v,
            None => Vec::new(),
        };
        proof {
            if !old_children.contains_key(ppid) {
                assert(v@.to_multiset() =~= kids_upto(procs, i as int, ppid).to_multiset());
            }
        }
        if ppid != pid {
            insert_sorted(&mut v, pid);
        }
        children.insert(ppid, v);
        if !children.contains_key(&pid) {
            children.insert(pid, Vec::new());
        }
        proc_map.insert(
            pid,
            Process { pid, ppid, uid: p.uid, name: p.name.clone() },
        );
        proof {
            broadcast use vstd::seq_lib::to_multiset_build;
            assert forall|k: i32| #[trigger]
                children@.contains_key(k) <==> exists|j: int|
                    0 <= j < i + 1 && (#[trigger] procs[j].pid == k || adopted_ppid(
                        procs,
                        procs[j],
                    ) == k) by {
                if children@.contains_key(k) && k != ppid && k != pid {
                    assert(old_children.contains_key(k));
                }
                if exists|j: int|
                    0 <= j < i + 1 && (#[trigger] procs[j].pid == k || adopted_ppid(
                        procs,
                        procs[j],
                    ) == k) {
                    let j = choose|j: int|
                        0 <= j < i + 1 && (#[trigger] procs[j].pid == k || adopted_ppid(
                            procs,
                            procs[j],
                        ) == k);
                    if j < i {
                        assert(old_children.contains_key(k));
                    }
                }
            }
            assert forall|k: i32| #[trigger]
                proc_map@.contains_key(k) <==> exists|j: int|
                    0 <= j < i + 1 && #[trigger] procs[j].pid == k by {
                if proc_map@.contains_key(k) && k != pid {
                    assert(old_map.contains_key(k));
                }
                if exists|j: int| 0 <= j < i + 1 && #[trigger] procs[j].pid == k {
                    let j = choose|j: int| 0 <= j < i + 1 && #[trigger] procs[j].pid == k;
                    if j < i {
                        assert(old_map.contains_key(k));
                    }
                }
            }
            assert forall|k: i32| #[trigger]
                proc_map@.contains_key(k) implies exists|j: int|
                    0 <= j < i + 1 && procs[j].pid == k && (forall|l: int|
                        j < l < i + 1 ==> #[trigger] procs[l].pid != k) && proc_map@[k]
                        == #[trigger] adopted(procs, procs[j]) by {
                if k == pid {
                    assert(proc_map@[k] == adopted(procs, procs[i as int]));
                } else {
                    assert(old_map.contains_key(k));
                    let j = choose|j: int|
                        0 <= j < i && procs[j].pid == k && (forall|l: int|
                            j < l < i ==> #[trigger] procs[l].pid != k) && old_map[k]
                            == #[trigger] adopted(procs, procs[j]);
                    assert(procs[i as int].pid != k);
                    assert(0 <= j < i + 1 && procs[j].pid == k && (forall|l: int|
                        j < l < i + 1 ==> #[trigger] procs[l].pid != k) && proc_map@[k]
                        == adopted(procs, procs[j]));
                }
            }
            assert forall|k: i32| #[trigger]
                children@.contains_key(k) implies sorted(children@[k]@) && children@[k]@.to_multiset()
                    == kids_upto(procs, i + 1, k).to_multiset() by {
                if k == ppid {
                } else if k == pid && !old_children.contains_key(k) {
                    assert(children@[k]@ =~= Seq::<i32>::empty());
                    assert(children@[k]@.to_multiset() =~= kids_upto(procs, i + 1, k).to_multiset());
                } else {
                    assert(old_children.contains_key(k));
                }
            }
        }
        i = i + 1;
    }
    proof {
        assert(procs.len() == n);
        assert forall|k: i32| #[trigger]
            proc_map@.contains_key(k) implies exists|i: int|
                last_with_pid(procs, i, k) && proc_map@[k] == #[trigger] adopted(procs, procs[i]) by {
            let j = choose|j: int|
                0 <= j < n && procs[j].pid == k && (forall|l: int|
                    j < l < n ==> #[trigger] procs[l].pid != k) && proc_map@[k]
                    == #[trigger] adopted(procs, procs[j]);
            assert(last_with_pid(procs, j, k));
        }
        assert forall|k: i32| #[trigger]
            children@.contains_key(k) <==> (has_pid(procs, k) || is_some_parent(procs, k)) by {
            if has_pid(procs, k) {
                let j = choose|j: int| 0 <= j < procs.len() && #[trigger] procs[j].pid == k;
                assert(0 <= j < n && (procs[j].pid == k || adopted_ppid(procs, procs[j]) == k));
            }
            if is_some_parent(procs, k) {
                let j = choose|j: int|
                    0 <= j < procs.len() && adopted_ppid(procs, #[trigger] procs[j]) == k;
                assert(0 <= j < n && (procs[j].pid == k || adopted_ppid(procs, procs[j]) == k));
            }
        }
    }
    (proc_map, children)
}

/// Size in bytes of one Darwin `kinfo_proc` record.
pub const KINFO_PROC_SIZE: usize = 648;
/// Offset of `kp_proc.p_pid` in a record.
pub const OFFSET_PID: usize = 40;
/// Offset of `kp_proc.p_comm` in a record.
pub const OFFSET_COMM: usize = 243;
/// Offset of `kp_eproc.e_ppid` in a record.
pub const OFFSET_PPID: usize = 560;
/// Offset of `kp_eproc.e_ucred.cr_uid` in a record.
pub const OFFSET_UID: usize = 420;
/// Longest command name; the name field holds one byte more.
pub const MAXCOMLEN: usize = 16;

/// The unsigned value of the four bytes of `buf` at `off`, in the given
/// byte order.
pub open spec fn word_at(buf: Seq<u8>, off: int, little_endian: bool) -> int {
    let (b0, b1, b2, b3) = if little_endian {
        (buf[off], buf[off + 1], buf[off + 2], buf[off + 3])
    } else {
        (buf[off + 3], buf[off + 2], buf[off + 1], buf[off])
    };
    b0 as int + 256 * b1 as int + 65536 * b2 as int + 16777216 * b3 as int
}

/// The two's-complement reading of a 32-bit unsigned value.
pub open spec fn signed_word(u: int) -> int {
    if u >= 0x8000_0000 {
        u - 0x1_0000_0000
    } else {
        u
    }
}

/// Law: reading back a written word gives the written value. When the four
/// bytes at `off` are the bytes of `v`, least significant first, the
/// little-endian reading is `v`; when they are the same bytes most
/// significant first, the big-endian reading is `v`; and the signed reading
/// of a value written from a negative `i32` (as its two's-complement `u32`)
/// is that negative number.
pub proof fn lemma_word_round_trip(buf: Seq<u8>, off: int, v: u32)
    requires
        0 <= off,
        off + 4 <= buf.len(),
    ensures
        buf[off] == v % 256 && buf[off + 1] == (v / 256) % 256 && buf[off + 2] == (v / 65536) % 256
            && buf[off + 3] == v / 16777216 ==> word_at(buf, off, true) == v,
        buf[off + 3] == v % 256 && buf[off + 2] == (v / 256) % 256 && buf[off + 1] == (v / 65536) % 256
            && buf[off] == v / 16777216 ==> word_at(buf, off, false) == v,
        signed_word(v as int) == v as i32,
{
    assert((v % 256) + 256 * ((v / 256) % 256) + 65536 * ((v / 65536) % 256) + 16777216 * (v / 16777216) == v)
        by (bit_vector);
    assert(v as i32 == (if v >= 0x8000_0000 { v - 0x1_0000_0000 } else { v as int })) by (bit_vector);
}

/// The length of a NUL-terminated name held in `field`: the position of the
/// first zero byte, or the whole field when there is none.
pub open spec fn name_len(field: Seq<u8>) -> int {
    if exists|i: int| 0 <= i < field.len() && field[i] == 0 {
        choose|i: int| 0 <= i < field.len() && field[i] == 0 && forall|j: int| 0 <= j < i ==> field[j] != 0
    } else {
        field.len() as int
    }
}

/// The text that `String::from_utf8_lossy` makes of `bytes`.
pub uninterp spec fn lossy_text(bytes: Seq<u8>) -> Seq<char>;

/// Calls `String::from_utf8_lossy` and takes ownership of its result. The
/// contract claims that the text is `lossy_text` of the bytes, and that it is
/// their UTF-8 decoding when the bytes are valid UTF-8 (as the function's
/// documentation says); the replacement of invalid sequences is not stated.
#[verifier::external_body]
fn decode_lossy(bytes: &[u8]) -> (s: String)
    ensures
        s@ == lossy_text(bytes@),
        vstd::utf8::valid_utf8(bytes@) ==> s@ == vstd::utf8::decode_utf8(bytes@),
{
    String::from_utf8_lossy(bytes).into_owned()
}

/// The start of the `i`-th record.
pub open spec fn record_base(i: int) -> int {
    i * KINFO_PROC_SIZE
}

/// The name field (`MAXCOMLEN + 1` bytes) of the record at `base`.
pub open spec fn name_field(buf: Seq<u8>, base: int) -> Seq<u8> {
    buf.subrange(base + OFFSET_COMM, base + OFFSET_COMM + MAXCOMLEN + 1)
}

/// `p` is what the record at `base` of `buf` describes.
pub open spec fn decodes_record(buf: Seq<u8>, base: int, little_endian: bool, p: Process) -> bool {
    let field = name_field(buf, base);
    &&& p.pid as int == signed_word(word_at(buf, base + OFFSET_PID, little_endian))
    &&& p.ppid as int == signed_word(word_at(buf, base + OFFSET_PPID, little_endian))
    &&& p.uid as int == word_at(buf, base + OFFSET_UID, little_endian)
    &&& p.name@ == lossy_text(field.take(name_len(field)))
}

/// The four bytes at `off` read as an unsigned number.
fn read_word(buf: &[u8], off: usize, little_endian: bool) -> (r: u32)
    requires
        off + 4 <= buf.len(),
    ensures
        r as int == word_at(buf@, off as int, little_endian),
{
    let (b0, b1, b2, b3) = if little_endian {
        (buf[off], buf[off + 1], buf[off + 2], buf[off + 3])
    } else {
        (buf[off + 3], buf[off + 2], buf[off + 1], buf[off])
    };
    b0 as u32 + 256 * (b1 as u32) + 65536 * (b2 as u32) + 16777216 * (b3 as u32)
}

/// The two's-complement reading of `u`.
fn to_signed(u: u32) -> (r: i32)
    ensures
        r as int == signed_word(u as int),
{
    if u >= 0x8000_0000 {
        let w: i64 = u as i64 - 0x1_0000_0000;
        w as i32
    } else {
        u as i32
    }
}

/// Decodes a buffer of Darwin `kinfo_proc` records, as filled by
/// `sysctl(KERN_PROC_ALL)`, into processes: one per whole record, in order.
/// Numbers are read in the given byte order (the machine's own); the name is
/// the command name up to its first NUL, decoded as lossy UTF-8.
pub fn parse_kinfo_procs(buf: &[u8], little_endian: bool) -> (r: Vec<Process>)
    ensures
        r.len() == buf@.len() as int / KINFO_PROC_SIZE as int,
        forall|i: int|
            0 <= i < r.len() ==> decodes_record(buf@, record_base(i), little_endian, #[trigger] r[i]),
{
    let len = buf.len();
    let count = len / KINFO_PROC_SIZE;
    let mut out: Vec<Process> = Vec::new();
    let mut i: usize = 0;
    while i < count
        invariant
            count == buf@.len() as int / KINFO_PROC_SIZE as int,
            len == buf@.len(),
            i <= count,
            out.len() == i,
            forall|j: int|
                0 <= j < i ==> decodes_record(buf@, record_base(j), little_endian, #[trigger] out[j]),
        decreases count - i,
    {
        assert((i + 1) * KINFO_PROC_SIZE <= count * KINFO_PROC_SIZE) by (nonlinear_arith)
            requires i + 1 <= count;
        assert(count * KINFO_PROC_SIZE <= buf@.len()) by (nonlinear_arith)
            requires count == buf@.len() as int / KINFO_PROC_SIZE as int;
        let base = i * KINFO_PROC_SIZE;
        let pid = to_signed(read_word(buf, base + OFFSET_PID, little_endian));
        let ppid = to_signed(read_word(buf, base + OFFSET_PPID, little_endian));
        let uid = read_word(buf, base + OFFSET_UID, little_endian);
        let start = base + OFFSET_COMM;
        let ghost field = name_field(buf@, base as int);
        let mut nul: usize = 0;
        while nul < MAXCOMLEN + 1 && buf[start + nul] != 0
            invariant
                nul <= MAXCOMLEN + 1,
                len == buf@.len(),
                start + MAXCOMLEN + 1 <= len,
                field == buf@.subrange(start as int, start + MAXCOMLEN + 1),
                forall|j: int| 0 <= j < nul ==> field[j] != 0,
            decreases MAXCOMLEN + 1 - nul,
        {
            nul = nul + 1;
        }
        proof {
            if nul < MAXCOMLEN + 1 {
                assert(field[nul as int] == 0);
                let c = choose|c: int|
                    0 <= c < field.len() && field[c] == 0 && forall|j: int| 0 <= j < c ==> field[j] != 0;
                assert(c == nul) by {
                    if c < nul {
                        assert(field[c] != 0);
                    } else if c > nul {
                        assert(field[nul as int] != 0);
                    }
                }
            } else {
                assert(!exists|c: int| 0 <= c < field.len() && field[c] == 0);
            }
            assert(name_len(field) == nul);
        }
        let name_bytes = vstd::slice::slice_subrange(buf, start, start + nul);
        assert(name_bytes@ =~= field.take(nul as int));
        let name = decode_lossy(name_bytes);
        out.push(Process { pid, ppid, uid, name });
        i = i + 1;
    }
    out
}

/// What `sysctl(KERN_PROC_ALL)` reported on one attempt to fill the buffer.
pub enum FetchOutcome {
    /// It succeeded and wrote this many bytes.
    Filled(usize),
    /// It failed because the buffer was too small (`ENOMEM`).
    NoMemory,
    /// It failed for another reason.
    Failed,
}

/// What to do next with the buffer.
pub enum FetchStep {
    /// Keep the first this many bytes and stop.
    Done(usize),
    /// Resize the buffer to this many bytes and try again.
    Grow(usize),
    /// Give up and report the error.
    Abort,
}

/// The size of the first buffer, given the size that the system reported:
/// room for sixteen records more.
pub fn initial_capacity(size: usize) -> (r: usize)
    requires
        size + KINFO_PROC_SIZE * 16 <= usize::MAX,
    ensures
        r == size + KINFO_PROC_SIZE * 16,
{
    size + KINFO_PROC_SIZE * 16
}

/// The step that follows an attempt to fill a buffer of `buf_len` bytes:
/// on success keep what was written, on `ENOMEM` grow by sixty-four records,
/// otherwise give up.
pub fn next_fetch_step(buf_len: usize, outcome: FetchOutcome) -> (r: FetchStep)
    requires
        outcome is NoMemory ==> buf_len + KINFO_PROC_SIZE * 64 <= usize::MAX,
    ensures
        match outcome {
            FetchOutcome::Filled(n) => r == FetchStep::Done(if n < buf_len { n } else { buf_len }),
            FetchOutcome::NoMemory => r == FetchStep::Grow((buf_len + KINFO_PROC_SIZE * 64) as usize),
            FetchOutcome::Failed => r is Abort,
        },
{
    match outcome {
        FetchOutcome::Filled(n) => FetchStep::Done(if n < buf_len { n } else { buf_len }),
        FetchOutcome::NoMemory => FetchStep::Grow(buf_len + KINFO_PROC_SIZE * 64),
        FetchOutcome::Failed => FetchStep::Abort,
    }
}

/// No two processes of `procs` share a pid.
pub open spec fn distinct_pids(procs: Seq<Process>) -> bool {
    forall|i: int, j: int|
        0 <= i < procs.len() && 0 <= j < procs.len() && #[trigger] procs[i].pid == #[trigger] procs[j].pid
            ==> i == j
}

/// The pids placed under `q` among the first `n` processes are those of the
/// processes there whose parent is `q`.
proof fn lemma_kids_upto_contains(procs: Seq<Process>, n: int, q: i32, x: i32)
    requires
        0 <= n <= procs.len(),
    ensures
        kids_upto(procs, n, q).contains(x) <==> x != q && exists|i: int|
            0 <= i < n && #[trigger] procs[i].pid == x && adopted_ppid(procs, procs[i]) == q,
    decreases n,
{
    if n > 0 {
        lemma_kids_upto_contains(procs, n - 1, q, x);
        let prev = kids_upto(procs, n - 1, q);
        if adopted_ppid(procs, procs[n - 1]) == q && procs[n - 1].pid != q {
            let cur = prev.push(procs[n - 1].pid);
            assert(cur[cur.len() - 1] == procs[n - 1].pid);
            if cur.contains(x) {
                let j = choose|j: int| 0 <= j < cur.len() && cur[j] == x;
                if j < prev.len() {
                    assert(prev[j] == x);
                }
            }
            if prev.contains(x) {
                let j = choose|j: int| 0 <= j < prev.len() && prev[j] == x;
                assert(cur[j] == x);
            }
        }
    }
}

/// Law: in the forest built from any process list, every known process has
/// a children entry of its own and is listed among the children of the parent
/// it is placed under, unless that parent is itself; no pid is listed among
/// its own children; apart from pids 0 and 1, no process is its own parent,
/// and every parent is a known process or 1. When no two processes share a
/// pid, every listed child is a known process whose parent is the entry it
/// is listed under.
pub proof fn lemma_tree_links(procs: Seq<Process>, pm: Map<i32, Process>, ch: Map<i32, Vec<i32>>)
    requires
        built_from(procs, pm, ch),
    ensures
        forall|k: i32| #[trigger]
            pm.contains_key(k) ==> ch.contains_key(k) && ch.contains_key(pm[k].ppid) && (pm[k].ppid != k
                ==> ch[pm[k].ppid]@.contains(k)),
        forall|k: i32| #[trigger] ch.contains_key(k) ==> !ch[k]@.contains(k),
        forall|k: i32| #[trigger]
            pm.contains_key(k) && k != 0 && k != 1 ==> pm[k].ppid != k && (pm[k].ppid == 1
                || pm.contains_key(pm[k].ppid)),
        distinct_pids(procs) ==> forall|p: i32, j: int|
            ch.contains_key(p) && 0 <= j < ch[p]@.len() ==> pm.contains_key(#[trigger] ch[p]@[j])
                && pm[ch[p]@[j]].ppid == p,
{
    broadcast use vstd::seq_lib::to_multiset_contains;

    assert forall|k: i32| #[trigger] pm.contains_key(k) implies ch.contains_key(k) && ch.contains_key(pm[k].ppid)
        && (pm[k].ppid != k ==> ch[pm[k].ppid]@.contains(k)) by {
        let i = choose|i: int| last_with_pid(procs, i, k) && pm[k] == #[trigger] adopted(procs, procs[i]);
        let q = adopted_ppid(procs, procs[i]);
        assert(is_some_parent(procs, q));
        assert(has_pid(procs, k));
        assert(pm[k].ppid == q);
        assert(ch.contains_key(q));
        assert(ch.contains_key(k));
        if q != k {
            lemma_kids_upto_contains(procs, procs.len() as int, q, k);
            assert(kids_of(procs, q).contains(k));
            assert(kids_of(procs, q).to_multiset().count(k) > 0);
            assert(ch[q]@.to_multiset() == kids_of(procs, q).to_multiset());
            assert(ch[q]@.to_multiset().count(k) > 0);
        }
    }
    assert forall|k: i32| #[trigger] ch.contains_key(k) implies !ch[k]@.contains(k) by {
        lemma_kids_upto_contains(procs, procs.len() as int, k, k);
        assert(ch[k]@.to_multiset() == kids_of(procs, k).to_multiset());
        assert(ch[k]@.contains(k) <==> ch[k]@.to_multiset().count(k) > 0);
        assert(kids_of(procs, k).contains(k) <==> kids_of(procs, k).to_multiset().count(k) > 0);
    }
    assert forall|k: i32| #[trigger] pm.contains_key(k) && k != 0 && k != 1 implies pm[k].ppid != k && (pm[k].ppid == 1
        || pm.contains_key(pm[k].ppid)) by {
        let i = choose|i: int| last_with_pid(procs, i, k) && pm[k] == #[trigger] adopted(procs, procs[i]);
    }
    if distinct_pids(procs) {
        assert forall|p: i32, j: int| ch.contains_key(p) && 0 <= j < ch[p]@.len() implies pm.contains_key(
            #[trigger] ch[p]@[j],
        ) && pm[ch[p]@[j]].ppid == p by {
            let c = ch[p]@[j];
            assert(ch[p]@.contains(c));
            assert(ch[p]@.to_multiset().count(c) > 0);
            assert(kids_of(procs, p).contains(c));
            lemma_kids_upto_contains(procs, procs.len() as int, p, c);
            let i = choose|i: int|
                0 <= i < procs.len() && #[trigger] procs[i].pid == c && adopted_ppid(procs, procs[i]) == p;
            assert(has_pid(procs, c));
            assert(pm.contains_key(c));
            let l = choose|l: int| last_with_pid(procs, l, c) && pm[c] == #[trigger] adopted(procs, procs[l]);
            assert(procs[l].pid == procs[i].pid);
        }
    }
}

/// With distinct pids, no pid is placed twice under the same parent.
proof fn lemma_kids_no_duplicates(procs: Seq<Process>, n: int, q: i32)
    requires
        distinct_pids(procs),
        0 <= n <= procs.len(),
    ensures
        kids_upto(procs, n, q).no_duplicates(),
    decreases n,
{
    if n > 0 {
        lemma_kids_no_duplicates(procs, n - 1, q);
        let prev = kids_upto(procs, n - 1, q);
        if adopted_ppid(procs, procs[n - 1]) == q && procs[n - 1].pid != q {
            let x = procs[n - 1].pid;
            lemma_kids_upto_contains(procs, n - 1, q, x);
            if prev.contains(x) {
                let i = choose|i: int| 0 <= i < n - 1 && #[trigger] procs[i].pid == x && adopted_ppid(procs, procs[i]) == q;
                assert(procs[i].pid == procs[n - 1].pid);
            }
            let cur = prev.push(x);
            assert forall|a: int, b: int| 0 <= a < cur.len() && 0 <= b < cur.len() && a != b implies cur[a] != cur[b] by {
                if a < prev.len() && b < prev.len() {
                } else if a < prev.len() {
                    assert(prev.contains(cur[a]));
                } else if b < prev.len() {
                    assert(prev.contains(cur[b]));
                }
            }
        }
    }
}

/// With distinct pids, the pids placed under `q`, as a multiset, are those
/// of the processes placed under `q`, once each.
proof fn lemma_kids_count(procs: Seq<Process>, q: i32, x: i32)
    requires
        distinct_pids(procs),
    ensures
        kids_of(procs, q).to_multiset().count(x) == if x != q && exists|i: int|
            0 <= i < procs.len() && #[trigger] procs[i].pid == x && adopted_ppid(procs, procs[i]) == q {
            1nat
        } else {
            0nat
        },
{
    broadcast use vstd::seq_lib::to_multiset_contains;

    let s = kids_of(procs, q);
    lemma_kids_no_duplicates(procs, procs.len() as int, q);
    s.lemma_multiset_has_no_duplicates();
    lemma_kids_upto_contains(procs, procs.len() as int, q, x);
    assert(s.contains(x) <==> s.to_multiset().count(x) > 0);
}

/// Law: when no two processes share a pid, building the forest does not
/// depend on their order: any reordering of the list gives the same process
/// map and the same children lists.
pub proof fn lemma_build_order_free(
    ps: Seq<Process>,
    ps2: Seq<Process>,
    pm1: Map<i32, Process>,
    ch1: Map<i32, Vec<i32>>,
    pm2: Map<i32, Process>,
    ch2: Map<i32, Vec<i32>>,
)
    requires
        distinct_pids(ps),
        ps2.to_multiset() == ps.to_multiset(),
        built_from(ps, pm1, ch1),
        built_from(ps2, pm2, ch2),
    ensures
        pm1 == pm2,
        ch1.dom() == ch2.dom(),
        forall|k: i32| #[trigger] ch1.contains_key(k) ==> ch1[k]@ == ch2[k]@,
{
    broadcast use vstd::seq_lib::to_multiset_contains;

    // The same processes occur in both lists.
    assert forall|p: Process| #![trigger ps.contains(p)] #![trigger ps2.contains(p)] ps.contains(p) <==> ps2.contains(p) by {
        vstd::seq_lib::to_multiset_contains(ps, p);
        vstd::seq_lib::to_multiset_contains(ps2, p);
    }
    assert forall|k: i32| #[trigger] has_pid(ps, k) <==> has_pid(ps2, k) by {
        if has_pid(ps, k) {
            let i = choose|i: int| 0 <= i < ps.len() && #[trigger] ps[i].pid == k;
            assert(ps.contains(ps[i]));
            let j = choose|j: int| 0 <= j < ps2.len() && ps2[j] == ps[i];
            assert(ps2[j].pid == k);
        }
        if has_pid(ps2, k) {
            let j = choose|j: int| 0 <= j < ps2.len() && #[trigger] ps2[j].pid == k;
            assert(ps2.contains(ps2[j]));
            let i = choose|i: int| 0 <= i < ps.len() && ps[i] == ps2[j];
            assert(ps[i].pid == k);
        }
    }
    assert forall|p: Process| #[trigger] adopted_ppid(ps, p) == adopted_ppid(ps2, p) by {
        assert(has_pid(ps, p.ppid) == has_pid(ps2, p.ppid));
    }

    // The reordered list has distinct pids too.
    assert(ps.no_duplicates()) by {
        assert forall|i: int, j: int| 0 <= i < ps.len() && 0 <= j < ps.len() && i != j implies ps[i] != ps[j] by {
            if ps[i] == ps[j] {
                assert(ps[i].pid == ps[j].pid);
            }
        }
    }
    ps.lemma_multiset_has_no_duplicates();
    ps2.lemma_multiset_has_no_duplicates_conv();
    assert(distinct_pids(ps2)) by {
        assert forall|i: int, j: int|
            0 <= i < ps2.len() && 0 <= j < ps2.len() && #[trigger] ps2[i].pid == #[trigger] ps2[j].pid
            implies i == j by {
            assert(ps2.contains(ps2[i]));
            assert(ps2.contains(ps2[j]));
            let a = choose|a: int| 0 <= a < ps.len() && ps[a] == ps2[i];
            let b = choose|b: int| 0 <= b < ps.len() && ps[b] == ps2[j];
            assert(ps[a].pid == ps[b].pid);
        }
    }

    // The process maps agree.
    assert forall|k: i32| #[trigger] pm1.contains_key(k) implies pm2.contains_key(k) && pm1[k] == pm2[k] by {
        let i = choose|i: int| last_with_pid(ps, i, k) && pm1[k] == #[trigger] adopted(ps, ps[i]);
        assert(has_pid(ps, k));
        assert(pm2.contains_key(k));
        let j = choose|j: int| last_with_pid(ps2, j, k) && pm2[k] == #[trigger] adopted(ps2, ps2[j]);
        assert(ps2.contains(ps2[j]));
        let a = choose|a: int| 0 <= a < ps.len() && ps[a] == ps2[j];
        assert(ps[a].pid == ps[i].pid);
        assert(adopted_ppid(ps, ps[i]) == adopted_ppid(ps2, ps[i]));
    }
    assert forall|k: i32| #[trigger] pm2.contains_key(k) implies pm1.contains_key(k) by {
        assert(has_pid(ps2, k));
    }
    assert(pm1 =~= pm2);

    // The children maps have the same entries.
    assert forall|k: i32| #[trigger] is_some_parent(ps, k) <==> is_some_parent(ps2, k) by {
        if is_some_parent(ps, k) {
            let i = choose|i: int| 0 <= i < ps.len() && adopted_ppid(ps, #[trigger] ps[i]) == k;
            assert(ps.contains(ps[i]));
            let j = choose|j: int| 0 <= j < ps2.len() && ps2[j] == ps[i];
            assert(adopted_ppid(ps2, ps2[j]) == k);
        }
        if is_some_parent(ps2, k) {
            let j = choose|j: int| 0 <= j < ps2.len() && adopted_ppid(ps2, #[trigger] ps2[j]) == k;
            assert(ps2.contains(ps2[j]));
            let i = choose|i: int| 0 <= i < ps.len() && ps[i] == ps2[j];
            assert(adopted_ppid(ps, ps[i]) == k);
        }
    }
    assert forall|k: i32| #[trigger] ch1.contains_key(k) <==> ch2.contains_key(k) by {}
    assert(ch1.dom() =~= ch2.dom());

    // Each children list is the same sorted list.
    assert forall|k: i32| #[trigger] ch1.contains_key(k) implies ch1[k]@ == ch2[k]@ by {
        assert forall|x: i32| kids_of(ps, k).to_multiset().count(x) == kids_of(ps2, k).to_multiset().count(x) by {
            lemma_kids_count(ps, k, x);
            lemma_kids_count(ps2, k, x);
            if exists|i: int| 0 <= i < ps.len() && #[trigger] ps[i].pid == x && adopted_ppid(ps, ps[i]) == k {
                let i = choose|i: int| 0 <= i < ps.len() && #[trigger] ps[i].pid == x && adopted_ppid(ps, ps[i]) == k;
                assert(ps.contains(ps[i]));
                let j = choose|j: int| 0 <= j < ps2.len() && ps2[j] == ps[i];
                assert(ps2[j].pid == x && adopted_ppid(ps2, ps2[j]) == k);
            }
            if exists|j: int| 0 <= j < ps2.len() && #[trigger] ps2[j].pid == x && adopted_ppid(ps2, ps2[j]) == k {
                let j = choose|j: int| 0 <= j < ps2.len() && #[trigger] ps2[j].pid == x && adopted_ppid(ps2, ps2[j]) == k;
                assert(ps2.contains(ps2[j]));
                let i = choose|i: int| 0 <= i < ps.len() && ps[i] == ps2[j];
                assert(ps[i].pid == x && adopted_ppid(ps, ps[i]) == k);
            }
        }
        assert(kids_of(ps, k).to_multiset() =~= kids_of(ps2, k).to_multiset());
        let leq = |a: i32, b: i32| a <= b;
        assert(vstd::relations::total_ordering(leq));
        assert(vstd::relations::sorted_by(ch1[k]@, leq));
        assert(vstd::relations::sorted_by(ch2[k]@, leq));
        vstd::seq_lib::lemma_sorted_unique(ch1[k]@, ch2[k]@, leq);
    }
}

} // verus!
