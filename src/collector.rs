use vstd::prelude::*;
use crate::syscall::{SyscallInfo, SnapshotModel, batch_model};
use crate::text::{int_text, trimmed, push_all, push_decimal, trim_text, parse_i32, parsed_i32};

verus! {

/// What one process yielded in a round: its pid, and the raw content of its
/// syscall-state file, or `None` where the file was absent or could not be read.
pub struct ProcessRead {
    pub pid: i32,
    pub content: Option<String>,
}

pub struct ReadModel {
    pub pid: int,
    pub content: Option<Seq<char>>,
}

impl View for ProcessRead {
    type V = ReadModel;

    open spec fn view(&self) -> ReadModel {
        ReadModel {
            pid: self.pid as int,
            content: match self.content {
                Some(c) => Some(c@),
                None => None,
            },
        }
    }
}

pub open spec fn reads_model(r: Seq<ProcessRead>) -> Seq<ReadModel> {
    r.map_values(|x: ProcessRead| x@)
}

/// The snapshot made of a pid and its already trimmed line: none for a
/// non-positive pid or an empty line.
pub open spec fn snapshot_from_line(pid: int, line: Seq<char>) -> Option<SnapshotModel> {
    if pid > 0 && line.len() > 0 {
        Some(SnapshotModel { pid, line })
    } else {
        None
    }
}

/// The snapshot that one process's read yields.
pub open spec fn snapshot_of_read(r: ReadModel) -> Option<SnapshotModel> {
    match r.content {
        Some(c) => snapshot_from_line(r.pid, trimmed(c)),
        None => None,
    }
}

/// The batch of a round: the snapshots of the reads that yield one, in the
/// order of the reads.
pub open spec fn batch_of_reads(reads: Seq<ReadModel>) -> Seq<SnapshotModel>
    decreases reads.len(),
{
    if reads.len() == 0 {
        Seq::empty()
    } else {
        let prev = batch_of_reads(reads.drop_last());
        match snapshot_of_read(reads.last()) {
            Some(s) => prev.push(s),
            None => prev,
        }
    }
}

/// The path of the syscall-state pseudo-file of a process.
pub open spec fn state_path_text(pid: int) -> Seq<char> {
    seq!['/', 'p', 'r', 'o', 'c', '/'] + int_text(pid) + seq![
        '/',
        's',
        'y',
        's',
        'c',
        'a',
        'l',
        'l',
    ]
}

/// The process id that a process-table entry name stands for: the name read
/// as a decimal `i32`, kept only where positive.
pub open spec fn pid_of_entry(name: Seq<char>) -> Option<i32> {
    match parsed_i32(name) {
        Some(v) => if v > 0 {
            Some(v)
        } else {
            None
        },
        None => None,
    }
}

/// The process id named by an entry of the process table, if it names one.
pub fn pid_from_entry_name(name: &str) -> (r: Option<i32>)
    ensures
        r == pid_of_entry(name@),
{
    match parse_i32(name) {
        Some(v) => if v > 0 {
            Some(v)
        } else {
            None
        },
        None => None,
    }
}

/// The path of the syscall-state pseudo-file of process `pid`.
pub fn syscall_state_path(pid: i32) -> (r: String)
    ensures
        r@ == state_path_text(pid as int),
{
    let mut out = String::new();
    push_all(&mut out, &['/', 'p', 'r', 'o', 'c', '/']);
    push_decimal(&mut out, pid as i64);
    push_all(&mut out, &['/', 's', 'y', 's', 'c', 'a', 'l', 'l']);
    assert(out@ =~= state_path_text(pid as int));
    out
}

/// The snapshot made of a pid and its trimmed line.
pub fn snapshot_from_trimmed(pid: i32, line: String) -> (r: Option<SyscallInfo>)
    ensures
        match r {
            Some(s) => snapshot_from_line(pid as int, line@) == Some(s@),
            None => snapshot_from_line(pid as int, line@) is None,
        },
{
    if pid > 0 && !line.as_str().is_empty() {
        Some(SyscallInfo { pid, syscall_line: line })
    } else {
        None
    }
}

/// The snapshot that one process's read yields: its content trimmed, where
/// the pid is positive and something is left.
pub fn snapshot_of(read: &ProcessRead) -> (r: Option<SyscallInfo>)
    ensures
        match r {
            Some(s) => snapshot_of_read(read@) == Some(s@),
            None => snapshot_of_read(read@) is None,
        },
{
    match &read.content {
        Some(c) => {
            let line = trim_text(c.as_str());
            snapshot_from_trimmed(read.pid, line)
        },
        None => None,
    }
}

/// Gathers a round's batch from the reads of every process: one snapshot for
/// each read that yields one, in the order of the reads.
pub fn assemble_batch(reads: &Vec<ProcessRead>) -> (r: Vec<SyscallInfo>)
    ensures
        batch_model(r@) == batch_of_reads(reads_model(reads@)),
{
    let mut out: Vec<SyscallInfo> = Vec::new();
    let mut i: usize = 0;
    while i < reads.len()
        invariant
            i <= reads@.len(),
            batch_model(out@) == batch_of_reads(reads_model(reads@.subrange(0, i as int))),
        decreases reads@.len() - i,
    {
        let ghost before = out@;
        let snap = snapshot_of(&reads[i]);
        let ghost pre = reads_model(reads@.subrange(0, i as int));
        let ghost post = reads_model(reads@.subrange(0, i + 1));
        assert(post.drop_last() =~= pre);
        assert(post.last() == reads@[i as int]@);
        match snap {
            Some(s) => {
                out.push(s);
                assert(batch_model(out@) =~= batch_model(before).push(s@));
            },
            None => {},
        }
        i = i + 1;
    }
    assert(reads@.subrange(0, reads@.len() as int) =~= reads@);
    out
}

/// Every snapshot of a batch comes from a read of the same pid that had
/// content: no snapshot is ever made for a process whose state could not be
/// read.
pub proof fn lemma_batch_from_readable(reads: Seq<ReadModel>, j: int)
    requires
        0 <= j < batch_of_reads(reads).len(),
    ensures
        exists|i: int|
            0 <= i < reads.len() && (#[trigger] reads[i]).pid == batch_of_reads(reads)[j].pid
                && reads[i].content is Some,
    decreases reads.len(),
{
    let prev = batch_of_reads(reads.drop_last());
    let last = reads.len() - 1;
    if j < prev.len() {
        lemma_batch_from_readable(reads.drop_last(), j);
        let i = choose|i: int|
            0 <= i < reads.drop_last().len() && (#[trigger] reads.drop_last()[i]).pid
                == prev[j].pid && reads.drop_last()[i].content is Some;
        assert(reads[i] == reads.drop_last()[i]);
    } else {
        assert(reads[last] == reads.last());
    }
}

/// A process id none of whose reads had content has no snapshot in the batch.
pub proof fn lemma_unreadable_never_in_batch(reads: Seq<ReadModel>, pid: int)
    requires
        forall|i: int| 0 <= i < reads.len() && (#[trigger] reads[i]).pid == pid ==> reads[i].content is None,
    ensures
        forall|j: int| 0 <= j < batch_of_reads(reads).len() ==> (#[trigger] batch_of_reads(reads)[j]).pid != pid,
{
    assert forall|j: int| 0 <= j < batch_of_reads(reads).len() implies (#[trigger] batch_of_reads(reads)[j]).pid != pid by {
        lemma_batch_from_readable(reads, j);
    }
}

/// Every snapshot of a batch has a positive pid and a non-empty line.
pub proof fn lemma_batch_valid(reads: Seq<ReadModel>)
    ensures
        forall|j: int| 0 <= j < batch_of_reads(reads).len() ==> (#[trigger] batch_of_reads(reads)[j]).is_valid(),
    decreases reads.len(),
{
    if reads.len() > 0 {
        lemma_batch_valid(reads.drop_last());
        let prev = batch_of_reads(reads.drop_last());
        let b = batch_of_reads(reads);
        assert forall|j: int| 0 <= j < b.len() implies (#[trigger] b[j]).is_valid() by {
            if j < prev.len() {
                assert(b[j] == prev[j]);
            }
        }
    }
}

} // verus!
