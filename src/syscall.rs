use vstd::prelude::*;

verus! {

/// One process's syscall-restart state, as read at one moment.
#[derive(Clone, Debug)]
pub struct SyscallInfo {
    pub pid: i32,
    pub syscall_line: String,
}

/// The mathematical value of a snapshot.
pub struct SnapshotModel {
    pub pid: int,
    pub line: Seq<char>,
}

impl View for SyscallInfo {
    type V = SnapshotModel;

    open spec fn view(&self) -> SnapshotModel {
        SnapshotModel { pid: self.pid as int, line: self.syscall_line@ }
    }
}

impl SnapshotModel {
    /// A snapshot as the collector makes them: a positive pid, a non-empty line.
    pub open spec fn is_valid(self) -> bool {
        self.pid > 0 && self.line.len() > 0
    }
}

/// The model of a batch of snapshots, in the order held.
pub open spec fn batch_model(b: Seq<SyscallInfo>) -> Seq<SnapshotModel> {
    b.map_values(|s: SyscallInfo| s@)
}

} // verus!
