//! What the log asks of the file system, and what a crash may leave of it.

use vstd::prelude::*;

verus! {

/// One file operation of the log. The caller performs the steps that it is
/// given in order, and stops at the first that fails.
#[derive(Debug, PartialEq, Eq)]
pub enum FileStep {
    /// Overwrite the active segment from its first byte on.
    WriteFront(Vec<u8>),
    /// Write at the append point of the active segment, through the buffer.
    Append(Vec<u8>),
    /// Hand buffered bytes to the operating system.
    Drain,
    /// Force the data of the active segment to stable storage.
    SyncActive,
    /// Create the temporary segment anew with this content.
    WriteTemp(Vec<u8>),
    /// Force the data of the temporary segment to stable storage.
    SyncTemp,
    /// Put the temporary segment in the place of the active one, atomically.
    RenameTemp,
    /// Make a rename or a change of length durable in the directory.
    SyncDirectory,
    /// Cut the active segment to this length.
    Truncate(u64),
    /// Open the active segment anew, with the append point at this offset. What
    /// the writer's buffer held is given up.
    ReopenAt(u64),
}

/// A [`FileStep`] with its bytes as a sequence.
#[verifier::ext_equal]
pub enum StepView {
    WriteFront(Seq<u8>),
    Append(Seq<u8>),
    Drain,
    SyncActive,
    WriteTemp(Seq<u8>),
    SyncTemp,
    RenameTemp,
    SyncDirectory,
    Truncate(nat),
    ReopenAt(nat),
}

impl View for FileStep {
    type V = StepView;

    open spec fn view(&self) -> StepView {
        match self {
            FileStep::WriteFront(bytes) => StepView::WriteFront(bytes@),
            FileStep::Append(bytes) => StepView::Append(bytes@),
            FileStep::Drain => StepView::Drain,
            FileStep::SyncActive => StepView::SyncActive,
            FileStep::WriteTemp(bytes) => StepView::WriteTemp(bytes@),
            FileStep::SyncTemp => StepView::SyncTemp,
            FileStep::RenameTemp => StepView::RenameTemp,
            FileStep::SyncDirectory => StepView::SyncDirectory,
            FileStep::Truncate(len) => StepView::Truncate(*len as nat),
            FileStep::ReopenAt(at) => StepView::ReopenAt(*at as nat),
        }
    }
}

/// The steps of a plan.
pub open spec fn step_views(steps: Seq<FileStep>) -> Seq<StepView> {
    Seq::new(steps.len(), |i: int| steps[i]@)
}

/// The files of the log.
#[verifier::ext_equal]
pub struct Disk {
    /// The active segment, as a reader sees it.
    pub active: Seq<u8>,
    /// How many leading bytes of it are on stable storage.
    pub synced: nat,
    /// The temporary segment.
    pub temp: Seq<u8>,
    /// How many leading bytes of it are on stable storage.
    pub temp_synced: nat,
    /// What stood in the place of the active segment before a rename or a cut
    /// that is not durable yet, and how much of it is on stable storage.
    pub replaced: Option<(Seq<u8>, nat)>,
}

/// The files after a step.
pub open spec fn after_step(d: Disk, step: StepView) -> Disk {
    match step {
        StepView::WriteFront(bytes) => Disk {
            active: if d.active.len() <= bytes.len() {
                bytes
            } else {
                bytes + d.active.skip(bytes.len() as int)
            },
            synced: 0,
            ..d
        },
        StepView::Append(bytes) => Disk { active: d.active + bytes, ..d },
        StepView::SyncActive => Disk { synced: d.active.len(), ..d },
        StepView::WriteTemp(bytes) => Disk { temp: bytes, temp_synced: 0, ..d },
        StepView::SyncTemp => Disk { temp_synced: d.temp.len(), ..d },
        StepView::RenameTemp => Disk {
            active: d.temp,
            synced: d.temp_synced,
            replaced: Some((d.active, d.synced)),
            ..d
        },
        StepView::SyncDirectory => Disk { replaced: None, ..d },
        StepView::Truncate(len) => Disk {
            active: d.active.take(len as int),
            synced: if d.synced < len {
                d.synced
            } else {
                len
            },
            replaced: Some((d.active, d.synced)),
            ..d
        },
        StepView::Drain => d,
        StepView::ReopenAt(_) => d,
    }
}

/// The files after a sequence of steps.
pub open spec fn after_steps(d: Disk, steps: Seq<StepView>) -> Disk
    decreases steps.len(),
{
    if steps.len() == 0 {
        d
    } else {
        after_step(after_steps(d, steps.drop_last()), steps.last())
    }
}

/// Whether `image` is what stands of a file after a crash: all that was on
/// stable storage, and as much of what was written behind it as had reached the
/// disk, front first.
pub open spec fn torn(file: Seq<u8>, synced: nat, image: Seq<u8>) -> bool {
    exists|k: int| synced <= k <= file.len() && image == #[trigger] file.take(k)
}

/// Whether a crash may leave `image` as the active segment.
pub open spec fn may_survive(d: Disk, image: Seq<u8>) -> bool {
    ||| torn(d.active, d.synced, image)
    ||| d.replaced matches Some((file, synced)) && torn(file, synced, image)
}

/// The files of the log, and the writer that appends to the active segment.
///
/// [`after_step`] takes it that an append lands at the end of the active segment. Here
/// it lands where the writer is, once the writer's buffer is drained.
#[verifier::ext_equal]
pub struct Files {
    pub disk: Disk,
    /// Where in its file the writer goes on.
    pub point: nat,
    /// What was handed to the writer and may not have reached its file.
    pub buffer: Seq<u8>,
    /// Whether the writer's file is no longer the active segment.
    pub detached: bool,
}

/// So many zero bytes, which fill a gap in a file.
pub open spec fn zeros(n: nat) -> Seq<u8> {
    Seq::new(n, |i: int| 0u8)
}

/// A file after `bytes` were written at offset `at`: they overwrite what is there,
/// and a gap before them is filled with zero bytes.
pub open spec fn placed(file: Seq<u8>, at: nat, bytes: Seq<u8>) -> Seq<u8> {
    if bytes.len() == 0 {
        file
    } else if at > file.len() {
        file + zeros((at - file.len()) as nat) + bytes
    } else if at + bytes.len() < file.len() {
        file.take(at as int) + bytes + file.skip((at + bytes.len()) as int)
    } else {
        file.take(at as int) + bytes
    }
}

impl Files {
    /// The files once the writer's buffer has reached its file: what it overwrites is
    /// not on stable storage.
    pub open spec fn drained(self) -> Disk {
        if self.detached || self.buffer.len() == 0 {
            self.disk
        } else {
            Disk {
                active: placed(self.disk.active, self.point, self.buffer),
                synced: if self.disk.synced <= self.point {
                    self.disk.synced
                } else {
                    self.point
                },
                ..self.disk
            }
        }
    }

    /// Whether the writer is at the end of the active segment, with nothing in its
    /// buffer.
    pub open spec fn ready(self) -> bool {
        self.buffer.len() == 0 && !self.detached && self.point == self.disk.active.len()
    }

    /// The files and the writer after a step.
    pub open spec fn after_step(self, step: StepView) -> Files {
        match step {
            StepView::WriteFront(bytes) => Files {
                disk: after_step(self.disk, step),
                point: bytes.len(),
                ..self
            },
            StepView::Append(bytes) => Files { buffer: self.buffer + bytes, ..self },
            StepView::Drain => Files {
                disk: self.drained(),
                point: self.point + self.buffer.len(),
                buffer: Seq::empty(),
                ..self
            },
            StepView::SyncActive | StepView::Truncate(_) => Files {
                disk: if self.detached {
                    self.disk
                } else {
                    after_step(self.disk, step)
                },
                ..self
            },
            StepView::RenameTemp => Files {
                disk: after_step(self.drained(), step),
                detached: true,
                ..self
            },
            StepView::WriteTemp(_) | StepView::SyncTemp | StepView::SyncDirectory => Files {
                disk: after_step(self.disk, step),
                ..self
            },
            StepView::ReopenAt(at) => Files {
                point: at,
                buffer: Seq::empty(),
                detached: false,
                ..self
            },
        }
    }

    /// The files and the writer after a sequence of steps.
    pub open spec fn after(self, steps: Seq<StepView>) -> Files
        decreases steps.len(),
    {
        if steps.len() == 0 {
            self
        } else {
            self.after(steps.drop_last()).after_step(steps.last())
        }
    }

    /// Whether a crash may leave `image` as the active segment. Of what is in the
    /// writer's buffer, as much may have reached the file as had found no room in it.
    pub open spec fn may_leave(self, image: Seq<u8>) -> bool {
        may_survive(self.drained(), image)
    }
}

/// A view of a step is the same operation on the same bytes or offset.
pub proof fn law_step_views_keep_everything(step: FileStep)
    ensures
        match step {
            FileStep::WriteFront(bytes) => step@ == StepView::WriteFront(bytes@),
            FileStep::Append(bytes) => step@ == StepView::Append(bytes@),
            FileStep::Drain => step@ is Drain,
            FileStep::SyncActive => step@ is SyncActive,
            FileStep::WriteTemp(bytes) => step@ == StepView::WriteTemp(bytes@),
            FileStep::SyncTemp => step@ is SyncTemp,
            FileStep::RenameTemp => step@ is RenameTemp,
            FileStep::SyncDirectory => step@ is SyncDirectory,
            FileStep::Truncate(len) => step@ == StepView::Truncate(len as nat),
            FileStep::ReopenAt(at) => step@ == StepView::ReopenAt(at as nat),
        },
{
}

/// Bytes that are written at an offset are read there, and what stands before them is
/// left alone; behind them is what was there, if the file went on.
pub proof fn law_written_bytes_are_read_back(file: Seq<u8>, at: nat, bytes: Seq<u8>, i: int)
    requires
        bytes.len() > 0,
    ensures
        placed(file, at, bytes).len() == if file.len() > at + bytes.len() {
            file.len()
        } else {
            at + bytes.len()
        },
        placed(file, at, bytes).subrange(at as int, (at + bytes.len()) as int) == bytes,
        0 <= i < at && i < file.len() ==> placed(file, at, bytes)[i] == file[i],
        file.len() <= i < at ==> placed(file, at, bytes)[i] == 0,
        at + bytes.len() <= i < file.len() ==> placed(file, at, bytes)[i] == file[i],
{
    assert(placed(file, at, bytes).subrange(at as int, (at + bytes.len()) as int) =~= bytes);
}

} // verus!
