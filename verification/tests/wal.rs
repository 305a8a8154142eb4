use flux_throughput::disk::FileStep;
use flux_throughput::domain::{Lsn, WalRecord, WriteAheadLog};
use flux_throughput::segment::{decode_segment, header_magic, HEADER_LEN};
use flux_throughput::wal::{ForeignSegment, Plan, Wal};

/// The files of a log, in memory.
#[derive(Clone, Default)]
struct Files {
    active: Vec<u8>,
    temp: Vec<u8>,
    cursor: usize,
}

impl Files {
    fn perform(&mut self, steps: Vec<FileStep>) {
        for step in steps {
            match step {
                FileStep::WriteFront(bytes) => {
                    if self.active.len() < bytes.len() {
                        self.active.resize(bytes.len(), 0);
                    }
                    self.active[..bytes.len()].copy_from_slice(&bytes);
                }
                FileStep::Append(bytes) => {
                    self.active.truncate(self.cursor);
                    self.active.extend_from_slice(&bytes);
                    self.cursor = self.active.len();
                }
                FileStep::WriteTemp(bytes) => self.temp = bytes,
                FileStep::RenameTemp => self.active = std::mem::take(&mut self.temp),
                FileStep::Truncate(len) => self.active.truncate(len as usize),
                FileStep::ReopenAt(at) => self.cursor = at as usize,
                FileStep::Drain
                | FileStep::SyncActive
                | FileStep::SyncTemp
                | FileStep::SyncDirectory => {}
            }
        }
    }
}

/// A log on files in memory.
struct MemLog {
    files: Files,
    wal: Wal,
}

impl MemLog {
    fn open(mut files: Files, fsync: bool) -> Result<MemLog, ForeignSegment> {
        let len = files.active.len() as u64;
        let plan = Wal::open(len, &files.active, fsync)?;
        files.perform(plan.steps);
        Ok(MemLog {
            files,
            wal: plan.next,
        })
    }

    fn run(&mut self, plan: Plan) {
        self.files.perform(plan.steps);
        self.wal = plan.next;
    }
}

impl WriteAheadLog for MemLog {
    fn append_batch(&mut self, records: &[WalRecord]) -> std::io::Result<Lsn> {
        let plan = self.wal.append_batch(records);
        self.run(plan);
        Ok(self.wal.last_lsn())
    }

    fn checkpoint(&mut self, up_to_lsn: Lsn) -> std::io::Result<()> {
        let plan = self.wal.checkpoint(&self.files.active, up_to_lsn);
        self.run(plan);
        Ok(())
    }

    fn recover(&mut self) -> std::io::Result<Vec<WalRecord>> {
        let (records, plan) = self.wal.recover(&self.files.active);
        self.run(plan);
        Ok(records)
    }

    fn flush(&mut self) -> std::io::Result<()> {
        let steps = self.wal.flush();
        self.files.perform(steps);
        Ok(())
    }
}

fn rec(lsn: u64, pid: u64, ver: u64, blob: &[u8]) -> WalRecord {
    WalRecord {
        lsn,
        player_id: pid,
        version: ver,
        blob: blob.to_vec(),
    }
}

#[test]
fn open_creates_dir_and_header() {
    let wal = MemLog::open(Files::default(), true).unwrap();
    assert_eq!(&wal.files.active[..HEADER_LEN as usize], b"FLUXWAL1");
    assert_eq!(header_magic(), b"FLUXWAL1".to_vec());
    assert_eq!(wal.wal.write_offset(), 8);
}

#[test]
fn append_returns_highest_lsn() {
    let mut wal = MemLog::open(Files::default(), true).unwrap();
    let hi = wal
        .append_batch(&[rec(1, 1, 1, b"a"), rec(5, 2, 1, b"b"), rec(3, 3, 1, b"c")])
        .unwrap();
    assert_eq!(hi, 5, "append_batch returns the highest LSN in the batch");
}

#[test]
fn empty_append_is_noop() {
    let mut wal = MemLog::open(Files::default(), true).unwrap();
    assert_eq!(wal.append_batch(&[]).unwrap(), 0);
    assert_eq!(wal.append_batch(&[rec(7, 1, 1, b"x")]).unwrap(), 7);
    assert_eq!(wal.append_batch(&[]).unwrap(), 7);
}

#[test]
fn roundtrip_append_then_recover() {
    let expected = vec![
        rec(1, 100, 1, b"alpha"),
        rec(2, 101, 1, b""),
        rec(3, 100, 2, &[0u8, 1, 2, 3, 4, 5, 6, 7, 8, 9]),
        rec(4, 200, 7, b"the quick brown fox"),
    ];
    let mut wal = MemLog::open(Files::default(), true).unwrap();
    wal.append_batch(&expected[..2]).unwrap();
    wal.append_batch(&expected[2..]).unwrap();
    wal.flush().unwrap();

    let mut wal2 = MemLog::open(wal.files, true).unwrap();
    let recovered = wal2.recover().unwrap();
    assert_eq!(
        recovered, expected,
        "recover replays exactly the records appended"
    );

    let hi = wal2.append_batch(&[rec(5, 300, 1, b"more")]).unwrap();
    assert_eq!(hi, 5);
    let recovered2 = wal2.recover().unwrap();
    let mut expected2 = expected.clone();
    expected2.push(rec(5, 300, 1, b"more"));
    assert_eq!(recovered2, expected2);
}

#[test]
fn torn_tail_is_discarded_and_truncated() {
    let good = vec![
        rec(1, 1, 1, b"first"),
        rec(2, 2, 1, b"second"),
        rec(3, 3, 1, b"third"),
    ];
    let mut wal = MemLog::open(Files::default(), true).unwrap();
    wal.append_batch(&good).unwrap();
    wal.flush().unwrap();
    let mut files = wal.files;
    let good_len_on_disk = files.active.len();
    files.active.extend_from_slice(&[
        0x52, 0x58, 0x4C, 0x46, 0xFF, 0xFF, 0x00, 0x13, 0xDE, 0xAD, 0xBE, 0xEF,
    ]);
    let torn_len = files.active.len();
    assert!(
        torn_len > good_len_on_disk,
        "garbage should have grown the file"
    );

    let mut wal2 = MemLog::open(files, true).unwrap();
    let recovered = wal2.recover().unwrap();
    assert_eq!(recovered, good, "recover returns exactly the valid frames");
    let after_len = wal2.files.active.len();
    assert_eq!(
        after_len, good_len_on_disk,
        "recover truncates the torn tail to the last good offset"
    );

    wal2.append_batch(&[rec(4, 4, 1, b"fourth")]).unwrap();
    let recovered2 = wal2.recover().unwrap();
    let mut expected2 = good.clone();
    expected2.push(rec(4, 4, 1, b"fourth"));
    assert_eq!(recovered2, expected2);
}

#[test]
fn torn_tail_is_discarded_no_corruption() {
    let valid = vec![
        rec(1, 10, 1, b"alpha"),
        rec(2, 11, 4, b""),
        rec(3, 12, 9, &(0u8..32).collect::<Vec<u8>>()),
    ];
    let mut wal = MemLog::open(Files::default(), true).unwrap();
    wal.append_batch(&valid).unwrap();
    wal.flush().unwrap();
    let mut files = wal.files;
    let good_len_on_disk = files.active.len();
    files.active.extend_from_slice(&[
        0x52, 0x58, 0x4C, 0x46, 0xFF, 0xFF, 0x00, 0x10, 0xDE, 0xAD, 0xBE, 0xEF, 0x00, 0x01, 0x02,
    ]);
    assert!(files.active.len() > good_len_on_disk);

    let mut wal2 = MemLog::open(files, true).unwrap();
    let recovered = wal2.recover().unwrap();
    assert_eq!(recovered, valid);
    assert_eq!(wal2.files.active.len(), good_len_on_disk);
    let recovered_again = wal2.recover().unwrap();
    assert_eq!(recovered_again, valid);
}

#[test]
fn mid_file_corruption_stops_at_first_bad_frame() {
    let recs = vec![
        rec(1, 1, 1, b"keepme"),
        rec(2, 2, 1, b"loseme"),
        rec(3, 3, 1, b"alsolost"),
    ];
    let mut wal = MemLog::open(Files::default(), true).unwrap();
    wal.append_batch(&recs).unwrap();
    wal.flush().unwrap();
    let mut files = wal.files;
    let first_frame_len = recs[0].encode().len();
    let corrupt_at = HEADER_LEN as usize + first_frame_len + 12;
    files.active[corrupt_at] ^= 0xFF;

    let mut wal2 = MemLog::open(files, true).unwrap();
    let recovered = wal2.recover().unwrap();
    assert_eq!(
        recovered,
        vec![rec(1, 1, 1, b"keepme")],
        "only the pre-corruption frame survives"
    );
}

#[test]
fn checkpoint_discards_acked_keeps_live() {
    let mut wal = MemLog::open(Files::default(), true).unwrap();
    wal.append_batch(&[
        rec(1, 1, 1, b"a"),
        rec(2, 2, 1, b"b"),
        rec(3, 3, 1, b"c"),
        rec(4, 4, 1, b"d"),
    ])
    .unwrap();
    wal.checkpoint(2).unwrap();

    let recovered = wal.recover().unwrap();
    assert_eq!(
        recovered,
        vec![rec(3, 3, 1, b"c"), rec(4, 4, 1, b"d")],
        "only records with lsn > up_to_lsn survive checkpoint"
    );

    let hi = wal.append_batch(&[rec(5, 5, 1, b"e")]).unwrap();
    assert_eq!(hi, 5);

    let mut wal2 = MemLog::open(wal.files, true).unwrap();
    let recovered2 = wal2.recover().unwrap();
    assert_eq!(
        recovered2,
        vec![rec(3, 3, 1, b"c"), rec(4, 4, 1, b"d"), rec(5, 5, 1, b"e")]
    );
}

#[test]
fn checkpoint_all_leaves_empty_valid_segment() {
    let mut wal = MemLog::open(Files::default(), true).unwrap();
    wal.append_batch(&[rec(1, 1, 1, b"a"), rec(2, 2, 1, b"b")])
        .unwrap();
    wal.checkpoint(10).unwrap();
    assert_eq!(wal.wal.last_lsn(), 10);
    assert!(wal.recover().unwrap().is_empty(), "all records discarded");

    assert_eq!(&wal.files.active[..HEADER_LEN as usize], b"FLUXWAL1");
    wal.append_batch(&[rec(11, 1, 1, b"after")]).unwrap();
    assert_eq!(wal.recover().unwrap(), vec![rec(11, 1, 1, b"after")]);
}

#[test]
fn nofsync_mode_roundtrips() {
    let mut wal = MemLog::open(Files::default(), false).unwrap();
    wal.append_batch(&[rec(1, 1, 1, b"x"), rec(2, 2, 1, b"y")])
        .unwrap();
    wal.flush().unwrap();
    assert_eq!(
        wal.recover().unwrap(),
        vec![rec(1, 1, 1, b"x"), rec(2, 2, 1, b"y")]
    );
    assert!(!wal.wal.fsync());
}

#[test]
fn append_writes_drains_and_forces_in_this_order() {
    let records = [rec(1, 1, 1, b"a"), rec(2, 2, 1, b"b")];
    let wal = MemLog::open(Files::default(), true).unwrap();
    assert_eq!(
        wal.wal.append_batch(&records).steps,
        vec![
            FileStep::Append(records[0].encode()),
            FileStep::Append(records[1].encode()),
            FileStep::Drain,
            FileStep::SyncActive,
        ]
    );
    let lax = MemLog::open(Files::default(), false).unwrap();
    assert_eq!(lax.wal.append_batch(&records).steps.len(), 3);
    assert!(lax.wal.append_batch(&[]).steps.is_empty());
}

#[test]
fn checkpoint_forces_the_fresh_segment_before_the_rename() {
    let mut wal = MemLog::open(Files::default(), true).unwrap();
    wal.append_batch(&[rec(1, 1, 1, b"a"), rec(9, 2, 1, b"b")]).unwrap();
    let plan = wal.wal.checkpoint(&wal.files.active, 4);
    let mut fresh = header_magic();
    fresh.extend_from_slice(&rec(9, 2, 1, b"b").encode());
    let len = fresh.len() as u64;
    assert_eq!(
        plan.steps,
        vec![
            FileStep::WriteTemp(fresh),
            FileStep::SyncTemp,
            FileStep::RenameTemp,
            FileStep::SyncDirectory,
            FileStep::ReopenAt(len),
        ]
    );
    assert_eq!(plan.next.last_lsn(), 9);
    assert_eq!(plan.next.write_offset(), len);
}

#[test]
fn a_crash_during_a_checkpoint_leaves_old_or_new() {
    let mut wal = MemLog::open(Files::default(), true).unwrap();
    let all = vec![rec(1, 1, 1, b"a"), rec(2, 2, 1, b"b"), rec(3, 3, 1, b"c")];
    wal.append_batch(&all).unwrap();
    for i in 0..=5 {
        let mut files = wal.files.clone();
        let mut steps = wal.wal.checkpoint(&files.active, 2).steps;
        steps.truncate(i);
        files.perform(steps);
        let recovered = MemLog::open(files, true).unwrap().recover().unwrap();
        if i < 3 {
            assert_eq!(recovered, all);
        } else {
            assert_eq!(recovered, all[2..].to_vec());
        }
    }
}

#[test]
fn a_segment_cut_anywhere_recovers_whole_records() {
    let all = vec![rec(1, 1, 1, b"abc"), rec(2, 2, 2, b""), rec(3, 3, 3, b"xyzzy")];
    let mut wal = MemLog::open(Files::default(), true).unwrap();
    wal.append_batch(&all).unwrap();
    let image = wal.files.active.clone();
    for k in 8..=image.len() {
        let (records, end) = decode_segment(&image[..k]);
        let mut whole = 0;
        let mut offset = 8;
        for r in &all {
            if offset + r.encode().len() > k {
                break;
            }
            offset += r.encode().len();
            whole += 1;
        }
        assert_eq!(records, all[..whole].to_vec());
        assert_eq!(end as usize, offset);
    }
}

#[test]
fn a_foreign_segment_is_refused() {
    let files = Files {
        active: b"NOTAWAL1 and more".to_vec(),
        ..Files::default()
    };
    assert_eq!(decode_segment(&files.active), (vec![], 17));
    let err = MemLog::open(files, true).err().unwrap();
    assert_eq!(
        err.message(),
        "WAL segment header magic mismatch (not a FLUXWAL1 file)"
    );
}

#[test]
fn a_short_segment_gets_a_header() {
    let files = Files {
        active: b"FLU".to_vec(),
        ..Files::default()
    };
    assert_eq!(decode_segment(&files.active), (vec![], 3));
    let mut wal = MemLog::open(files, true).unwrap();
    assert_eq!(wal.files.active, b"FLUXWAL1".to_vec());
    assert!(wal.recover().unwrap().is_empty());
}
