use zettacache::aggregating_writer::AggregatingWriter;
use zettacache::base_types::{DiskId, DiskLocation};
use zettacache::block_access::write_queue::{QueuedWrite, WriteQueue, WriterAction};

fn at(offset: u64) -> DiskLocation {
    DiskLocation::new(DiskId::new(0), offset)
}

fn write(offset: u64, len: usize) -> QueuedWrite {
    QueuedWrite { offset, len }
}

fn next(queue: &mut WriteQueue) -> (Vec<u64>, usize) {
    match queue.next_write() {
        WriterAction::Wait => (vec![], 0),
        WriterAction::WriteRun { run, len } => (run.iter().map(|w| w.offset).collect(), len),
    }
}

#[test]
fn writes_that_follow_each_other_are_joined() {
    let mut writer = AggregatingWriter::new(4096);
    assert!(writer.write(at(1024), &vec![1; 512]).is_none());
    assert!(writer.write(at(1536), &vec![2; 1024]).is_none());
    let pending = writer.flush().unwrap();
    assert_eq!(pending.location, at(1024));
    assert_eq!(pending.bytes.len(), 1536);
    assert_eq!(pending.bytes[511], 1);
    assert_eq!(pending.bytes[512], 2);
}

#[test]
fn write_elsewhere_issues_what_is_pending() {
    let mut writer = AggregatingWriter::new(4096);
    assert!(writer.write(at(1024), &vec![1; 512]).is_none());
    let issued = writer.write(at(4096), &vec![2; 512]).unwrap();
    assert_eq!(issued.location, at(1024));
    assert_eq!(issued.bytes, vec![1; 512]);
    assert_eq!(writer.flush().unwrap().location, at(4096));
}

#[test]
fn full_writer_issues_what_is_pending() {
    let mut writer = AggregatingWriter::new(1024);
    assert!(writer.write(at(0), &vec![1; 1024]).is_none());
    let issued = writer.write(at(1024), &vec![2; 512]).unwrap();
    assert_eq!(issued.bytes.len(), 1024);
    let other = DiskLocation::new(DiskId::new(1), 1536);
    assert_eq!(writer.write(other, &vec![3; 512]).unwrap().location, at(1024));
}

#[test]
fn large_write_is_taken_whole() {
    let mut writer = AggregatingWriter::new(1024);
    assert!(writer.write(at(0), &vec![1; 4096]).is_none());
    assert!(writer.write(at(4096), &vec![1; 512]).is_some());
    assert!(AggregatingWriter::new(1024).flush().is_none());
}

#[test]
fn queue_joins_runs() {
    let mut queue = WriteQueue::new(131072);
    assert!(queue.push(write(2048, 512)));
    assert!(queue.push(write(1024, 1024)));
    assert!(queue.push(write(8192, 512)));
    assert_eq!(next(&mut queue), (vec![1024, 2048], 1536));
    assert_eq!(next(&mut queue), (vec![8192], 512));
    assert_eq!(next(&mut queue), (vec![], 0));
}

#[test]
fn queue_goes_on_from_the_last_write() {
    let mut queue = WriteQueue::new(131072);
    assert!(queue.push(write(8192, 512)));
    assert_eq!(next(&mut queue), (vec![8192], 512));
    assert!(queue.push(write(0, 512)));
    assert!(queue.push(write(16384, 512)));
    assert_eq!(next(&mut queue), (vec![16384], 512));
    assert_eq!(next(&mut queue), (vec![0], 512));
}

#[test]
fn queue_runs_are_bounded() {
    let mut queue = WriteQueue::new(131072);
    assert!(queue.push(write(0, 100 * 1024)));
    assert!(queue.push(write(100 * 1024, 28 * 1024)));
    assert!(queue.push(write(128 * 1024, 512)));
    assert_eq!(next(&mut queue), (vec![0, 100 * 1024], 128 * 1024));
    assert_eq!(next(&mut queue), (vec![128 * 1024], 512));
    // a single write can be as large as it likes
    assert!(queue.push(write(1 << 20, 1 << 20)));
    assert!(queue.push(write(2 << 20, 512)));
    assert_eq!(next(&mut queue), (vec![1 << 20], 1 << 20));
    let mut queue = WriteQueue::new(1024);
    for i in 0..3 {
        assert!(queue.push(write(i * 512, 512)));
    }
    assert_eq!(next(&mut queue), (vec![0, 512], 1024));
    assert_eq!(next(&mut queue), (vec![1024], 512));
}

#[test]
fn queue_refuses_a_second_write_to_an_offset() {
    let mut queue = WriteQueue::new(131072);
    assert!(queue.push(write(512, 512)));
    assert!(!queue.push(write(512, 1024)));
    assert_eq!(next(&mut queue), (vec![512], 512));
}
