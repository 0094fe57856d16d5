use lakach::queue::{DownloadQueue, DownloadStatus};

fn enqueue3(q: &mut DownloadQueue) -> (u64, u64, u64) {
    let a = q.enqueue("alpha".to_string(), "host:media/alpha".to_string());
    let b = q.enqueue("beta".to_string(), "host:media/beta".to_string());
    let c = q.enqueue("gamma".to_string(), "host:media/gamma".to_string());
    (a, b, c)
}

fn running_count(q: &DownloadQueue) -> usize {
    q.jobs
        .iter()
        .filter(|d| matches!(d.status, DownloadStatus::Downloading))
        .count()
}

#[test]
fn three_jobs_complete_in_order() {
    let mut q = DownloadQueue::new();
    let (a, b, c) = enqueue3(&mut q);
    let mut finished: Vec<u64> = Vec::new();
    let mut now = 100;
    loop {
        assert!(running_count(&q) == 0);
        match q.take_next_queued(now) {
            Some((id, _path)) => {
                assert!(running_count(&q) == 1);
                now += 1;
                q.finish_download(id, true, now);
                assert!(running_count(&q) == 0);
                finished.push(id);
            }
            None => break,
        }
    }
    assert_eq!(finished, vec![a, b, c]);
    assert_eq!(q.jobs.len(), 3);
    for (k, d) in q.jobs.iter().enumerate() {
        assert!(matches!(d.status, DownloadStatus::Completed));
        assert!(d.completed_at.is_some());
        assert_eq!(d.id, finished[k]);
    }
}

#[test]
fn failed_job_does_not_stop_the_drain() {
    let mut q = DownloadQueue::new();
    let (a, b, _c) = enqueue3(&mut q);
    let (id1, _) = q.take_next_queued(10).unwrap();
    assert_eq!(id1, a);
    q.finish_download(id1, false, 11);
    match &q.jobs[0].status {
        DownloadStatus::Failed(reason) => assert_eq!(reason, "rsync failed"),
        _ => panic!("first job must be failed"),
    }
    assert_eq!(q.jobs[0].completed_at, Some(11));
    let (id2, _) = q.take_next_queued(12).unwrap();
    assert_eq!(id2, b);
}

#[test]
fn take_next_is_fifo_and_carries_the_remote_path() {
    let mut q = DownloadQueue::new();
    let a = q.enqueue("one".to_string(), "host:media/one".to_string());
    let _b = q.enqueue("two".to_string(), "host:media/two".to_string());
    let (id, path) = q.take_next_queued(42).unwrap();
    assert_eq!(id, a);
    assert_eq!(path, "host:media/one");
    assert!(matches!(q.jobs[0].status, DownloadStatus::Downloading));
    assert_eq!(q.jobs[0].started_at, Some(42));
    assert!(matches!(q.jobs[1].status, DownloadStatus::Queued));
}

#[test]
fn take_next_on_empty_queue_is_none() {
    let mut q = DownloadQueue::new();
    assert!(q.take_next_queued(1).is_none());
}

#[test]
fn finish_with_unknown_id_is_a_no_op() {
    let mut q = DownloadQueue::new();
    let a = q.enqueue("alpha".to_string(), "host:a".to_string());
    q.finish_download(a + 999, true, 5);
    assert_eq!(q.jobs.len(), 1);
    assert!(matches!(q.jobs[0].status, DownloadStatus::Queued));
    assert_eq!(q.jobs[0].completed_at, None);
}

#[test]
fn enqueue_ids_strictly_increase() {
    let mut q = DownloadQueue::new();
    let a = q.enqueue("a".to_string(), "h:a".to_string());
    let b = q.enqueue("b".to_string(), "h:b".to_string());
    let c = q.enqueue("c".to_string(), "h:c".to_string());
    assert!(a < b && b < c);
    assert_eq!(q.jobs.len(), 3);
    assert!(q.jobs[0].id != q.jobs[1].id);
    assert!(q.jobs[1].id != q.jobs[2].id);
    assert!(q.jobs[0].id != q.jobs[2].id);
}

#[test]
fn promote_moves_every_completed_job_in_order() {
    let mut q = DownloadQueue::new();
    let (a, b, c) = enqueue3(&mut q);
    let d = q.enqueue("delta".to_string(), "host:media/delta".to_string());
    // complete a and c, fail b, leave d queued
    let (id, _) = q.take_next_queued(10).unwrap();
    q.finish_download(id, true, 11);
    let (id, _) = q.take_next_queued(12).unwrap();
    q.finish_download(id, false, 13);
    let (id, _) = q.take_next_queued(14).unwrap();
    q.finish_download(id, true, 15);
    let entries = q.promote_completed();
    assert_eq!(entries.len(), 2);
    assert_eq!(entries[0].folder_name, "alpha");
    assert_eq!(entries[0].downloaded_at, 11);
    assert_eq!(entries[1].folder_name, "gamma");
    assert_eq!(entries[1].downloaded_at, 15);
    // the failed and the queued jobs stay, in order
    assert_eq!(q.jobs.len(), 2);
    assert_eq!(q.jobs[0].id, b);
    assert!(matches!(q.jobs[0].status, DownloadStatus::Failed(_)));
    assert_eq!(q.jobs[1].id, d);
    assert!(matches!(q.jobs[1].status, DownloadStatus::Queued));
    let _ = (a, c);
}

#[test]
fn promote_twice_is_idempotent() {
    let mut q = DownloadQueue::new();
    let _ = enqueue3(&mut q);
    let (id, _) = q.take_next_queued(20).unwrap();
    q.finish_download(id, true, 21);
    let first = q.promote_completed();
    assert_eq!(first.len(), 1);
    let jobs_after_first: Vec<u64> = q.jobs.iter().map(|d| d.id).collect();
    let second = q.promote_completed();
    assert!(second.is_empty());
    let jobs_after_second: Vec<u64> = q.jobs.iter().map(|d| d.id).collect();
    assert_eq!(jobs_after_first, jobs_after_second);
}

#[test]
fn history_entry_carries_source_and_timestamp() {
    let mut q = DownloadQueue::new();
    let _ = q.enqueue("show".to_string(), "host:tv/show".to_string());
    let (id, _) = q.take_next_queued(7).unwrap();
    q.finish_download(id, true, 9);
    let entries = q.promote_completed();
    assert_eq!(entries.len(), 1);
    assert_eq!(entries[0].folder_name, "show");
    assert_eq!(entries[0].remote_path, "host:tv/show");
    assert_eq!(entries[0].downloaded_at, 9);
    assert!(q.jobs.is_empty());
}
