use mapreduce::coordinator::{TaskData, TaskType};

fn job(files: &[&str], n_reduce: u32) -> TaskData {
    TaskData::new(files.iter().map(|f| f.to_string()).collect(), n_reduce)
}

#[test]
fn happy_path_runs_both_phases_to_done() {
    let mut td = job(&["a.txt", "b.txt"], 2);
    assert!(!td.done());

    // both map tasks out, most recently queued first
    let r1 = td.task_request_step(0).expect("map task");
    assert_eq!(r1.task_type, TaskType::MapTask);
    assert_eq!(r1.file_name, "b.txt");
    assert_eq!(r1.task_num, 0);
    assert_eq!(r1.n_reduce, 2);
    assert_eq!(r1.file_nums, Vec::<u32>::new());
    let r2 = td.task_request_step(1).expect("map task");
    assert_eq!(r2.file_name, "a.txt");
    assert_eq!(r2.task_num, 1);

    // no pending work: a requester must wait
    assert!(td.task_request_step(2).is_none());

    // both report done; the second completion opens the reduce phase
    assert!(!td.task_done(TaskType::MapTask, r1.task_num, "b.txt"));
    assert!(td.task_done(TaskType::MapTask, r2.task_num, "a.txt"));

    let r3 = td.task_request_step(3).expect("reduce task");
    assert_eq!(r3.task_type, TaskType::ReduceTask);
    assert_eq!(r3.task_num, 1);
    assert_eq!(r3.file_name, "");
    // the reduce reply carries the finished map task numbers
    assert_eq!(r3.file_nums, vec![0, 1]);
    let r4 = td.task_request_step(4).expect("reduce task");
    assert_eq!(r4.task_num, 0);

    assert!(!td.task_done(TaskType::ReduceTask, r3.task_num, ""));
    assert!(td.task_done(TaskType::ReduceTask, r4.task_num, ""));
    assert!(td.done());

    // the job being done, every request is answered Finished at once
    let fin = td.task_request_step(5).expect("finished signal");
    assert_eq!(fin.task_type, TaskType::Finished);
    assert_eq!(fin.file_name, "");
    assert_eq!(fin.file_nums, Vec::<u32>::new());
    assert_eq!(fin.task_num, 0);
    assert_eq!(fin.n_reduce, 0);
}

#[test]
fn crash_tolerance_reassigns_after_lease() {
    // a worker takes the only map task and is never heard from again
    let mut td = job(&["only.txt"], 1);
    let r1 = td.task_request_step(0).expect("map task");
    assert_eq!(r1.task_type, TaskType::MapTask);
    assert_eq!(r1.task_num, 0);

    // within the lease nothing is reclaimed and requesters wait
    assert!(!td.reschedule_active_tasks(5, 10));
    assert!(td.task_request_step(6).is_none());

    // past the lease the task returns to pending and requesters wake
    assert!(td.reschedule_active_tasks(11, 10));
    let r2 = td.task_request_step(12).expect("reassigned map task");
    assert_eq!(r2.file_name, "only.txt");
    // the re-dispatch carries a fresh task number
    assert_eq!(r2.task_num, 1);
    assert_ne!(r2.task_num, r1.task_num);

    // the second worker finishes; the job still completes
    assert!(td.task_done(TaskType::MapTask, r2.task_num, "only.txt"));
    let r3 = td.task_request_step(13).expect("reduce task");
    assert_eq!(r3.task_type, TaskType::ReduceTask);
    assert_eq!(r3.file_nums, vec![1]);
    assert!(td.task_done(TaskType::ReduceTask, r3.task_num, ""));
    assert!(td.done());
}

#[test]
fn late_report_after_reclaim_changes_nothing() {
    let mut td = job(&["only.txt"], 1);
    let r1 = td.task_request_step(0).expect("map task");
    assert!(td.reschedule_active_tasks(100, 10));

    // the file is pending again, so the old report finds nothing active
    assert!(!td.task_done(TaskType::MapTask, r1.task_num, "only.txt"));
    assert_eq!(td.pending_map_count(), 1);
    assert_eq!(td.active_map_count(), 0);
    assert!(!td.done());

    // and the task is still dispatched afresh afterwards
    let r2 = td.task_request_step(101).expect("map task");
    assert_eq!(r2.file_name, "only.txt");
    assert_eq!(r2.task_num, 1);
}

#[test]
fn duplicate_and_unknown_reports_are_ignored() {
    let mut td = job(&["a.txt"], 1);
    let r1 = td.task_request_step(0).expect("map task");
    // a report for a file that was never dispatched
    assert!(!td.task_done(TaskType::MapTask, 9, "ghost.txt"));
    assert_eq!(td.active_map_count(), 1);
    // the real report
    assert!(td.task_done(TaskType::MapTask, r1.task_num, "a.txt"));
    // a duplicate of it
    assert!(!td.task_done(TaskType::MapTask, r1.task_num, "a.txt"));
    // a Finished report from a confused worker
    assert!(!td.task_done(TaskType::Finished, 0, ""));
    assert_eq!(td.pending_reduce_count(), 1);
}

#[test]
fn idempotent_finish_never_reopens_a_phase() {
    let mut td = job(&["a.txt"], 1);
    let r1 = td.task_request_step(0).expect("map task");
    td.task_done(TaskType::MapTask, r1.task_num, "a.txt");
    // the map phase is done: no request ever returns a map task again
    let mut got_reduce = false;
    for now in 1..5u64 {
        match td.task_request_step(now) {
            Some(reply) => {
                assert_ne!(reply.task_type, TaskType::MapTask);
                if reply.task_type == TaskType::ReduceTask {
                    got_reduce = true;
                }
            }
            None => {}
        }
    }
    assert!(got_reduce);
    td.task_done(TaskType::ReduceTask, 0, "");
    assert!(td.done());
    // both phases done: requests are answered Finished, forever
    for now in 6..10u64 {
        let fin = td.task_request_step(now).expect("finished signal");
        assert_eq!(fin.task_type, TaskType::Finished);
        assert!(td.done());
    }
}

#[test]
fn reduce_lease_expiry_reassigns_bucket() {
    let mut td = job(&["a.txt"], 2);
    let r1 = td.task_request_step(0).expect("map task");
    td.task_done(TaskType::MapTask, r1.task_num, "a.txt");
    let r2 = td.task_request_step(1).expect("reduce task");
    assert_eq!(r2.task_type, TaskType::ReduceTask);
    // its worker stalls; the bucket is reclaimed and dispatched again
    assert!(td.reschedule_active_tasks(50, 10));
    let r3 = td.task_request_step(51).expect("reassigned reduce task");
    assert_eq!(r3.task_num, r2.task_num);
    td.task_done(TaskType::ReduceTask, r3.task_num, "");
    let r4 = td.task_request_step(52).expect("second reduce task");
    td.task_done(TaskType::ReduceTask, r4.task_num, "");
    assert!(td.done());
}
