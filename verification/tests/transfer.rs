use std::collections::{BTreeSet, VecDeque};
use tgfs::telegram_transfer::{
    begin_upload, confirm_part, missing_part, plan_upload, total_parts, Finalization, MemorySource,
    PartSource, PartUpload, RangeReader, RepairStep, TransferError, UploadPlan,
    BIG_FILE_THRESHOLD, PART_SIZE, UPLOAD_CONCURRENCY_RECOVERY_INTERVAL,
};
use tgfs::tg::{self, BackupRetry, RequestFailure};
use tgfs::uploader::{
    backoff, finish_upload_job, flood_wait, GiveUp, JobReply, RpcFailure, Scheduler, UploadControl,
    UploadFailure, UploadJob, UploadJobKind, UploaderAction,
};

fn big_part_job(part: i32) -> UploadJob {
    UploadJob::big_part(part as u64, 7, part, 10, vec![part as u8])
}

fn job_part(job: &UploadJob) -> i32 {
    match &job.kind {
        UploadJobKind::BigPart { file_part, .. } => *file_part,
        UploadJobKind::SmallFile { .. } => panic!("expected big-part job"),
    }
}

fn started(action: UploaderAction) -> UploadJob {
    match action {
        UploaderAction::Start(job) => job,
        other => panic!("{other:?}"),
    }
}

#[test]
fn recognizes_server_flood_wait() {
    assert_eq!(flood_wait(&RpcFailure { code: 420, value: Some(14) }), Some(14));
    assert_eq!(flood_wait(&RpcFailure { code: 500, value: None }), None);
    assert_eq!(flood_wait(&RpcFailure { code: 420, value: None }), Some(1));
}

/// A scheduler with one failed job, whose pause is over at the returned instant.
fn with_retry(part: i32) -> (Scheduler, u64) {
    let mut s = Scheduler::new();
    let job = s.received(Some(big_part_job(part))).unwrap();
    let failure = UploadFailure { flood_wait: None };
    assert!(matches!(
        s.job_finished(Some((job, Err(failure))), 1000),
        JobReply::Requeued
    ));
    (s, 3000)
}

#[test]
fn retry_queue_has_priority_over_input_channel() {
    let (mut s, now) = with_retry(1);
    let first = started(s.next_action(now));
    assert!(matches!(s.next_action(now), UploaderAction::Poll));
    let second = s.received(Some(big_part_job(2))).unwrap();
    assert_eq!(job_part(&first), 1);
    assert_eq!(job_part(&second), 2);
}

#[test]
fn cancelled_retry_is_discarded_before_new_input() {
    let (mut s, now) = with_retry(1);
    s.cancel(1);
    assert!(matches!(s.next_action(now), UploaderAction::Poll));
    let selected = s.received(Some(big_part_job(2))).unwrap();
    assert_eq!(job_part(&selected), 2);
    assert_eq!(s.retry_count(), 0);
}

#[test]
fn flood_failure_requeues_job_and_reduces_concurrency() {
    let mut retries = VecDeque::new();
    let mut control = UploadControl::new();
    let before = 5_000;
    let reply = finish_upload_job(
        Some((big_part_job(3), Err(UploadFailure { flood_wait: Some(14) }))),
        &mut retries,
        &mut control,
        before,
    );
    assert_eq!(control.concurrency, 1);
    assert_eq!(retries.len(), 1);
    assert_eq!(retries.front().unwrap().failures, 1);
    let resume_at = control.resume_at.unwrap();
    assert!(resume_at >= before + 15_000);
    assert_eq!(
        control.recover_at,
        Some(resume_at + UPLOAD_CONCURRENCY_RECOVERY_INTERVAL)
    );
    assert!(matches!(reply, JobReply::Requeued));
}

#[test]
fn upload_concurrency_recovers_one_step_per_successful_interval() {
    let now = 1_000_000;
    let mut control = UploadControl::new();
    control.throttle_until(now);
    let first_recovery = now + UPLOAD_CONCURRENCY_RECOVERY_INTERVAL;

    assert_eq!(control.recover_after_success(first_recovery - 1000), None);
    assert_eq!(control.recover_after_success(first_recovery), Some(2));
    assert_eq!(control.recover_after_success(first_recovery), None);

    let second_recovery = first_recovery + UPLOAD_CONCURRENCY_RECOVERY_INTERVAL;
    assert_eq!(control.recover_after_success(second_recovery), Some(3));
    let third_recovery = second_recovery + UPLOAD_CONCURRENCY_RECOVERY_INTERVAL;
    assert_eq!(control.recover_after_success(third_recovery), Some(4));
    assert_eq!(control.recover_at, None);
    assert_eq!(
        control.recover_after_success(third_recovery + UPLOAD_CONCURRENCY_RECOVERY_INTERVAL),
        None
    );
}

#[test]
fn another_flood_resets_concurrency_recovery() {
    let now = 1_000_000;
    let mut control = UploadControl::new();
    control.throttle_until(now);
    assert_eq!(
        control.recover_after_success(now + UPLOAD_CONCURRENCY_RECOVERY_INTERVAL),
        Some(2)
    );

    let next_flood_resume = now + 90_000;
    control.throttle_until(next_flood_resume);
    assert_eq!(control.concurrency, 1);
    assert_eq!(
        control.recover_at,
        Some(next_flood_resume + UPLOAD_CONCURRENCY_RECOVERY_INTERVAL)
    );
}

#[test]
fn upload_watermark_only_advances_over_contiguous_parts() {
    let mut confirmed = BTreeSet::new();
    let mut watermark = 10;
    assert!(!confirm_part(12, &mut confirmed, &mut watermark));
    assert_eq!(watermark, 10);
    assert!(confirm_part(10, &mut confirmed, &mut watermark));
    assert_eq!(watermark, 11);
    assert!(confirm_part(11, &mut confirmed, &mut watermark));
    assert_eq!(watermark, 13);
}

#[test]
fn jobs_are_given_up_in_the_end() {
    let mut retries = VecDeque::new();
    let mut control = UploadControl::new();
    let failure = UploadFailure { flood_wait: None };
    let mut job = big_part_job(1);
    for (n, seconds) in [2, 4, 8, 16, 32].into_iter().enumerate() {
        let now = 10_000_000 * (n as u64 + 1);
        let reply = finish_upload_job(Some((job, Err(failure))), &mut retries, &mut control, now);
        assert!(matches!(reply, JobReply::Requeued));
        assert_eq!(control.resume_at, Some(now + 1000 * seconds));
        assert_eq!(control.concurrency, 4);
        job = retries.pop_front().unwrap();
        assert_eq!(job.failures as usize, n + 1);
    }
    match finish_upload_job(Some((job, Err(failure))), &mut retries, &mut control, 0) {
        JobReply::Failed(job, GiveUp::TooManyRetries) => assert_eq!(job.failures, 6),
        other => panic!("{other:?}"),
    }
    let long = UploadFailure { flood_wait: Some(1801) };
    let reply = finish_upload_job(Some((big_part_job(2), Err(long))), &mut retries, &mut control, 0);
    assert!(matches!(reply, JobReply::Failed(_, GiveUp::WaitTooLong)));
    assert_eq!(
        GiveUp::WaitTooLong.message(),
        "server wait exceeds the 30-minute limit"
    );
    let mut gone = big_part_job(3);
    gone.cancelled = true;
    let reply = finish_upload_job(Some((gone, Err(failure))), &mut retries, &mut control, 0);
    assert!(matches!(reply, JobReply::Dropped));
    let reply = finish_upload_job(None, &mut retries, &mut control, 0);
    assert!(matches!(reply, JobReply::Lost));
    assert!(retries.is_empty());
}

#[test]
fn pauses_only_grow_and_expire() {
    let mut control = UploadControl::new();
    control.pause_until(500);
    control.pause_until(300);
    assert_eq!(control.resume_at, Some(500));
    control.clear_expired_pause(499);
    assert_eq!(control.resume_at, Some(500));
    control.clear_expired_pause(500);
    assert_eq!(control.resume_at, None);
    assert_eq!(backoff(0), 1);
    assert_eq!(backoff(3), 8);
    assert_eq!(backoff(9), 32);
}

#[test]
fn the_scheduler_waits_for_what_can_come() {
    let mut s = Scheduler::new();
    assert!(matches!(s.next_action(0), UploaderAction::Poll));
    s.nothing_waiting();
    assert!(matches!(s.next_action(0), UploaderAction::WaitInput));
    for part in 0..4 {
        assert!(matches!(s.next_action(0), UploaderAction::Poll));
        assert!(s.received(Some(big_part_job(part))).is_some());
        s.nothing_waiting();
        if part < 3 {
            assert!(matches!(s.next_action(0), UploaderAction::WaitResultOrInput));
        }
    }
    assert_eq!(s.in_flight(), 4);
    assert!(matches!(s.next_action(0), UploaderAction::WaitResult));
    let flood = UploadFailure { flood_wait: Some(9) };
    s.job_finished(Some((big_part_job(0), Err(flood))), 0);
    assert!(matches!(s.next_action(0), UploaderAction::WaitResultUntil(10_000)));
    for part in 1..4 {
        let reply = s.job_finished(Some((big_part_job(part), Ok(()))), 0);
        assert!(matches!(reply, JobReply::Succeeded(_)));
    }
    assert!(matches!(s.next_action(0), UploaderAction::Sleep(10_000)));
    s.woke();
    assert_eq!(job_part(&started(s.next_action(10_000))), 0);
    assert_eq!(s.control().concurrency, 1);
    assert!(matches!(s.next_action(10_000), UploaderAction::WaitResult));
    s.job_finished(Some((big_part_job(0), Ok(()))), 10_000);
    assert!(matches!(s.next_action(10_000), UploaderAction::Poll));
    assert!(s.received(None).is_none());
    assert!(matches!(s.next_action(10_000), UploaderAction::Stop));
}

#[test]
fn small_jobs_have_a_limit() {
    let job = UploadJob::small_file(1, vec![1, 2], "n".to_string()).unwrap();
    assert!(matches!(job.kind, UploadJobKind::SmallFile { .. }));
    let large = vec![0u8; BIG_FILE_THRESHOLD as usize + 1];
    assert_eq!(
        UploadJob::small_file(1, large, "n".to_string()).unwrap_err(),
        TransferError::SmallFileTooLarge
    );
}

#[test]
fn parts_are_counted_and_read() {
    assert_eq!(total_parts(0), 0);
    assert_eq!(total_parts(1), 1);
    assert_eq!(total_parts(PART_SIZE), 1);
    assert_eq!(total_parts(PART_SIZE + 1), 2);
    assert_eq!(tg::total_parts(3 * PART_SIZE), 3);
    for len in [u64::MAX, (1u64 << 50) + 1, (1u64 << 51) - 5] {
        assert_eq!(total_parts(len), len.div_ceil(PART_SIZE) as i32);
    }
    let bytes: Vec<u8> = (0..PART_SIZE as usize + 5).map(|i| (i % 251) as u8).collect();
    let source = MemorySource { bytes: bytes.clone() };
    assert_eq!(source.len(), PART_SIZE + 5);
    assert!(!source.is_empty());
    assert_eq!(source.read_part(0).unwrap(), bytes[..PART_SIZE as usize]);
    assert_eq!(source.read_part(1).unwrap(), bytes[PART_SIZE as usize..]);
    let mut buf = [0u8; 3];
    source.read_at(4, &mut buf).unwrap();
    assert_eq!(buf, [4, 5, 6]);
    assert_eq!(source.read_at(PART_SIZE + 3, &mut buf), Err(TransferError::BeyondEnd));
    assert_eq!(source.read_at(u64::MAX, &mut buf), Err(TransferError::RangeOverflow));
}

#[test]
fn big_documents_are_uploaded_in_parts() {
    assert_eq!(plan_upload(0, None, 1).err(), Some(TransferError::EmptyDocument));
    assert!(matches!(
        plan_upload(BIG_FILE_THRESHOLD, None, 1),
        Ok(UploadPlan::Small)
    ));
    let mut upload = match plan_upload(BIG_FILE_THRESHOLD + 1, None, 77).ok().unwrap() {
        UploadPlan::Parts(upload) => upload,
        UploadPlan::Small => panic!(),
    };
    assert_eq!(upload.file_id(), 77);
    assert_eq!(upload.total(), 21);
    let mut parts = Vec::new();
    while let Some(part) = upload.next_part() {
        parts.push(part);
    }
    assert_eq!(parts, (0..21).collect::<Vec<_>>());
    assert_eq!(upload.confirm(1), None);
    assert_eq!(upload.confirm(0), Some(2));
    assert_eq!(
        upload.finish(),
        Err(TransferError::Incomplete { watermark: 2, total: 21 })
    );
    for part in (2..21).rev() {
        let expected = if part == 2 { Some(21) } else { None };
        assert_eq!(upload.confirm(part), expected);
    }
    assert_eq!(upload.finish(), Ok(21));
}

#[test]
fn interrupted_uploads_go_on() {
    let mut upload = match begin_upload(BIG_FILE_THRESHOLD + 1, Some((5, 19))).ok().unwrap() {
        UploadPlan::Parts(upload) => upload,
        UploadPlan::Small => panic!(),
    };
    assert_eq!(upload.file_id(), 5);
    assert_eq!(upload.watermark(), 19);
    assert_eq!(upload.next_part(), Some(19));
    assert_eq!(upload.next_part(), Some(20));
    assert_eq!(upload.next_part(), None);
    assert_eq!(upload.confirm(20), None);
    assert_eq!(upload.confirm(19), Some(21));
    assert_eq!(upload.finish(), Ok(21));
    let id = |plan| match plan {
        Ok(UploadPlan::Parts(upload)) => upload.file_id(),
        _ => panic!(),
    };
    let big = BIG_FILE_THRESHOLD + 1;
    assert_ne!(id(begin_upload(big, None)), id(begin_upload(big, None)));
}

fn upload_from(resume: Option<(i64, i32)>) -> PartUpload {
    match plan_upload(BIG_FILE_THRESHOLD + 1, resume, 9).ok().unwrap() {
        UploadPlan::Parts(upload) => upload,
        UploadPlan::Small => panic!(),
    }
}

#[test]
fn missing_parts_have_a_name_and_a_number() {
    assert_eq!(missing_part("FILE_PART_MISSING", Some(7)), Some(7));
    assert_eq!(missing_part("FILE_PART_MISSING", Some(0)), Some(0));
    assert_eq!(missing_part("FILE_PART_MISSING", None), None);
    assert_eq!(missing_part("FILE_PART_MISSING", Some(u32::MAX)), None);
    assert_eq!(missing_part("FLOOD_WAIT", Some(7)), None);
}

#[test]
fn one_missing_part_is_sent_again() {
    let upload = upload_from(None);
    assert_eq!(upload.file_id(), 9);
    let mut end = Finalization::new(&upload);
    let missing = missing_part("FILE_PART_MISSING", Some(7));
    assert_eq!(end.replied(Err(missing)), Err(RepairStep::Resend(7)));
    assert_eq!(end.replied(Ok(55)), Ok(55));

    let mut end = Finalization::new(&upload);
    assert_eq!(end.replied(Ok(55)), Ok(55));
    let mut end = Finalization::new(&upload);
    assert_eq!(end.replied(Err(None)), Err(RepairStep::GiveUp));
}

#[test]
fn uploads_are_restarted_once() {
    let mut end = Finalization::new(&upload_from(Some((5, 19))));
    assert_eq!(end.refused(Some(18)), RepairStep::Restart);
    assert_eq!(end.refused(Some(18)), RepairStep::Resend(18));
    assert_eq!(end.refused(Some(3)), RepairStep::GiveUp);

    let mut end = Finalization::new(&upload_from(Some((5, 19))));
    assert_eq!(end.refused(Some(19)), RepairStep::Resend(19));
    assert_eq!(end.refused(Some(19)), RepairStep::Restart);
    assert_eq!(end.refused(None), RepairStep::GiveUp);

    let mut end = Finalization::new(&upload_from(None));
    assert_eq!(end.refused(Some(21)), RepairStep::Restart);
    assert_eq!(end.refused(Some(21)), RepairStep::GiveUp);
}

#[test]
fn ranged_downloads_take_exactly_the_range() {
    let document: Vec<u8> = (0..3 * PART_SIZE as usize + 100).map(|i| (i % 249) as u8).collect();
    for (offset, len) in [
        (0, 10),
        (PART_SIZE - 3, 7),
        (PART_SIZE + 1, PART_SIZE),
        (10, 2 * PART_SIZE),
        (3 * PART_SIZE + 90, 50),
        (5, 0),
    ] {
        for piece in [PART_SIZE as usize, 1000, 100_000] {
            let (mut range, first) = RangeReader::new(offset, len).unwrap();
            let mut out = Vec::new();
            for chunk in document[(first as u64 * PART_SIZE) as usize..].chunks(piece) {
                if !range.wants_more() {
                    break;
                }
                range.feed(chunk, &mut out);
            }
            let end = ((offset + len) as usize).min(document.len());
            assert_eq!(out, document[offset as usize..end]);
            assert_eq!(range.written(), out.len() as u64);
        }
    }
    assert_eq!(
        RangeReader::new(u64::MAX, 1).err(),
        Some(TransferError::RangeOverflow)
    );
    assert_eq!(
        RangeReader::new(PART_SIZE << 31, 1).err(),
        Some(TransferError::OffsetTooLarge)
    );
}

#[test]
fn requests_are_retried_with_patience() {
    let flood = |value| RequestFailure::Rpc(RpcFailure { code: 420, value });
    assert_eq!(BackupRetry.should_retry(&flood(Some(10)), 1), Some(11));
    assert_eq!(BackupRetry.should_retry(&flood(None), 5), Some(2));
    assert_eq!(BackupRetry.should_retry(&flood(Some(10)), 6), None);
    assert_eq!(BackupRetry.should_retry(&flood(Some(1800)), 1), Some(1801));
    assert_eq!(BackupRetry.should_retry(&flood(Some(1801)), 1), None);
    assert_eq!(BackupRetry.should_retry(&RequestFailure::Io, 3), Some(8));
    assert_eq!(BackupRetry.should_retry(&RequestFailure::Io, 5), Some(32));
    assert_eq!(BackupRetry.should_retry(&RequestFailure::Io, 6), None);
    assert_eq!(BackupRetry.should_retry(&RequestFailure::Other, 1), None);
    let other = RequestFailure::Rpc(RpcFailure { code: 500, value: Some(1) });
    assert_eq!(BackupRetry.should_retry(&other, 1), None);
}

#[test]
fn channels_are_found_by_title() {
    let channel = |id, title: &str| tg::ChannelInfo { id, access_hash: 1, title: title.to_string() };
    let all = vec![channel(1, "news"), channel(2, "tgfs-a"), channel(3, "tgfs-ab"), channel(4, "tgfs-a")];
    let ids = |list: Vec<tg::ChannelInfo>| list.iter().map(|c| c.id).collect::<Vec<_>>();
    assert_eq!(ids(tg::list_channels(&all, "tgfs-")), vec![2, 3, 4]);
    assert_eq!(tg::find_channel(&all, "tgfs-a").unwrap().id, 2);
    assert_eq!(tg::find_channel(&all, "tgfs-ab").unwrap().id, 3);
    assert!(tg::find_channel(&all, "tgfs-").is_none());
    assert_eq!(
        tg::peer_from(5, 9).unwrap(),
        tg::ChannelPeer { dialog_id: -1_000_000_000_005, access_hash: 9 }
    );
    assert!(tg::peer_from(0, 9).is_none());
}

#[test]
fn tg_caption_roundtrip() {
    let caption = tg::index_caption(42, 10, 12, 1_752_000_000);
    assert_eq!(tg::parse_index_caption(&caption), Some(42));
    assert_eq!(tg::parse_index_caption("tgfs-index v7"), Some(7));
    assert_eq!(tg::parse_index_caption("something else"), None);
    assert_eq!(tg::parse_index_caption("tgfs-index vX"), None);
}
