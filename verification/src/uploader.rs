//! The upload scheduler: which job runs when, how failures are retried, and how the server's
//! throttling slows it down.
//!
//! Instants are milliseconds on one clock. The scheduler decides; whoever drives it performs
//! each action and reports back what happened.
use vstd::prelude::*;
use std::collections::VecDeque;
use crate::telegram_transfer::{
    BIG_FILE_THRESHOLD, INITIAL_UPLOAD_CONCURRENCY, MAX_FLOOD_WAIT, MAX_UPLOAD_RETRIES,
    TransferError, UPLOAD_CONCURRENCY_RECOVERY_INTERVAL,
};

verus! {

/// What a job uploads.
#[derive(Debug)]
pub enum UploadJobKind {
    /// One part of a big document.
    BigPart { file_id: i64, file_part: i32, file_total_parts: i32, bytes: Vec<u8> },
    /// A small document in one piece.
    SmallFile { bytes: Vec<u8>, name: String },
}

/// A job of the scheduler.
#[derive(Debug)]
pub struct UploadJob {
    /// Tells the jobs apart, so that each answer reaches whoever waits for it.
    pub id: u64,
    pub kind: UploadJobKind,
    /// How often the job has failed.
    pub failures: u32,
    /// Whether nobody waits for the answer any more.
    pub cancelled: bool,
}

impl UploadJob {
    /// A job that uploads one part of a big document.
    pub fn big_part(
        id: u64,
        file_id: i64,
        file_part: i32,
        file_total_parts: i32,
        bytes: Vec<u8>,
    ) -> (r: Self)
        ensures
            r == (UploadJob {
                id,
                kind: UploadJobKind::BigPart { file_id, file_part, file_total_parts, bytes },
                failures: 0,
                cancelled: false,
            }),
    {
        UploadJob {
            id,
            kind: UploadJobKind::BigPart { file_id, file_part, file_total_parts, bytes },
            failures: 0,
            cancelled: false,
        }
    }

    /// A job that uploads a small document, if it is small enough.
    pub fn small_file(id: u64, bytes: Vec<u8>, name: String) -> (r: Result<Self, TransferError>)
        ensures
            r == if bytes@.len() > BIG_FILE_THRESHOLD {
                Err::<UploadJob, TransferError>(TransferError::SmallFileTooLarge)
            } else {
                Ok::<UploadJob, TransferError>(
                    UploadJob {
                        id,
                        kind: UploadJobKind::SmallFile { bytes, name },
                        failures: 0,
                        cancelled: false,
                    },
                )
            },
    {
        if bytes.len() as u64 > BIG_FILE_THRESHOLD {
            return Err(TransferError::SmallFileTooLarge);
        }
        Ok(
            UploadJob {
                id,
                kind: UploadJobKind::SmallFile { bytes, name },
                failures: 0,
                cancelled: false,
            },
        )
    }
}

/// An error that the server reported: its code, and the number that came with it.
#[derive(Debug, Clone, Copy, PartialEq, Eq, Structural)]
pub struct RpcFailure {
    pub code: i32,
    pub value: Option<u32>,
}

/// The seconds that the server asks to wait, if the error is a request to slow down.
pub fn flood_wait(error: &RpcFailure) -> (r: Option<u64>)
    ensures
        r == asked_wait(*error),
{
    if error.code == 420 {
        match error.value {
            Some(seconds) => Some(seconds as u64),
            None => Some(1),
        }
    } else {
        None
    }
}

/// A failed attempt: the seconds that the server asked to wait, if it did.
#[derive(Debug, Clone, Copy, PartialEq, Eq, Structural)]
pub struct UploadFailure {
    pub flood_wait: Option<u64>,
}

/// Why a job was given up.
#[derive(Debug, Clone, Copy, PartialEq, Eq, Structural)]
pub enum GiveUp {
    WaitTooLong,
    TooManyRetries,
}

impl GiveUp {
    /// A sentence for the user.
    pub fn message(&self) -> (r: String)
        ensures
            r@ == (match *self {
                GiveUp::WaitTooLong => "server wait exceeds the 30-minute limit"@,
                GiveUp::TooManyRetries => "retry-attempt limit exceeded"@,
            }),
    {
        match self {
            GiveUp::WaitTooLong => "server wait exceeds the 30-minute limit".to_owned(),
            GiveUp::TooManyRetries => "retry-attempt limit exceeded".to_owned(),
        }
    }
}

/// What becomes of a job that has run.
#[derive(Debug)]
pub enum JobReply {
    /// The job is lost.
    Lost,
    /// Nobody waits for the job any more.
    Dropped,
    /// The job succeeded.
    Succeeded(UploadJob),
    /// The job failed for good.
    Failed(UploadJob, GiveUp),
    /// The job will be tried again.
    Requeued,
}

/// Two to the power of `n`.
pub open spec fn doubled(n: nat) -> nat
    decreases n,
{
    if n == 0 {
        1
    } else {
        2 * doubled((n - 1) as nat)
    }
}

/// Seconds to wait after a number of failures: they double, up to the fifth.
pub open spec fn backoff_seconds(failures: u32) -> nat {
    doubled(if failures < 5 { failures as nat } else { 5 })
}

/// Seconds to wait after a number of failures.
pub fn backoff(failures: u32) -> (r: u64)
    ensures
        r == backoff_seconds(failures),
        1 <= r <= 32,
{
    reveal_with_fuel(doubled, 7);
    if failures == 0 {
        1
    } else if failures == 1 {
        2
    } else if failures == 2 {
        4
    } else if failures == 3 {
        8
    } else if failures == 4 {
        16
    } else {
        32
    }
}

/// How fast the scheduler may go.
#[derive(Debug, Clone, Copy)]
pub struct UploadControl {
    /// How many jobs may run at a time.
    pub concurrency: usize,
    /// When paused, the instant at which it goes on.
    pub resume_at: Option<u64>,
    /// While slowed down, the instant from which a success speeds it up.
    pub recover_at: Option<u64>,
}

/// The later of two instants.
pub open spec fn later(a: u64, b: u64) -> u64 {
    if a < b {
        b
    } else {
        a
    }
}

impl UploadControl {
    /// What always holds: one to four jobs at a time, and a way back to four.
    pub open spec fn wf(self) -> bool {
        &&& 1 <= self.concurrency <= INITIAL_UPLOAD_CONCURRENCY
        &&& self.recover_at is None <==> self.concurrency == INITIAL_UPLOAD_CONCURRENCY
    }

    /// The control after a pause until `deadline`.
    pub open spec fn paused(self, deadline: u64) -> UploadControl {
        UploadControl {
            resume_at: Some(
                match self.resume_at {
                    Some(current) => later(current, deadline),
                    None => deadline,
                },
            ),
            ..self
        }
    }

    /// The control after throttling until `deadline`.
    pub open spec fn throttled(self, deadline: u64) -> UploadControl {
        let paused = self.paused(deadline);
        UploadControl {
            concurrency: 1,
            recover_at: Some(
                (paused.resume_at->0 + UPLOAD_CONCURRENCY_RECOVERY_INTERVAL) as u64,
            ),
            ..paused
        }
    }

    /// The control at an instant, without a pause that is over.
    pub open spec fn at(self, now: u64) -> UploadControl {
        match self.resume_at {
            Some(deadline) if deadline <= now => UploadControl { resume_at: None, ..self },
            _ => self,
        }
    }

    /// Whether a success at an instant speeds the scheduler up.
    pub open spec fn recovers(self, now: u64) -> bool {
        &&& self.concurrency < INITIAL_UPLOAD_CONCURRENCY
        &&& self.recover_at is Some
        &&& self.recover_at->0 <= now
    }

    /// The control after a success.
    pub open spec fn after_success(self, now: u64) -> UploadControl {
        if self.recovers(now) {
            UploadControl {
                concurrency: (self.concurrency + 1) as usize,
                recover_at: if self.concurrency + 1 < INITIAL_UPLOAD_CONCURRENCY {
                    Some((now + UPLOAD_CONCURRENCY_RECOVERY_INTERVAL) as u64)
                } else {
                    None
                },
                ..self
            }
        } else {
            self
        }
    }

    /// Full speed, no pause.
    pub fn new() -> (r: Self)
        ensures
            r == (UploadControl {
                concurrency: INITIAL_UPLOAD_CONCURRENCY,
                resume_at: None,
                recover_at: None,
            }),
            r.wf(),
    {
        UploadControl {
            concurrency: INITIAL_UPLOAD_CONCURRENCY,
            resume_at: None,
            recover_at: None,
        }
    }

    /// Pauses until `deadline`, or until a later deadline that is already set.
    pub fn pause_until(&mut self, deadline: u64)
        ensures
            *final(self) == old(self).paused(deadline),
    {
        match self.resume_at {
            Some(current) => {
                if current < deadline {
                    self.resume_at = Some(deadline);
                }
            },
            None => {
                self.resume_at = Some(deadline);
            },
        }
    }

    /// Pauses as `pause_until` does, and goes on with one job at a time. A minute after the
    /// pause ends the recovery begins.
    pub fn throttle_until(&mut self, deadline: u64)
        requires
            old(self).paused(deadline).resume_at->0 + UPLOAD_CONCURRENCY_RECOVERY_INTERVAL
                <= u64::MAX,
        ensures
            *final(self) == old(self).throttled(deadline),
            final(self).wf(),
    {
        self.concurrency = 1;
        self.pause_until(deadline);
        if let Some(resume_at) = self.resume_at {
            self.recover_at = Some(resume_at + UPLOAD_CONCURRENCY_RECOVERY_INTERVAL);
        }
    }

    /// Ends a pause whose deadline has come.
    pub fn clear_expired_pause(&mut self, now: u64)
        ensures
            *final(self) == old(self).at(now),
    {
        if let Some(deadline) = self.resume_at {
            if deadline <= now {
                self.resume_at = None;
            }
        }
    }

    /// After a quiet interval, lets a success add one job at a time. The next interval begins
    /// now, so that a long idle period does not restore full speed at once. Returns the new
    /// number of jobs if it changed.
    pub fn recover_after_success(&mut self, now: u64) -> (r: Option<usize>)
        requires
            now + UPLOAD_CONCURRENCY_RECOVERY_INTERVAL <= u64::MAX,
        ensures
            *final(self) == old(self).after_success(now),
            r == if old(self).recovers(now) {
                Some(final(self).concurrency)
            } else {
                None
            },
            old(self).wf() ==> final(self).wf(),
    {
        if self.concurrency >= INITIAL_UPLOAD_CONCURRENCY {
            return None;
        }
        match self.recover_at {
            Some(deadline) => {
                if deadline > now {
                    return None;
                }
            },
            None => {
                return None;
            },
        }
        self.concurrency = self.concurrency + 1;
        self.recover_at = if self.concurrency < INITIAL_UPLOAD_CONCURRENCY {
            Some(now + UPLOAD_CONCURRENCY_RECOVERY_INTERVAL)
        } else {
            None
        };
        Some(self.concurrency)
    }
}

/// Whether an instant leaves room for the longest wait and the recovery after it.
pub open spec fn clock_in_range(now: u64) -> bool {
    now <= u64::MAX - 2_000_000
}

/// Whether the pause of a control leaves room for the recovery after it.
pub open spec fn pause_in_range(control: UploadControl) -> bool {
    control.resume_at is Some ==> control.resume_at->0 <= u64::MAX
        - UPLOAD_CONCURRENCY_RECOVERY_INTERVAL
}

/// Why a job that has failed once more is given up, if it is.
pub open spec fn give_up(job: UploadJob, failure: UploadFailure) -> Option<GiveUp> {
    if failure.flood_wait is Some && failure.flood_wait->0 > MAX_FLOOD_WAIT {
        Some(GiveUp::WaitTooLong)
    } else if job.failures + 1 > MAX_UPLOAD_RETRIES {
        Some(GiveUp::TooManyRetries)
    } else {
        None
    }
}

/// Seconds until a job that has failed once more is tried again.
pub open spec fn retry_delay(job: UploadJob, failure: UploadFailure) -> int {
    match failure.flood_wait {
        Some(wait) => wait + 1,
        None => backoff_seconds((job.failures + 1) as u32) as int,
    }
}

/// The job after one more failure.
pub open spec fn failed_once_more(job: UploadJob) -> UploadJob {
    UploadJob { failures: (job.failures + 1) as u32, ..job }
}

/// What becomes of a job that has run: the answer, the jobs to try again, and the control.
pub open spec fn finished(
    result: Option<(UploadJob, Result<(), UploadFailure>)>,
    retries: Seq<UploadJob>,
    control: UploadControl,
    now: u64,
) -> (JobReply, Seq<UploadJob>, UploadControl) {
    match result {
        None => (JobReply::Lost, retries, control),
        Some((job, outcome)) => {
            if job.cancelled {
                (JobReply::Dropped, retries, control)
            } else {
                match outcome {
                    Ok(()) => (JobReply::Succeeded(job), retries, control.after_success(now)),
                    Err(failure) => match give_up(job, failure) {
                        Some(reason) => (
                            JobReply::Failed(failed_once_more(job), reason),
                            retries,
                            control,
                        ),
                        None => {
                            let retry_at = (now + 1000 * retry_delay(job, failure)) as u64;
                            (
                                JobReply::Requeued,
                                retries.push(failed_once_more(job)),
                                if failure.flood_wait is Some {
                                    control.throttled(retry_at)
                                } else {
                                    control.paused(retry_at)
                                },
                            )
                        },
                    },
                }
            }
        },
    }
}

/// Settles a job that has run. A cancelled job is forgotten. A success may speed the scheduler
/// up. A failure is tried again after a pause, unless it has failed too often or the server asks
/// for too long a wait; a request to slow down also reduces the scheduler to one job at a time.
/// `result` is `None` if the job was lost.
pub fn finish_upload_job(
    result: Option<(UploadJob, Result<(), UploadFailure>)>,
    retries: &mut VecDeque<UploadJob>,
    control: &mut UploadControl,
    now: u64,
) -> (r: JobReply)
    requires
        clock_in_range(now),
        pause_in_range(*old(control)),
        result is Some ==> (result->0).0.failures < u32::MAX,
    ensures
        (r, final(retries)@, *final(control)) == finished(
            result,
            old(retries)@,
            *old(control),
            now,
        ),
        pause_in_range(*final(control)),
        old(control).wf() ==> final(control).wf(),
{
    let (mut job, outcome) = match result {
        Some((job, outcome)) => (job, outcome),
        None => {
            return JobReply::Lost;
        },
    };
    if job.cancelled {
        return JobReply::Dropped;
    }
    match outcome {
        Ok(()) => {
            let _ = control.recover_after_success(now);
            JobReply::Succeeded(job)
        },
        Err(failure) => {
            let ghost before = job;
            job.failures = job.failures + 1;
            let wait_too_long: bool = match failure.flood_wait {
                Some(wait) => wait > MAX_FLOOD_WAIT,
                None => false,
            };
            if wait_too_long {
                return JobReply::Failed(job, GiveUp::WaitTooLong);
            }
            if job.failures > MAX_UPLOAD_RETRIES {
                return JobReply::Failed(job, GiveUp::TooManyRetries);
            }
            let delay: u64 = match failure.flood_wait {
                Some(wait) => wait + 1,
                None => backoff(job.failures),
            };
            let retry_at: u64 = now + 1000 * delay;
            if failure.flood_wait.is_some() {
                control.throttle_until(retry_at);
            } else {
                control.pause_until(retry_at);
            }
            retries.push_back(job);
            JobReply::Requeued
        },
    }
}

/// The place of the first job that somebody still waits for.
pub open spec fn first_live(jobs: Seq<UploadJob>) -> int
    decreases jobs.len(),
{
    if jobs.len() == 0 || !jobs[0].cancelled {
        0
    } else {
        1 + first_live(jobs.drop_first())
    }
}

/// The first live job stands within the queue or at its end.
pub proof fn first_live_bounds(jobs: Seq<UploadJob>)
    ensures
        0 <= first_live(jobs) <= jobs.len(),
        first_live(jobs) < jobs.len() ==> !jobs[first_live(jobs)].cancelled,
        forall|i: int| 0 <= i < first_live(jobs) ==> (#[trigger] jobs[i]).cancelled,
    decreases jobs.len(),
{
    if jobs.len() > 0 && jobs[0].cancelled {
        first_live_bounds(jobs.drop_first());
        assert forall|i: int| 0 <= i < first_live(jobs) implies (#[trigger] jobs[i]).cancelled by {
            if i > 0 {
                assert(jobs[i] == jobs.drop_first()[i - 1]);
            }
        }
    }
}

/// Takes the first job off a queue that somebody still waits for, and forgets those before it.
pub fn next_retry(retries: &mut VecDeque<UploadJob>) -> (r: Option<UploadJob>)
    ensures
        ({
            let jobs = old(retries)@;
            let k = first_live(jobs);
            if k < jobs.len() {
                r == Some(jobs[k]) && final(retries)@ == jobs.subrange(k + 1, jobs.len() as int)
            } else {
                r is None && final(retries)@ == Seq::<UploadJob>::empty()
            }
        }),
{
    let ghost jobs = retries@;
    let ghost mut dropped: int = 0;
    assert(jobs.subrange(0, jobs.len() as int) =~= jobs);
    loop
        invariant
            0 <= dropped <= jobs.len(),
            retries@ == jobs.subrange(dropped, jobs.len() as int),
            first_live(jobs) == dropped + first_live(retries@),
            jobs == old(retries)@,
        decreases jobs.len() - dropped,
    {
        match retries.pop_front() {
            Some(job) => {
                proof {
                    let rest = jobs.subrange(dropped, jobs.len() as int);
                    assert(retries@ =~= rest.drop_first());
                    assert(retries@ =~= jobs.subrange(dropped + 1, jobs.len() as int));
                    dropped = dropped + 1;
                }
                if !job.cancelled {
                    return Some(job);
                }
            },
            None => {
                assert(retries@ =~= Seq::<UploadJob>::empty());
                return None;
            },
        }
    }
}

/// What the scheduler asks for next.
#[derive(Debug)]
pub enum UploaderAction {
    /// Start a job.
    Start(UploadJob),
    /// See whether a new job is waiting, without waiting for one.
    Poll,
    /// Nothing is left to do, and nothing will come.
    Stop,
    /// Wait until an instant.
    Sleep(u64),
    /// Wait until a job has run, or until an instant.
    WaitResultUntil(u64),
    /// Wait until a job has run.
    WaitResult,
    /// Wait until a new job comes.
    WaitInput,
    /// Wait until a job has run or a new one comes.
    WaitResultOrInput,
}

/// What the scheduler knows.
pub ghost struct SchedulerView {
    /// Failed jobs to try again, first come first.
    pub retries: Seq<UploadJob>,
    /// How many jobs are running.
    pub in_flight: int,
    pub control: UploadControl,
    /// Whether no new job will come.
    pub input_closed: bool,
    /// Whether no new job was waiting when last looked.
    pub drained: bool,
}

impl SchedulerView {
    /// What always holds: never more than four jobs run, and none is tried again more than
    /// five times.
    pub open spec fn wf(self) -> bool {
        &&& self.control.wf()
        &&& pause_in_range(self.control)
        &&& 0 <= self.in_flight <= INITIAL_UPLOAD_CONCURRENCY
        &&& forall|i: int|
            0 <= i < self.retries.len() ==> 1 <= (#[trigger] self.retries[i]).failures
                <= MAX_UPLOAD_RETRIES
    }

    /// Whether a job may be started now.
    pub open spec fn has_room(self) -> bool {
        self.control.resume_at is None && self.in_flight < self.control.concurrency
    }

    /// What to wait for when no job can be started.
    pub open spec fn idle_action(self) -> UploaderAction {
        if self.input_closed && self.retries.len() == 0 && self.in_flight == 0 {
            UploaderAction::Stop
        } else if self.control.resume_at is Some {
            if self.in_flight == 0 {
                UploaderAction::Sleep(self.control.resume_at->0)
            } else {
                UploaderAction::WaitResultUntil(self.control.resume_at->0)
            }
        } else if self.in_flight > 0 && (self.retries.len() > 0 || self.in_flight
            >= self.control.concurrency || self.input_closed) {
            UploaderAction::WaitResult
        } else if self.in_flight == 0 {
            UploaderAction::WaitInput
        } else {
            UploaderAction::WaitResultOrInput
        }
    }

    /// What the scheduler asks for at an instant, and what it knows then.
    pub open spec fn next(self, now: u64) -> (UploaderAction, SchedulerView) {
        let at = SchedulerView { control: self.control.at(now), ..self };
        if at.has_room() {
            let k = first_live(at.retries);
            if k < at.retries.len() {
                (
                    UploaderAction::Start(at.retries[k]),
                    SchedulerView {
                        retries: at.retries.subrange(k + 1, at.retries.len() as int),
                        in_flight: at.in_flight + 1,
                        ..at
                    },
                )
            } else {
                let live = SchedulerView { retries: Seq::empty(), ..at };
                if !at.input_closed && !at.drained {
                    (UploaderAction::Poll, live)
                } else {
                    (live.idle_action(), SchedulerView { drained: false, ..live })
                }
            }
        } else {
            (at.idle_action(), SchedulerView { drained: false, ..at })
        }
    }
}

/// The upload scheduler.
pub struct Scheduler {
    retries: VecDeque<UploadJob>,
    in_flight: usize,
    control: UploadControl,
    input_closed: bool,
    drained: bool,
}

impl View for Scheduler {
    type V = SchedulerView;

    closed spec fn view(&self) -> SchedulerView {
        SchedulerView {
            retries: self.retries@,
            in_flight: self.in_flight as int,
            control: self.control,
            input_closed: self.input_closed,
            drained: self.drained,
        }
    }
}

impl Scheduler {
    /// A scheduler with nothing to do yet.
    pub fn new() -> (r: Self)
        ensures
            r@.wf(),
            r@ == (SchedulerView {
                retries: Seq::empty(),
                in_flight: 0,
                control: UploadControl {
                    concurrency: INITIAL_UPLOAD_CONCURRENCY,
                    resume_at: None,
                    recover_at: None,
                },
                input_closed: false,
                drained: false,
            }),
    {
        let r = Scheduler {
            retries: VecDeque::new(),
            in_flight: 0,
            control: UploadControl::new(),
            input_closed: false,
            drained: false,
        };
        assert(r.retries@ =~= Seq::<UploadJob>::empty());
        r
    }

    /// How fast the scheduler may go.
    pub fn control(&self) -> (r: UploadControl)
        ensures
            r == self@.control,
    {
        self.control
    }

    /// How many jobs are running.
    pub fn in_flight(&self) -> (r: usize)
        ensures
            r == self@.in_flight,
    {
        self.in_flight
    }

    /// How many jobs are to be tried again.
    pub fn retry_count(&self) -> (r: usize)
        ensures
            r == self@.retries.len(),
    {
        self.retries.len()
    }

    /// Decides what to do at an instant: end a pause that is over; start jobs while there is
    /// room, failed ones before new ones; else wait.
    pub fn next_action(&mut self, now: u64) -> (r: UploaderAction)
        requires
            old(self)@.wf(),
        ensures
            (r, final(self)@) == old(self)@.next(now),
            final(self)@.wf(),
            r is Start ==> final(self)@.in_flight <= final(self)@.control.concurrency
                && final(self)@.control.resume_at is None && !r->Start_0.cancelled,
            r is Stop <==> final(self)@.input_closed && final(self)@.retries.len() == 0
                && final(self)@.in_flight == 0,
            r is WaitInput || r is WaitResultOrInput ==> final(self)@.has_room(),
    {
        self.control.clear_expired_pause(now);
        let ghost at = self@;
        proof {
            first_live_bounds(at.retries);
        }
        if self.control.resume_at.is_none() && self.in_flight < self.control.concurrency {
            if let Some(job) = next_retry(&mut self.retries) {
                self.in_flight = self.in_flight + 1;
                return UploaderAction::Start(job);
            }
            if !self.input_closed && !self.drained {
                return UploaderAction::Poll;
            }
        }
        self.drained = false;
        if self.input_closed && self.retries.len() == 0 && self.in_flight == 0 {
            return UploaderAction::Stop;
        }
        if let Some(deadline) = self.control.resume_at {
            if self.in_flight == 0 {
                return UploaderAction::Sleep(deadline);
            }
            return UploaderAction::WaitResultUntil(deadline);
        }
        if self.in_flight > 0 && (self.retries.len() > 0 || self.in_flight
            >= self.control.concurrency || self.input_closed) {
            return UploaderAction::WaitResult;
        }
        if self.in_flight == 0 {
            UploaderAction::WaitInput
        } else {
            UploaderAction::WaitResultOrInput
        }
    }

    /// Takes a new job, which is returned to be started unless it is cancelled. `None` means
    /// that no new job will come.
    pub fn received(&mut self, job: Option<UploadJob>) -> (r: Option<UploadJob>)
        requires
            old(self)@.wf(),
            old(self)@.has_room(),
        ensures
            final(self)@.wf(),
            match job {
                Some(j) => if j.cancelled {
                    r is None && final(self)@ == old(self)@
                } else {
                    r == Some(j) && final(self)@ == (SchedulerView {
                        in_flight: old(self)@.in_flight + 1,
                        ..old(self)@
                    })
                },
                None => r is None && final(self)@ == (SchedulerView {
                    input_closed: true,
                    ..old(self)@
                }),
            },
            final(self)@.in_flight <= final(self)@.control.concurrency,
    {
        match job {
            Some(job) => {
                if job.cancelled {
                    return None;
                }
                self.in_flight = self.in_flight + 1;
                Some(job)
            },
            None => {
                self.input_closed = true;
                None
            },
        }
    }

    /// Notes that no new job was waiting.
    pub fn nothing_waiting(&mut self)
        requires
            old(self)@.wf(),
        ensures
            final(self)@.wf(),
            final(self)@ == (SchedulerView { drained: true, ..old(self)@ }),
    {
        self.drained = true;
    }

    /// Ends a pause.
    pub fn woke(&mut self)
        requires
            old(self)@.wf(),
        ensures
            final(self)@.wf(),
            final(self)@ == (SchedulerView {
                control: UploadControl { resume_at: None, ..old(self)@.control },
                ..old(self)@
            }),
    {
        self.control.resume_at = None;
    }

    /// Notes that nobody waits any more for the failed jobs with a number.
    pub fn cancel(&mut self, id: u64)
        requires
            old(self)@.wf(),
        ensures
            final(self)@.wf(),
            final(self)@ == (SchedulerView {
                retries: cancelled_in(old(self)@.retries, id),
                ..old(self)@
            }),
    {
        let ghost jobs = self.retries@;
        let ghost mark = |job: UploadJob|
            if job.id == id {
                UploadJob { cancelled: true, ..job }
            } else {
                job
            };
        let total: usize = self.retries.len();
        let mut i: usize = 0;
        assert(self.retries@ =~= jobs.subrange(0, total as int) + jobs.subrange(0, 0).map_values(
            mark,
        ));
        while i < total
            invariant
                i <= total == jobs.len(),
                jobs == old(self)@.retries,
                self.in_flight as int == old(self)@.in_flight,
                self.control == old(self)@.control,
                self.input_closed == old(self)@.input_closed,
                self.drained == old(self)@.drained,
                mark == (|job: UploadJob|
                    if job.id == id {
                        UploadJob { cancelled: true, ..job }
                    } else {
                        job
                    }),
                self.retries@ == jobs.subrange(i as int, total as int) + jobs.subrange(
                    0,
                    i as int,
                ).map_values(mark),
            decreases total - i,
        {
            if let Some(mut job) = self.retries.pop_front() {
                assert(job == jobs[i as int]);
                if job.id == id {
                    job.cancelled = true;
                }
                self.retries.push_back(job);
            }
            i += 1;
            assert(self.retries@ =~= jobs.subrange(i as int, total as int) + jobs.subrange(
                0,
                i as int,
            ).map_values(mark));
        }
        assert(self.retries@ =~= jobs.map_values(mark));
    }

    /// Settles a job that has run.
    pub fn job_finished(
        &mut self,
        result: Option<(UploadJob, Result<(), UploadFailure>)>,
        now: u64,
    ) -> (r: JobReply)
        requires
            old(self)@.wf(),
            old(self)@.in_flight > 0,
            clock_in_range(now),
            result is Some ==> (result->0).0.failures <= MAX_UPLOAD_RETRIES,
        ensures
            final(self)@.wf(),
            ({
                let (reply, retries, control) = finished(
                    result,
                    old(self)@.retries,
                    old(self)@.control,
                    now,
                );
                r == reply && final(self)@ == (SchedulerView {
                    retries,
                    control,
                    in_flight: old(self)@.in_flight - 1,
                    ..old(self)@
                })
            }),
    {
        self.in_flight = self.in_flight - 1;
        finish_upload_job(result, &mut self.retries, &mut self.control, now)
    }
}

/// A request to slow down leaves one job at a time, whatever the pace was.
pub proof fn flood_leaves_one(
    job: UploadJob,
    wait: u64,
    retries: Seq<UploadJob>,
    control: UploadControl,
    now: u64,
)
    requires
        clock_in_range(now),
        pause_in_range(control),
        !job.cancelled,
        job.failures < MAX_UPLOAD_RETRIES,
        wait <= MAX_FLOOD_WAIT,
    ensures
        ({
            let failure = UploadFailure { flood_wait: Some(wait) };
            let (reply, queue, after) = finished(
                Some((job, Err::<(), UploadFailure>(failure))),
                retries,
                control,
                now,
            );
            &&& reply is Requeued
            &&& queue == retries.push(failed_once_more(job))
            &&& after.concurrency == 1
            &&& after.resume_at->0 >= now + 1000 * (wait + 1)
            &&& after.recover_at->0 == after.resume_at->0 + UPLOAD_CONCURRENCY_RECOVERY_INTERVAL
        }),
{
}

/// A success speeds the scheduler up by one job at most, and only once the quiet interval is
/// over; the next step then takes another whole interval.
pub proof fn one_step_per_interval(control: UploadControl, now: u64, next: u64)
    requires
        control.wf(),
        clock_in_range(now),
        clock_in_range(next),
    ensures
        control.after_success(now).concurrency <= control.concurrency + 1,
        control.after_success(now).concurrency > control.concurrency ==> control.recover_at->0
            <= now,
        control.recovers(now) && next < now + UPLOAD_CONCURRENCY_RECOVERY_INTERVAL
            ==> control.after_success(now).after_success(next) == control.after_success(now),
{
}

/// The pause after a failure is one second at first, twice as long after each further one, and
/// never longer than half a minute and two seconds.
pub proof fn pauses_double(failures: u32)
    ensures
        failures == 0 ==> backoff_seconds(failures) == 1,
        0 < failures <= 5 ==> backoff_seconds(failures) == 2 * backoff_seconds(
            (failures - 1) as u32,
        ),
        failures >= 5 ==> backoff_seconds(failures) == 32,
{
    reveal_with_fuel(doubled, 7);
}

/// What becomes of a job that ran. One that nobody waits for is dropped, and one that succeeded is
/// answered. One that failed is given up just if the server asks for more than half an hour, or if
/// this was its sixth failure; else it goes to the end of the queue, unchanged but for one failure
/// more, and nothing starts before the wait is over. Every job is answered, dropped or queued, and
/// the jobs that wait already keep their places.
pub proof fn no_job_is_lost(
    job: UploadJob,
    outcome: Result<(), UploadFailure>,
    retries: Seq<UploadJob>,
    control: UploadControl,
    now: u64,
)
    requires
        clock_in_range(now),
        pause_in_range(control),
        job.failures < u32::MAX,
    ensures
        ({
            let (reply, queue, after) = finished(Some((job, outcome)), retries, control, now);
            let wait = outcome->Err_0.flood_wait;
            let hopeless = (wait is Some && wait->0 > 1800) || job.failures >= 5;
            let again = UploadJob { failures: (job.failures + 1) as u32, ..job };
            let seconds = if wait is Some {
                wait->0 + 1
            } else {
                backoff_seconds((job.failures + 1) as u32) as int
            };
            &&& job.cancelled <==> reply is Dropped
            &&& job.cancelled ==> after == control
            &&& !job.cancelled && outcome is Ok <==> reply is Succeeded
            &&& reply is Succeeded ==> reply->Succeeded_0 == job
            &&& !job.cancelled && outcome is Err && hopeless <==> reply is Failed
            &&& reply is Failed ==> reply->Failed_0 == again && after == control
            &&& reply is Failed ==> (reply->Failed_1 == if wait is Some && wait->0 > 1800 {
                GiveUp::WaitTooLong
            } else {
                GiveUp::TooManyRetries
            })
            &&& !job.cancelled && outcome is Err && !hopeless <==> reply is Requeued
            &&& queue == if reply is Requeued {
                retries.push(again)
            } else {
                retries
            }
            &&& reply is Requeued ==> after.resume_at is Some && after.resume_at->0 >= now + 1000
                * seconds && (control.resume_at is Some ==> after.resume_at->0
                >= control.resume_at->0)
            &&& reply is Requeued ==> after.resume_at->0 == now + 1000 * seconds
                || after.resume_at == control.resume_at
            &&& reply is Requeued && wait is None ==> after.concurrency == control.concurrency
                && after.recover_at == control.recover_at
        }),
{
    let (reply, queue, after) = finished(Some((job, outcome)), retries, control, now);
    reveal_with_fuel(doubled, 7);
    if !job.cancelled && outcome is Err && give_up(job, outcome->Err_0) is None {
        assert(now + 1000 * retry_delay(job, outcome->Err_0) <= u64::MAX);
    }
}

/// A pause only ever grows while it lasts, and it ends just when its time has come.
pub proof fn pauses_are_kept(control: UploadControl, deadline: u64, now: u64)
    ensures
        ({
            let paused = control.paused(deadline);
            &&& paused.resume_at is Some
            &&& paused.resume_at->0 >= deadline
            &&& control.resume_at is Some ==> paused.resume_at->0 >= control.resume_at->0
            &&& paused.resume_at == Some(deadline) || paused.resume_at == control.resume_at
            &&& paused.concurrency == control.concurrency
            &&& control.at(now).resume_at is Some <==> control.resume_at is Some
                && control.resume_at->0 > now
            &&& control.at(now).resume_at is Some ==> control.at(now) == control
            &&& control.at(now).concurrency == control.concurrency
        }),
{
}

/// What the scheduler does next, at an instant: it starts no job during a pause or beyond the pace;
/// a failed job that somebody waits for goes before any new one, and the one that failed first goes
/// first; new jobs are looked for only where no failed one is left. No job leaves the queue but the
/// one that starts and those that nobody waits for.
pub proof fn failed_jobs_go_first(view: SchedulerView, now: u64)
    requires
        view.wf(),
    ensures
        ({
            let (action, after) = view.next(now);
            let paused = view.control.resume_at is Some && view.control.resume_at->0 > now;
            let room = !paused && view.in_flight < view.control.concurrency;
            let waiting = exists|i: int|
                0 <= i < view.retries.len() && !(#[trigger] view.retries[i]).cancelled;
            &&& action is Start <==> room && waiting
            &&& action is Start ==> exists|i: int|
                {
                    &&& 0 <= i < view.retries.len()
                    &&& (#[trigger] view.retries[i]) == action->Start_0
                    &&& !view.retries[i].cancelled
                    &&& forall|j: int| 0 <= j < i ==> (#[trigger] view.retries[j]).cancelled
                    &&& after.retries == view.retries.subrange(i + 1, view.retries.len() as int)
                }
            &&& action is Start ==> after.in_flight == view.in_flight + 1
            &&& !(action is Start) ==> after.in_flight == view.in_flight
            &&& action is Poll <==> room && !waiting && !view.input_closed && !view.drained
            &&& !(action is Start) && !(action is Poll) ==> action == after.idle_action()
                && !after.drained
            &&& action is Start || action is Poll ==> after.drained == view.drained
            &&& room && !waiting ==> after.retries.len() == 0
            &&& !room ==> after.retries == view.retries
            &&& after.input_closed == view.input_closed
            &&& after.control.concurrency == view.control.concurrency
            &&& after.control.resume_at is Some <==> paused
        }),
{
    let at = SchedulerView { control: view.control.at(now), ..view };
    first_live_bounds(at.retries);
    let k = first_live(at.retries);
    if k < at.retries.len() {
        assert(!view.retries[k].cancelled);
    }
}

/// How the scheduler waits when it starts nothing: it stops just if no job can come any more; in a
/// pause it waits no longer than the pause; it waits for a result only where a job is under way;
/// and it waits for new jobs only where one could start.
pub proof fn waiting_is_for_what_can_come(view: SchedulerView)
    ensures
        ({
            let action = view.idle_action();
            let over = view.input_closed && view.retries.len() == 0 && view.in_flight == 0;
            &&& action is Stop <==> over
            &&& action is Sleep ==> view.in_flight == 0 && view.control.resume_at == Some(
                action->Sleep_0,
            )
            &&& action is WaitResultUntil ==> view.in_flight != 0 && view.control.resume_at == Some(
                action->WaitResultUntil_0,
            )
            &&& !over && view.control.resume_at is Some ==> action is Sleep || action
                is WaitResultUntil
            &&& !over && view.control.resume_at is Some ==> (action is Sleep <==> view.in_flight
                == 0)
            &&& action is WaitInput <==> !over && view.control.resume_at is None && view.in_flight
                == 0
            &&& view.in_flight > 0 ==> (action is WaitResultOrInput <==> view.control.resume_at
                is None && view.retries.len() == 0 && view.in_flight < view.control.concurrency
                && !view.input_closed)
            &&& action is WaitResult || action is WaitResultOrInput ==> view.in_flight != 0
            &&& action is WaitResultOrInput && view.in_flight > 0 ==> view.in_flight
                < view.control.concurrency && !view.input_closed
            &&& !(action is Start) && !(action is Poll)
        }),
{
}

/// The seconds that an error asks to wait for, if it does.
pub open spec fn asked_wait(error: RpcFailure) -> Option<u64> {
    if error.code == 420 {
        Some(
            match error.value {
                Some(seconds) => seconds as u64,
                None => 1u64,
            },
        )
    } else {
        None
    }
}

/// The server asks for a wait just with the code for floods, for as many seconds as it says; where
/// it does not say, one second is waited.
pub proof fn floods_ask_for_their_wait(error: RpcFailure)
    ensures
        asked_wait(error) is Some <==> error.code == 420,
        asked_wait(error) is Some && error.value is Some ==> asked_wait(error)->0
            == error.value->0,
        asked_wait(error) is Some && error.value is None ==> asked_wait(error)->0 == 1,
{
}

/// Failed jobs once nobody waits any more for those with a number.
pub open spec fn cancelled_in(jobs: Seq<UploadJob>, id: u64) -> Seq<UploadJob> {
    jobs.map_values(
        |job: UploadJob|
            if job.id == id {
                UploadJob { cancelled: true, ..job }
            } else {
                job
            },
    )
}

/// To cancel a job marks it alone: every other keeps its place and what it is, and the marked one
/// is not started any more.
pub proof fn cancelling_marks_the_job_alone(jobs: Seq<UploadJob>, id: u64, i: int)
    requires
        0 <= i < jobs.len(),
    ensures
        cancelled_in(jobs, id).len() == jobs.len(),
        jobs[i].id != id ==> cancelled_in(jobs, id)[i] == jobs[i],
        jobs[i].id == id ==> cancelled_in(jobs, id)[i].cancelled,
        cancelled_in(jobs, id)[i].id == jobs[i].id,
        cancelled_in(jobs, id)[i].kind == jobs[i].kind,
        cancelled_in(jobs, id)[i].failures == jobs[i].failures,
{
}

/// After a request to slow down the pace comes back one job at a time: a success adds one just if
/// the time for it has come, the next may follow a minute later, and at four the pace is full.
pub proof fn the_pace_comes_back(control: UploadControl, now: u64)
    requires
        control.wf(),
        clock_in_range(now),
    ensures
        ({
            let after = control.after_success(now);
            let due = control.concurrency < 4 && control.recover_at is Some
                && control.recover_at->0 <= now;
            &&& control.recovers(now) <==> due
            &&& after.concurrency == control.concurrency + if due {
                1int
            } else {
                0
            }
            &&& due && after.concurrency < 4 ==> after.recover_at == Some((now + 60_000) as u64)
            &&& due && after.concurrency == 4 ==> after.recover_at is None
            &&& !due ==> after == control
            &&& after.resume_at == control.resume_at
        }),
{
}

} // verus!
