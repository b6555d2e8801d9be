//! Mining jobs, and the one that the workers share.
use crate::hex;
use crate::hex::{cuts_char, decode_hex};
use crate::sandglass::HEADER_LEN;
use vstd::prelude::*;
use vstd::string::*;
use vstd::utf8::*;

verus! {

/// A mining job: a header to find a nonce for, and the target its hash must
/// come below.
#[derive(Clone, Copy)]
pub struct Job {
    pub id: u64,
    pub header: [u8; HEADER_LEN],
    pub target: [u8; 32],
    pub nonce_offset: u32,
    pub nonce_stride: u32,
}

/// What a controller may ask for.
pub enum Command {
    Start {
        job_id: u64,
        header_hex: String,
        target_hex: String,
        nonce_offset: u32,
        nonce_stride: u32,
    },
    Stop,
    Shutdown,
}

/// What becomes of a command.
pub enum Reply {
    /// It was carried out.
    Done,
    /// It was not understood; the message says why.
    Rejected(String),
    /// The process is to end.
    Leave,
}

/// What a worker does next.
pub enum Task {
    /// Wait for the shared state to change.
    Wait,
    /// End.
    Leave,
    /// Grind a job until the generation is no longer this one.
    Grind { job: Job, generation: u64 },
}

/// The bytes that a job's text stands for can be read without cutting through a
/// character: the header's, and where that is well-formed the target's.
pub open spec fn readable(header: Seq<char>, target: Seq<char>, nonce_stride: u32) -> bool {
    nonce_stride > 0 ==> {
        &&& !hex::cuts_a_char(encode_utf8(header), HEADER_LEN as nat)
        &&& hex::decoded(encode_utf8(header), HEADER_LEN as nat) is Some ==> !hex::cuts_a_char(
            encode_utf8(target),
            32,
        )
    }
}

/// The job that the given parts describe, or what is wrong with them.
pub open spec fn described(
    id: u64,
    header: Seq<char>,
    target: Seq<char>,
    nonce_offset: u32,
    nonce_stride: u32,
    result: Result<Job, String>,
) -> bool {
    let header_bytes = hex::decoded(encode_utf8(header), HEADER_LEN as nat);
    let target_bytes = hex::decoded(encode_utf8(target), 32);
    if nonce_stride == 0 {
        result matches Err(message) && message@ == "nonceStride must be positive"@
    } else if header_bytes is None {
        result matches Err(message) && message@ == "headerHex must contain exactly 148 bytes"@
    } else if target_bytes is None {
        result matches Err(message) && message@ == "targetHex must contain exactly 32 bytes"@
    } else {
        &&& result matches Ok(job)
        &&& job.id == id
        &&& job.header@ == header_bytes->0
        &&& job.target@ == target_bytes->0
        &&& job.nonce_offset == nonce_offset
        &&& job.nonce_stride == nonce_stride
    }
}

/// Whether a job's text can be read without cutting through a character.
pub fn is_readable(header: &str, target: &str, nonce_stride: u32) -> (yes: bool)
    ensures
        yes == readable(header@, target@, nonce_stride),
{
    if nonce_stride == 0 {
        return true;
    }
    if cuts_char::<HEADER_LEN>(header) {
        return false;
    }
    decode_hex::<HEADER_LEN>(header).is_none() || !cuts_char::<32>(target)
}

/// Makes a job of its parts.
pub fn parse_job(
    id: u64,
    header: &str,
    target: &str,
    nonce_offset: u32,
    nonce_stride: u32,
) -> (result: Result<Job, String>)
    requires
        readable(header@, target@, nonce_stride),
    ensures
        described(id, header@, target@, nonce_offset, nonce_stride, result),
{
    if nonce_stride == 0 {
        return Err("nonceStride must be positive".to_owned());
    }
    let header = match decode_hex::<HEADER_LEN>(header) {
        Some(bytes) => bytes,
        None => {
            return Err("headerHex must contain exactly 148 bytes".to_owned());
        },
    };
    let target = match decode_hex::<32>(target) {
        Some(bytes) => bytes,
        None => {
            return Err("targetHex must contain exactly 32 bytes".to_owned());
        },
    };
    Ok(Job { id, header, target, nonce_offset, nonce_stride })
}

/// The state that the workers share: the job there is, if any, whether they are
/// to end, and a generation that every change of either moves on.
pub struct JobState {
    pub job: Option<Job>,
    pub shutdown: bool,
    pub generation: u64,
}

/// The state after its job has been replaced.
pub open spec fn replaced(state: JobState, job: Option<Job>) -> JobState {
    JobState { job, shutdown: state.shutdown, generation: state.generation.wrapping_add(1) }
}

/// The state after a worker has finished with the job of `generation`.
pub open spec fn cleared(state: JobState, generation: u64) -> JobState {
    if state.generation == generation {
        replaced(state, None)
    } else {
        state
    }
}

/// The state after the workers have been told to end.
pub open spec fn shut_down(state: JobState) -> JobState {
    JobState { job: state.job, shutdown: true, generation: state.generation.wrapping_add(1) }
}

/// What a worker does next that last took up the generation `seen`.
pub open spec fn task_of(state: JobState, seen: u64) -> Task {
    if state.shutdown {
        Task::Leave
    } else {
        match state.job {
            Some(job) if state.generation != seen => Task::Grind {
                job,
                generation: state.generation,
            },
            _ => Task::Wait,
        }
    }
}

/// Hexadecimal text of a header and of a target makes a job of just that header
/// and that target, with the other parts as they were given.
pub proof fn law_job_reads_back(
    id: u64,
    header: Seq<u8>,
    target: Seq<u8>,
    nonce_offset: u32,
    nonce_stride: u32,
    result: Result<Job, String>,
)
    requires
        header.len() == 148,
        target.len() == 32,
        nonce_stride > 0,
        described(
            id,
            hex::hex_of(header),
            hex::hex_of(target),
            nonce_offset,
            nonce_stride,
            result,
        ),
    ensures
        readable(hex::hex_of(header), hex::hex_of(target), nonce_stride),
        result is Ok,
        result->Ok_0.id == id,
        result->Ok_0.header@ == header,
        result->Ok_0.target@ == target,
        result->Ok_0.nonce_offset == nonce_offset,
        result->Ok_0.nonce_stride == nonce_stride,
{
    hex::law_hex_reads_back(header);
    hex::law_hex_reads_back(target);
}

/// A job says what its text says: byte `i` of the header and of the target is
/// what pair `i` of its text stands for, and the other parts are as they were
/// given.
pub proof fn law_job_is_what_its_text_says(
    id: u64,
    header: Seq<char>,
    target: Seq<char>,
    nonce_offset: u32,
    nonce_stride: u32,
    result: Result<Job, String>,
)
    requires
        described(id, header, target, nonce_offset, nonce_stride, result),
        result is Ok,
    ensures
        nonce_stride > 0,
        result->Ok_0.id == id,
        result->Ok_0.nonce_offset == nonce_offset,
        result->Ok_0.nonce_stride == nonce_stride,
        encode_utf8(header).len() == 296,
        encode_utf8(target).len() == 64,
        forall|i: int|
            0 <= i < 148 ==> hex::pair_value(encode_utf8(header)[2 * i], encode_utf8(header)[2 * i + 1])
                == Some(#[trigger] result->Ok_0.header@[i]),
        forall|i: int|
            0 <= i < 32 ==> hex::pair_value(encode_utf8(target)[2 * i], encode_utf8(target)[2 * i + 1])
                == Some(#[trigger] result->Ok_0.target@[i]),
{
    let job = result->Ok_0;
    hex::law_text_is_its_pairs_in_order(encode_utf8(header), 148, job.header@);
    hex::law_text_is_its_pairs_in_order(encode_utf8(target), 32, job.target@);
}

/// What is wrong with a job's parts: a stride of zero before all else, then a
/// header that is not 148 pairs that each stand for a byte, then a target that
/// is not 32. Where none of these holds there is a job.
pub proof fn law_first_fault_is_told(
    id: u64,
    header: Seq<char>,
    target: Seq<char>,
    nonce_offset: u32,
    nonce_stride: u32,
    result: Result<Job, String>,
)
    requires
        described(id, header, target, nonce_offset, nonce_stride, result),
    ensures
        ({
            let no_header = encode_utf8(header).len() != 296 || exists|i: int|
                0 <= i < 148 && #[trigger] hex::pair_at(encode_utf8(header), i) is None;
            let no_target = encode_utf8(target).len() != 64 || exists|i: int|
                0 <= i < 32 && #[trigger] hex::pair_at(encode_utf8(target), i) is None;
            &&& nonce_stride == 0 ==> result is Err && result->Err_0@
                == "nonceStride must be positive"@
            &&& nonce_stride > 0 && no_header ==> result is Err && result->Err_0@
                == "headerHex must contain exactly 148 bytes"@
            &&& nonce_stride > 0 && !no_header && no_target ==> result is Err && result->Err_0@
                == "targetHex must contain exactly 32 bytes"@
            &&& nonce_stride > 0 && !no_header && !no_target ==> result is Ok
        }),
{
    hex::law_text_is_its_pairs_in_order(encode_utf8(header), 148, Seq::empty());
    hex::law_text_is_its_pairs_in_order(encode_utf8(target), 32, Seq::empty());
}

/// Text without characters beyond ASCII can always be read, and so can a job
/// with a stride of zero, whose text is not looked at. Text cannot be read where
/// the header's is cut, nor where the target's is behind a header that stands
/// for its bytes.
pub proof fn law_ascii_text_is_readable(header: Seq<char>, target: Seq<char>, nonce_stride: u32)
    ensures
        is_ascii_chars(header) && is_ascii_chars(target) ==> readable(header, target, nonce_stride),
        readable(header, target, 0),
        nonce_stride > 0 && hex::cuts_a_char(encode_utf8(header), 148) ==> !readable(
            header,
            target,
            nonce_stride,
        ),
        nonce_stride > 0 && hex::decoded(encode_utf8(header), 148) is Some && hex::cuts_a_char(
            encode_utf8(target),
            32,
        ) ==> !readable(header, target, nonce_stride),
{
    if is_ascii_chars(header) && is_ascii_chars(target) {
        hex::law_ascii_is_never_cut(header, 148);
        hex::law_ascii_is_never_cut(target, 32);
    }
}

/// A worker takes up whatever job there is, unless it has seen its generation or
/// is to end: it grinds that very job at the state's generation. Otherwise it
/// waits, and it ends where the workers are to end.
pub proof fn law_unseen_job_is_taken_up(state: JobState, seen: u64)
    ensures
        state.shutdown ==> task_of(state, seen) is Leave,
        !state.shutdown && state.job is None ==> task_of(state, seen) is Wait,
        !state.shutdown && state.generation == seen ==> task_of(state, seen) is Wait,
        !state.shutdown && state.job is Some && state.generation != seen ==> {
            &&& task_of(state, seen) is Grind
            &&& task_of(state, seen)->job == state.job->0
            &&& task_of(state, seen)->generation == state.generation
        },
{
}

/// A new job is taken up by every worker, whatever generation it has seen last,
/// but for one that has seen the new job's own; however many jobs there were in
/// between, since a generation comes again only after 2^64 changes.
pub proof fn law_new_job_reaches_every_worker(state: JobState, job: Job, seen: u64)
    requires
        !state.shutdown,
        seen != (state.generation + 1) % 0x1_0000_0000_0000_0000,
    ensures
        task_of(replaced(state, Some(job)), seen) == (Task::Grind {
            job,
            generation: ((state.generation + 1) % 0x1_0000_0000_0000_0000) as u64,
        }),
{
}

/// What a change does to the shared state. Replacing the job changes the job and
/// counts the generation up, on 64 bits. Finishing the current job leaves none
/// and counts up; finishing any other changes nothing. Ending the workers keeps
/// the job and counts up.
pub proof fn law_changes_count_the_generation_up(
    state: JobState,
    job: Option<Job>,
    generation: u64,
)
    ensures
        ({
            let next = (state.generation + 1) % 0x1_0000_0000_0000_0000;
            &&& replaced(state, job).job == job
            &&& replaced(state, job).shutdown == state.shutdown
            &&& replaced(state, job).generation == next
            &&& shut_down(state).job == state.job
            &&& shut_down(state).shutdown
            &&& shut_down(state).generation == next
            &&& generation == state.generation ==> {
                &&& cleared(state, generation).job is None
                &&& cleared(state, generation).shutdown == state.shutdown
                &&& cleared(state, generation).generation == next
            }
            &&& generation != state.generation ==> cleared(state, generation) == state
        }),
{
}

/// A worker that finishes an earlier job does not take its successor away.
pub proof fn law_stale_finish_keeps_new_job(state: JobState, job: Option<Job>)
    ensures
        cleared(replaced(state, job), state.generation) == replaced(state, job),
{
}

/// Of several workers that finish one job, the first alone changes anything.
pub proof fn law_only_first_finish_counts(state: JobState, generation: u64)
    ensures
        cleared(cleared(state, generation), generation) == cleared(state, generation),
{
}

/// A replaced job is taken up once by a worker that had taken up the one
/// before, and by no worker a second time.
pub proof fn law_job_is_taken_up_once(state: JobState, job: Job)
    requires
        !state.shutdown,
    ensures
        task_of(replaced(state, Some(job)), state.generation) == (Task::Grind {
            job,
            generation: replaced(state, Some(job)).generation,
        }),
        task_of(replaced(state, Some(job)), replaced(state, Some(job)).generation) is Wait,
{
}

/// A worker that is grinding learns of every change: each moves the generation.
pub proof fn law_every_change_moves_generation(state: JobState, job: Option<Job>)
    ensures
        replaced(state, job).generation != state.generation,
        cleared(state, state.generation).generation != state.generation,
        shut_down(state).generation != state.generation,
{
}

/// When the job has been finished or withdrawn, and when the workers are to
/// end, no worker grinds.
pub proof fn law_no_work_without_job(state: JobState, seen: u64)
    ensures
        !(task_of(cleared(state, state.generation), seen) is Grind),
        !(task_of(replaced(state, None), seen) is Grind),
        task_of(shut_down(state), seen) is Leave,
{
}

/// Whether the generation has moved on from the one a worker is grinding.
pub fn generation_changed(current: u64, generation: u64) -> (changed: bool)
    ensures
        changed == (current != generation),
{
    current != generation
}

impl JobState {
    /// No job yet.
    pub fn new() -> (state: JobState)
        ensures
            state == (JobState { job: None, shutdown: false, generation: 0 }),
    {
        JobState { job: None, shutdown: false, generation: 0 }
    }

    /// Replaces the job.
    pub fn replace_job(&mut self, job: Option<Job>)
        ensures
            *final(self) == replaced(*old(self), job),
    {
        self.job = job;
        self.generation = self.generation.wrapping_add(1);
    }

    /// Drops the job if it is still the one of `generation`, and says whether
    /// it did.
    pub fn clear_current_job(&mut self, generation: u64) -> (dropped: bool)
        ensures
            dropped == (old(self).generation == generation),
            *final(self) == cleared(*old(self), generation),
    {
        if self.generation == generation {
            self.replace_job(None);
            true
        } else {
            false
        }
    }

    /// Tells the workers to end.
    pub fn shut_down(&mut self)
        ensures
            *final(self) == self::shut_down(*old(self)),
    {
        self.shutdown = true;
        self.generation = self.generation.wrapping_add(1);
    }

    /// What a worker does next that last took up the generation `seen`.
    pub fn next_task(&self, seen: u64) -> (task: Task)
        ensures
            task == task_of(*self, seen),
    {
        if self.shutdown {
            return Task::Leave;
        }
        match self.job {
            Some(job) => {
                if self.generation == seen {
                    Task::Wait
                } else {
                    Task::Grind { job, generation: self.generation }
                }
            },
            None => Task::Wait,
        }
    }

    /// Carries out a command. A command to end leaves the state to
    /// `shut_down`.
    pub fn handle_command(&mut self, command: Command) -> (reply: Reply)
        requires
            command matches Command::Start { header_hex, target_hex, nonce_stride, .. }
                ==> readable(header_hex@, target_hex@, nonce_stride),
        ensures
            match command {
                Command::Start { job_id, header_hex, target_hex, nonce_offset, nonce_stride } => {
                    exists|result: Result<Job, String>|
                        #[trigger] described(
                            job_id,
                            header_hex@,
                            target_hex@,
                            nonce_offset,
                            nonce_stride,
                            result,
                        ) && match result {
                            Ok(job) => reply is Done && *final(self) == replaced(
                                *old(self),
                                Some(job),
                            ),
                            Err(message) => reply == Reply::Rejected(message) && *final(self)
                                == *old(self),
                        }
                },
                Command::Stop => reply is Done && *final(self) == replaced(*old(self), None),
                Command::Shutdown => reply is Leave && *final(self) == *old(self),
            },
    {
        match command {
            Command::Start { job_id, header_hex, target_hex, nonce_offset, nonce_stride } => {
                let result = parse_job(
                    job_id,
                    header_hex.as_str(),
                    target_hex.as_str(),
                    nonce_offset,
                    nonce_stride,
                );
                let ghost parsed = result;
                match result {
                    Ok(job) => {
                        self.replace_job(Some(job));
                        assert(parsed == Ok::<Job, String>(job));
                        Reply::Done
                    },
                    Err(message) => {
                        assert(parsed == Err::<Job, String>(message));
                        Reply::Rejected(message)
                    },
                }
            },
            Command::Stop => {
                self.replace_job(None);
                Reply::Done
            },
            Command::Shutdown => Reply::Leave,
        }
    }
}

/// A worker that asks for its next task gets the job there is at the state's
/// generation, unless it has seen that generation or is to end.
pub proof fn law_asking_worker_gets_unseen_job(state: &JobState, seen: u64, task: Task)
    requires
        call_ensures(JobState::next_task, (state, seen), task),
    ensures
        task is Leave <==> state.shutdown,
        task is Grind <==> !state.shutdown && state.job is Some && state.generation != seen,
        task is Grind ==> Some(task->job) == state.job && task->generation == state.generation,
{
    law_unseen_job_is_taken_up(*state, seen);
}

/// Parsing the hexadecimal text of a header and of a target gives the job of just
/// that header and that target.
pub proof fn law_parsed_job_reads_back(
    id: u64,
    header: Seq<u8>,
    target: Seq<u8>,
    header_text: &str,
    target_text: &str,
    nonce_offset: u32,
    nonce_stride: u32,
    result: Result<Job, String>,
)
    requires
        header.len() == 148,
        target.len() == 32,
        nonce_stride > 0,
        header_text@ == hex::hex_of(header),
        target_text@ == hex::hex_of(target),
        call_ensures(
            parse_job,
            (id, header_text, target_text, nonce_offset, nonce_stride),
            result,
        ),
    ensures
        result is Ok,
        result->Ok_0.id == id,
        result->Ok_0.header@ == header,
        result->Ok_0.target@ == target,
        result->Ok_0.nonce_offset == nonce_offset,
        result->Ok_0.nonce_stride == nonce_stride,
{
    law_job_reads_back(id, header, target, nonce_offset, nonce_stride, result);
}

} // verus!
