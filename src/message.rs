//! The message protocol between the dispatcher and its workers, and the
//! decisions a worker makes on each message it receives.
use vstd::prelude::*;

verus! {

/// The messages exchanged between the dispatcher and the workers.
#[allow(non_camel_case_types)]
#[derive(Debug)]
pub enum Message {
    /// Worker to dispatcher: the fetch of a URL succeeded with this many bytes.
    /// Dispatcher to worker: stop (the URL is ignored).
    DONE(u8, String, usize),
    /// Worker to dispatcher: the worker is idle and asks for work.
    WAITING(u8),
    /// Worker to dispatcher: status echo, carries no state change.
    BUSY(u8, String),
    /// Worker to dispatcher: the fetch of a URL failed and the worker has stopped.
    ERROR(u8, String),
    /// Worker to dispatcher: a link discovered while fetching a page.
    CONTENT(u8, String, String),
    /// Dispatcher to worker: fetch a URL (the second field) for the crawl root
    /// given as the first field.
    JOB(u8, String, String),
}

/// The dispatcher's view of a worker.
#[allow(non_camel_case_types)]
#[derive(Debug)]
pub enum WorkerStatus {
    WAITING,
    BUSY(String),
    ERROR(String),
}

/// The state of a URL that is known but not finished.
#[allow(non_camel_case_types)]
#[derive(PartialEq, Eq, Structural, Clone, Copy, Debug)]
pub enum JobStatus {
    INPROGRESS(u8),
    QUEUED,
}

/// What a worker does with a message it receives.
#[derive(Debug)]
pub enum WorkerStep {
    /// Leave the receive loop.
    Stop,
    /// Ignore the message and wait for the next one.
    Skip,
    /// Fetch the URL (second field) for the crawl root (first field).
    Fetch(String, String),
}

/// A worker stops on a shutdown (`DONE`) or `ERROR` message, fetches on a job,
/// and ignores everything else.
pub fn worker_step(msg: Message) -> (r: WorkerStep)
    ensures
        match msg {
            Message::DONE(..) | Message::ERROR(..) => r is Stop,
            Message::JOB(_, root, url) => r == WorkerStep::Fetch(root, url),
            _ => r is Skip,
        },
{
    match msg {
        Message::DONE(..) => WorkerStep::Stop,
        Message::ERROR(..) => WorkerStep::Stop,
        Message::JOB(_, root, url) => WorkerStep::Fetch(root, url),
        _ => WorkerStep::Skip,
    }
}

/// The messages a worker sends after fetching `url`: on success one discovery
/// report per link, in order, followed by `DONE` with the byte count; on failure a
/// single `ERROR`.
pub fn worker_reports(id: u8, url: &String, outcome: &Result<(Vec<String>, usize), String>) -> (r:
    Vec<Message>)
    ensures
        match outcome {
            Ok((links, size)) => {
                &&& r@.len() == links@.len() + 1
                &&& forall|i: int|
                    0 <= i < links@.len() ==> r@[i] == Message::CONTENT(id, *url, links@[i])
                &&& r@[links@.len() as int] == Message::DONE(id, *url, *size)
            },
            Err(_) => r@ == seq![Message::ERROR(id, *url)],
        },
{
    let mut out: Vec<Message> = Vec::new();
    match outcome {
        Ok((links, size)) => {
            let mut i: usize = 0;
            while i < links.len()
                invariant
                    i <= links@.len(),
                    out@.len() == i,
                    forall|k: int| 0 <= k < i ==> out@[k] == Message::CONTENT(id, *url, links@[k]),
                decreases links@.len() - i,
            {
                out.push(Message::CONTENT(id, url.clone(), links[i].clone()));
                i = i + 1;
            }
            out.push(Message::DONE(id, url.clone(), *size));
        },
        Err(_) => {
            out.push(Message::ERROR(id, url.clone()));
        },
    }
    out
}

} // verus!
