//! The I/O runtime as a state machine: it hands out event and task ids, queues
//! the requests of tasks for the block device, files completions under their
//! event id, and tells which task to poll next.
//!
//! Nothing here waits or sends. Whoever runs the loop takes the requests from
//! [`Core::bd_requests`], hands every completion to [`Core::run`], and polls
//! the task that it names.

use vstd::prelude::*;
use std::collections::HashMap;
use crate::device::{overwritten, BlockDevice, Request};
use crate::error::Error;

verus! {

broadcast use vstd::std_specs::hash::group_hash_axioms;

/// The id of a stream.
#[derive(Debug, Clone, Copy, PartialEq, Eq, Hash, Structural)]
pub struct StreamId(pub u64);

/// The id of an event.
#[derive(Debug, Clone, Copy, PartialEq, Eq, Hash, Structural)]
pub struct EventId(pub u64);

/// The id of a task. The root task has the id 0; spawned tasks count from 1.
#[derive(Debug, Clone, Copy, PartialEq, Eq, Hash, Structural)]
pub struct TaskId(pub u64);

/// A block device read request.
#[derive(Debug, PartialEq, Eq)]
pub struct ReadRequest {
    pub event_id: EventId,
    pub task_id: TaskId,
    pub offset: u64,
    pub length: u64,
}

/// A block device write request.
#[derive(Debug, PartialEq, Eq)]
pub struct WriteRequest {
    pub event_id: EventId,
    pub task_id: TaskId,
    pub offset: u64,
    pub data: Vec<u8>,
}

/// A block device flush request.
#[derive(Debug, PartialEq, Eq)]
pub struct FlushRequest {
    pub event_id: EventId,
    pub task_id: TaskId,
}

/// A block device request.
#[derive(Debug, PartialEq, Eq)]
pub enum BDRequest {
    Read(ReadRequest),
    Write(WriteRequest),
    Flush(FlushRequest),
}

/// A block device read response.
#[derive(Debug, PartialEq, Eq)]
pub struct ReadResponse {
    pub data: Vec<u8>,
}

/// A block device write response.
#[derive(Debug, PartialEq, Eq)]
pub struct WriteResponse {
    pub len: u64,
}

/// A block device flush response.
#[derive(Debug, PartialEq, Eq)]
pub struct FlushResponse {}

/// A filesystem request.
#[derive(Debug, PartialEq, Eq)]
pub struct FSRequest {}

/// A filesystem response.
#[derive(Debug, PartialEq, Eq)]
pub struct FSResponse {}

/// An event for a future.
#[derive(Debug, PartialEq, Eq)]
pub enum FutureEvent {
    ReadResponse(ReadResponse),
    WriteResponse(WriteResponse),
    FlushResponse(FlushResponse),
}

/// An event for a stream.
#[derive(Debug, PartialEq, Eq)]
pub enum StreamEvent {
    FSRequest(FSRequest),
}

/// An event for the runtime: the completion of a request of a future, or an
/// item for a stream, with the task to poll.
#[derive(Debug, PartialEq, Eq)]
pub enum Event {
    ToFuture { event_id: EventId, task_id: TaskId, result: Result<FutureEvent, Error> },
    ToStream { stream_id: StreamId, task_id: TaskId, result: Result<StreamEvent, Error> },
}

/// What a poll found: the value, or nothing yet.
#[derive(Debug, PartialEq, Eq)]
pub enum Async<T> {
    Ready(T),
    NotReady,
}

/// A task that was spawned and not yet polled: its id, and the task that
/// spawned it.
#[derive(Debug, PartialEq, Eq)]
pub struct SpawnedTask {
    pub task_id: TaskId,
    pub parent: TaskId,
}

/// The state of the runtime.
pub struct Core {
    /// The next event or stream id.
    pub id_counter: u64,
    /// The next task id.
    pub task_id_counter: u64,
    /// The completions that no future has taken yet, by event id.
    pub events_to_future: HashMap<u64, Result<FutureEvent, Error>>,
    /// The items that no stream has taken yet, by stream id.
    pub events_to_streams: HashMap<u64, Vec<Result<StreamEvent, Error>>>,
    /// The tasks that were spawned since the last turn of the loop.
    pub newly_spawned_tasks: Vec<TaskId>,
    /// The task that is being polled, once the runtime runs.
    pub current_task_id: Option<TaskId>,
    /// The requests for the block device that were not sent yet, oldest
    /// first.
    pub bd_requests: Vec<BDRequest>,
    /// The filesystem responses that were not sent yet, oldest first.
    pub fs_responses: Vec<FSResponse>,
}

/// A handle to the runtime, from which tasks make their futures.
#[derive(Debug, Clone, Copy, PartialEq, Eq)]
pub struct Handle {}

/// Where a read stands.
#[derive(Debug, Clone, Copy, PartialEq, Eq, Structural)]
pub enum FutureReadState {
    NotYet { offset: u64, length: u64 },
    Pending { event_id: EventId },
    Done,
}

/// A read of the block device, which resolves to the bytes read.
#[derive(Debug, PartialEq, Eq)]
pub struct FutureRead {
    pub state: FutureReadState,
}

/// Where a write stands.
#[derive(Debug, PartialEq, Eq)]
pub enum FutureWriteState {
    NotYet { offset: u64, data: Vec<u8> },
    Pending { event_id: EventId },
    Done,
}

/// A write to the block device, which resolves to the number of bytes
/// written.
#[derive(Debug, PartialEq, Eq)]
pub struct FutureWrite {
    pub state: FutureWriteState,
}

/// Where a flush stands.
#[derive(Debug, Clone, Copy, PartialEq, Eq, Structural)]
pub enum FutureFlushState {
    NotYet,
    Pending { event_id: EventId },
    Done,
}

/// A flush of the block device.
#[derive(Debug, PartialEq, Eq)]
pub struct FutureFlush {
    pub state: FutureFlushState,
}

/// Where a stream of filesystem requests stands.
#[derive(Debug, Clone, Copy, PartialEq, Eq, Structural)]
pub enum FSCallStreamState {
    NotYet,
    Pending { stream_id: StreamId },
}

/// The stream of filesystem requests.
#[derive(Debug, PartialEq, Eq)]
pub struct FSCallStream {
    pub state: FSCallStreamState,
}

impl Core {
    /// The runtime runs: a task is being polled.
    pub open spec fn running(&self) -> bool {
        self.current_task_id is Some
    }

    /// Everything but the counter of ids, the pending completions and the
    /// queue of requests is as in `before`.
    pub open spec fn same_tasks(&self, before: &Core) -> bool {
        &&& self.task_id_counter == before.task_id_counter
        &&& self.events_to_streams@ == before.events_to_streams@
        &&& self.newly_spawned_tasks@ == before.newly_spawned_tasks@
        &&& self.current_task_id == before.current_task_id
        &&& self.fs_responses@ == before.fs_responses@
    }

    /// Nothing but the pending completions differs from `before`.
    pub open spec fn same_but_completions(&self, before: &Core) -> bool {
        &&& self.same_tasks(before)
        &&& self.id_counter == before.id_counter
        &&& self.bd_requests@ == before.bd_requests@
    }

    /// A runtime at rest: no task runs, no id was handed out, nothing is
    /// queued.
    pub fn new() -> (core: Core)
        ensures
            core.id_counter == 0,
            core.task_id_counter == 1,
            core.events_to_future@ == Map::<u64, Result<FutureEvent, Error>>::empty(),
            core.events_to_streams@ == Map::<u64, Vec<Result<StreamEvent, Error>>>::empty(),
            core.newly_spawned_tasks@ == Seq::<TaskId>::empty(),
            core.current_task_id is None,
            core.bd_requests@ == Seq::<BDRequest>::empty(),
            core.fs_responses@ == Seq::<FSResponse>::empty(),
    {
        Core {
            id_counter: 0,
            task_id_counter: 1,
            events_to_future: HashMap::new(),
            events_to_streams: HashMap::new(),
            newly_spawned_tasks: Vec::new(),
            current_task_id: None,
            bd_requests: Vec::new(),
            fs_responses: Vec::new(),
        }
    }

    /// A handle to the runtime.
    pub fn handle(&mut self) -> (handle: Handle)
        ensures
            *final(self) == *old(self),
    {
        Handle {  }
    }

    /// Starts the runtime: the root task, of id 0, is the one to poll.
    pub fn start(&mut self) -> (task: TaskId)
        ensures
            task == TaskId(0),
            final(self).current_task_id == Some(task),
            final(self).id_counter == old(self).id_counter,
            final(self).task_id_counter == old(self).task_id_counter,
            final(self).events_to_future@ == old(self).events_to_future@,
            final(self).events_to_streams@ == old(self).events_to_streams@,
            final(self).newly_spawned_tasks@ == old(self).newly_spawned_tasks@,
            final(self).bd_requests@ == old(self).bd_requests@,
            final(self).fs_responses@ == old(self).fs_responses@,
    {
        self.current_task_id = Some(TaskId(0));
        TaskId(0)
    }

    /// One turn of the event loop: files `event` and names the task to poll.
    ///
    /// The tasks spawned since the last turn are taken over first. A
    /// completion is filed under its event id, where the future that waits
    /// for it finds it at its next poll; an item for a stream is put at the
    /// end of what the stream holds. An item for a stream that was never
    /// polled is a `LogicError`, and changes nothing but the list of spawned
    /// tasks.
    pub fn run(&mut self, event: Event) -> (r: Result<TaskId, Error>)
        ensures
            final(self).id_counter == old(self).id_counter,
            final(self).task_id_counter == old(self).task_id_counter,
            final(self).bd_requests@ == old(self).bd_requests@,
            final(self).fs_responses@ == old(self).fs_responses@,
            final(self).newly_spawned_tasks@ == Seq::<TaskId>::empty(),
            match event {
                Event::ToFuture { event_id, task_id, result } => {
                    &&& r == Ok::<TaskId, Error>(task_id)
                    &&& final(self).current_task_id == Some(task_id)
                    &&& final(self).events_to_future@ == old(self).events_to_future@.insert(
                        event_id.0,
                        result,
                    )
                    &&& final(self).events_to_streams@ == old(self).events_to_streams@
                },
                Event::ToStream { stream_id, task_id, result } => {
                    &&& final(self).events_to_future@ == old(self).events_to_future@
                    &&& if old(self).events_to_streams@.contains_key(stream_id.0) {
                        &&& r == Ok::<TaskId, Error>(task_id)
                        &&& final(self).current_task_id == Some(task_id)
                        &&& final(self).events_to_streams@.dom() == old(self).events_to_streams@.dom()
                        &&& final(self).events_to_streams@[stream_id.0]@ == old(self).events_to_streams@[stream_id.0]@.push(result)
                        &&& forall|other: u64|
                            other != stream_id.0 && old(self).events_to_streams@.contains_key(other)
                                ==> final(self).events_to_streams@[other] == old(self).events_to_streams@[other]
                    } else {
                        &&& r == Err::<TaskId, Error>(Error::LogicError)
                        &&& final(self).current_task_id == old(self).current_task_id
                        &&& final(self).events_to_streams@ == old(self).events_to_streams@
                    }
                },
            },
    {
        // move the new tasks to our map of tasks
        self.newly_spawned_tasks.clear();
        // process event and extract the task_id we need to poll
        let task_id_to_poll = match event {
            Event::ToFuture { event_id, task_id, result } => {
                self.events_to_future.insert(event_id.0, result);
                task_id
            },
            Event::ToStream { stream_id, task_id, result } => {
                match self.events_to_streams.remove(&stream_id.0) {
                    Some(items) => {
                        let mut items = items;
                        items.push(result);
                        self.events_to_streams.insert(stream_id.0, items);
                        assert(self.events_to_streams@.dom() =~= old(self).events_to_streams@.dom());
                    },
                    None => {
                        assert(self.events_to_streams@ =~= old(self).events_to_streams@);
                        return Err(Error::LogicError);
                    },
                }
                task_id
            },
        };
        // set current_task_id so that the future about to be polled knows
        // from which task it's called
        self.current_task_id = Some(task_id_to_poll);
        Ok(task_id_to_poll)
    }
}

impl Handle {
    /// A read of `length` bytes at `offset`, which resolves to the bytes.
    pub fn read(&self, offset: u64, length: u64) -> (future: FutureRead)
        ensures
            future.state == (FutureReadState::NotYet { offset, length }),
    {
        FutureRead { state: FutureReadState::NotYet { offset, length } }
    }

    /// A write of `data` at `offset`, which resolves to the number of bytes
    /// written.
    pub fn write(&self, data: Vec<u8>, offset: u64) -> (future: FutureWrite)
        ensures
            future.state == (FutureWriteState::NotYet { offset, data }),
    {
        FutureWrite { state: FutureWriteState::NotYet { offset, data } }
    }

    /// A flush of the block device.
    pub fn flush(&self) -> (future: FutureFlush)
        ensures
            future.state == FutureFlushState::NotYet,
    {
        FutureFlush { state: FutureFlushState::NotYet }
    }

    /// The stream of filesystem requests.
    pub fn recv_fs_request(&self) -> (stream: FSCallStream)
        ensures
            stream.state == FSCallStreamState::NotYet,
    {
        FSCallStream { state: FSCallStreamState::NotYet }
    }

    /// Queues `fs_response` for the filesystem channel.
    pub fn send_fs_response(&self, core: &mut Core, fs_response: FSResponse)
        ensures
            final(core).fs_responses@ == old(core).fs_responses@.push(fs_response),
            final(core).id_counter == old(core).id_counter,
            final(core).task_id_counter == old(core).task_id_counter,
            final(core).events_to_future@ == old(core).events_to_future@,
            final(core).events_to_streams@ == old(core).events_to_streams@,
            final(core).newly_spawned_tasks@ == old(core).newly_spawned_tasks@,
            final(core).current_task_id == old(core).current_task_id,
            final(core).bd_requests@ == old(core).bd_requests@,
    {
        core.fs_responses.push(fs_response);
    }

    /// Gives a new task its id and makes it the current task, for its first
    /// poll.
    ///
    /// The id is the next one that no task has; the task that was current is
    /// kept in what is returned, for [`Handle::spawned`].
    pub fn spawn(&self, core: &mut Core) -> (task: SpawnedTask)
        requires
            old(core).running(),
            old(core).task_id_counter < u64::MAX,
        ensures
            task.task_id == TaskId(old(core).task_id_counter),
            task.parent == old(core).current_task_id->Some_0,
            final(core).task_id_counter == old(core).task_id_counter + 1,
            final(core).current_task_id == Some(task.task_id),
            final(core).id_counter == old(core).id_counter,
            final(core).events_to_future@ == old(core).events_to_future@,
            final(core).events_to_streams@ == old(core).events_to_streams@,
            final(core).newly_spawned_tasks@ == old(core).newly_spawned_tasks@,
            final(core).bd_requests@ == old(core).bd_requests@,
            final(core).fs_responses@ == old(core).fs_responses@,
    {
        // create task_id and make it current, saving former current task_id
        let task_id = TaskId(core.task_id_counter);
        core.task_id_counter = core.task_id_counter + 1;
        let parent = match core.current_task_id {
            Some(parent) => parent,
            None => TaskId(0),
        };
        core.current_task_id = Some(task_id);
        SpawnedTask { task_id, parent }
    }

    /// Takes note of the first poll of a spawned task.
    ///
    /// A task that is `pending` joins the spawned tasks, and the task that
    /// spawned it is current again. A task that finished at its first poll
    /// leaves the runtime as it is.
    pub fn spawned(&self, core: &mut Core, task: SpawnedTask, pending: bool) -> (task_id: TaskId)
        ensures
            task_id == task.task_id,
            final(core).id_counter == old(core).id_counter,
            final(core).task_id_counter == old(core).task_id_counter,
            final(core).events_to_future@ == old(core).events_to_future@,
            final(core).events_to_streams@ == old(core).events_to_streams@,
            final(core).bd_requests@ == old(core).bd_requests@,
            final(core).fs_responses@ == old(core).fs_responses@,
            pending ==> final(core).current_task_id == Some(task.parent) && final(core).newly_spawned_tasks@ == old(core).newly_spawned_tasks@.push(task.task_id),
            !pending ==> final(core).current_task_id == old(core).current_task_id && final(core).newly_spawned_tasks@ == old(core).newly_spawned_tasks@,
    {
        if pending {
            // restore saved former current_task_id
            core.current_task_id = Some(task.parent);
            // push new task to the newly_spawned_tasks list
            core.newly_spawned_tasks.push(task.task_id);
        }
        task.task_id
    }
}

impl Core {
    /// Hands out the next event id and queues `request` for the block
    /// device.
    fn issue(&mut self) -> (issued: (EventId, TaskId))
        requires
            old(self).running(),
            old(self).id_counter < u64::MAX,
        ensures
            issued.0 == EventId(old(self).id_counter),
            issued.1 == old(self).current_task_id->Some_0,
            final(self).id_counter == old(self).id_counter + 1,
            final(self).same_tasks(old(self)),
            final(self).events_to_future@ == old(self).events_to_future@,
            final(self).bd_requests@ == old(self).bd_requests@,
    {
        let event_id = EventId(self.id_counter);
        self.id_counter = self.id_counter + 1;
        let task_id = match self.current_task_id {
            Some(task_id) => task_id,
            None => TaskId(0),
        };
        (event_id, task_id)
    }

    /// Takes the completion of the event `event_id`, if it has come.
    fn take(&mut self, event_id: EventId) -> (taken: Option<Result<FutureEvent, Error>>)
        ensures
            final(self).same_but_completions(old(self)),
            final(self).events_to_future@ == old(self).events_to_future@.remove(event_id.0),
            match taken {
                Some(result) => old(self).events_to_future@.contains_key(event_id.0) && old(self).events_to_future@[event_id.0] == result,
                None => !old(self).events_to_future@.contains_key(event_id.0),
            },
    {
        self.events_to_future.remove(&event_id.0)
    }
}

impl FutureRead {
    /// Polls the read.
    ///
    /// The first poll hands out an event id, queues the request under it,
    /// tagged with the current task, and finds nothing yet. Every later poll
    /// looks for the completion of that event: none yet is nothing yet; the
    /// bytes of a read response resolve the read; an error fails it; a
    /// response to anything but a read is a `LogicError`.
    pub fn poll(&mut self, core: &mut Core) -> (r: Result<Async<Vec<u8>>, Error>)
        requires
            old(core).running(),
            old(self).state != FutureReadState::Done,
            old(self).state is NotYet ==> old(core).id_counter < u64::MAX,
        ensures
            final(core).same_tasks(old(core)),
            match old(self).state {
                FutureReadState::NotYet { offset, length } => {
                    &&& r == Ok::<Async<Vec<u8>>, Error>(Async::NotReady)
                    &&& final(self).state == (FutureReadState::Pending {
                        event_id: EventId(old(core).id_counter),
                    })
                    &&& final(core).id_counter == old(core).id_counter + 1
                    &&& final(core).events_to_future@ == old(core).events_to_future@
                    &&& final(core).bd_requests@ == old(core).bd_requests@.push(
                        BDRequest::Read(
                            ReadRequest {
                                event_id: EventId(old(core).id_counter),
                                task_id: old(core).current_task_id->Some_0,
                                offset,
                                length,
                            },
                        ),
                    )
                },
                FutureReadState::Pending { event_id } => {
                    &&& final(core).same_but_completions(old(core))
                    &&& final(core).events_to_future@ == old(core).events_to_future@.remove(
                        event_id.0,
                    )
                    &&& if old(core).events_to_future@.contains_key(event_id.0) {
                        &&& final(self).state == FutureReadState::Done
                        &&& r == match old(core).events_to_future@[event_id.0] {
                            Ok(FutureEvent::ReadResponse(response)) => Ok(
                                Async::Ready(response.data),
                            ),
                            Ok(_) => Err(Error::LogicError),
                            Err(e) => Err(e),
                        }
                    } else {
                        &&& final(self).state == old(self).state
                        &&& r == Ok::<Async<Vec<u8>>, Error>(Async::NotReady)
                    }
                },
                FutureReadState::Done => true,
            },
    {
        match self.state {
            // first time the future is polled, push command to queue
            FutureReadState::NotYet { offset, length } => {
                let (event_id, task_id) = core.issue();
                core.bd_requests.push(
                    BDRequest::Read(ReadRequest { event_id, task_id, offset, length }),
                );
                // update state
                self.state = FutureReadState::Pending { event_id };
                Ok(Async::NotReady)
            },
            // we are waiting for the result of the command
            FutureReadState::Pending { event_id } => {
                // if we have the result
                match core.take(event_id) {
                    Some(Ok(FutureEvent::ReadResponse(response))) => {
                        self.state = FutureReadState::Done;
                        Ok(Async::Ready(response.data))
                    },
                    Some(Ok(_)) => {
                        self.state = FutureReadState::Done;
                        Err(Error::LogicError)
                    },
                    Some(Err(e)) => {
                        self.state = FutureReadState::Done;
                        Err(e)
                    },
                    None => {
                        assert(core.events_to_future@ =~= old(core).events_to_future@);
                        Ok(Async::NotReady)
                    },
                }
            },
            FutureReadState::Done => Err(Error::LogicError),
        }
    }
}

impl FutureWriteState {
    /// Puts `next` in place of the state and returns what the state was.
    pub fn replace(&mut self, next: FutureWriteState) -> (previous: FutureWriteState)
        ensures
            previous == *old(self),
            *final(self) == next,
    {
        let mut state = next;
        std::mem::swap(self, &mut state);
        state
    }
}

impl FutureWrite {
    /// Polls the write.
    ///
    /// The first poll hands out an event id, queues the request under it,
    /// tagged with the current task, and finds nothing yet. Every later poll
    /// looks for the completion of that event: none yet is nothing yet; the
    /// length of a write response resolves the write; an error fails it; a
    /// response to anything but a write is a `LogicError`.
    pub fn poll(&mut self, core: &mut Core) -> (r: Result<Async<u64>, Error>)
        requires
            old(core).running(),
            old(self).state != FutureWriteState::Done,
            old(self).state is NotYet ==> old(core).id_counter < u64::MAX,
        ensures
            final(core).same_tasks(old(core)),
            match old(self).state {
                FutureWriteState::NotYet { offset, data } => {
                    &&& r == Ok::<Async<u64>, Error>(Async::NotReady)
                    &&& final(self).state == (FutureWriteState::Pending {
                        event_id: EventId(old(core).id_counter),
                    })
                    &&& final(core).id_counter == old(core).id_counter + 1
                    &&& final(core).events_to_future@ == old(core).events_to_future@
                    &&& final(core).bd_requests@ == old(core).bd_requests@.push(
                        BDRequest::Write(
                            WriteRequest {
                                event_id: EventId(old(core).id_counter),
                                task_id: old(core).current_task_id->Some_0,
                                offset,
                                data,
                            },
                        ),
                    )
                },
                FutureWriteState::Pending { event_id } => {
                    &&& final(core).same_but_completions(old(core))
                    &&& final(core).events_to_future@ == old(core).events_to_future@.remove(
                        event_id.0,
                    )
                    &&& if old(core).events_to_future@.contains_key(event_id.0) {
                        &&& final(self).state == FutureWriteState::Done
                        &&& r == match old(core).events_to_future@[event_id.0] {
                            Ok(FutureEvent::WriteResponse(response)) => Ok(
                                Async::Ready(response.len),
                            ),
                            Ok(_) => Err(Error::LogicError),
                            Err(e) => Err(e),
                        }
                    } else {
                        &&& final(self).state == old(self).state
                        &&& r == Ok::<Async<u64>, Error>(Async::NotReady)
                    }
                },
                FutureWriteState::Done => true,
            },
    {
        match self.state.replace(FutureWriteState::Done) {
            // first time the future is polled, push command to queue
            FutureWriteState::NotYet { offset, data } => {
                let (event_id, task_id) = core.issue();
                core.bd_requests.push(
                    BDRequest::Write(WriteRequest { event_id, task_id, offset, data }),
                );
                // update state and return status
                self.state = FutureWriteState::Pending { event_id };
                Ok(Async::NotReady)
            },
            // we are waiting for the result of the command
            FutureWriteState::Pending { event_id } => {
                // if we have the result
                match core.take(event_id) {
                    Some(Ok(FutureEvent::WriteResponse(response))) => Ok(
                        Async::Ready(response.len),
                    ),
                    Some(Ok(_)) => Err(Error::LogicError),
                    Some(Err(e)) => Err(e),
                    None => {
                        assert(core.events_to_future@ =~= old(core).events_to_future@);
                        self.state = FutureWriteState::Pending { event_id };
                        Ok(Async::NotReady)
                    },
                }
            },
            FutureWriteState::Done => Err(Error::LogicError),
        }
    }
}

impl FutureFlush {
    /// Polls the flush.
    ///
    /// The first poll hands out an event id, queues the request under it,
    /// tagged with the current task, and finds nothing yet. Every later poll
    /// looks for the completion of that event: none yet is nothing yet; a
    /// flush response resolves the flush; an error fails it; a response to
    /// anything but a flush is a `LogicError`.
    pub fn poll(&mut self, core: &mut Core) -> (r: Result<Async<()>, Error>)
        requires
            old(core).running(),
            old(self).state != FutureFlushState::Done,
            old(self).state is NotYet ==> old(core).id_counter < u64::MAX,
        ensures
            final(core).same_tasks(old(core)),
            match old(self).state {
                FutureFlushState::NotYet => {
                    &&& r == Ok::<Async<()>, Error>(Async::NotReady)
                    &&& final(self).state == (FutureFlushState::Pending {
                        event_id: EventId(old(core).id_counter),
                    })
                    &&& final(core).id_counter == old(core).id_counter + 1
                    &&& final(core).events_to_future@ == old(core).events_to_future@
                    &&& final(core).bd_requests@ == old(core).bd_requests@.push(
                        BDRequest::Flush(
                            FlushRequest {
                                event_id: EventId(old(core).id_counter),
                                task_id: old(core).current_task_id->Some_0,
                            },
                        ),
                    )
                },
                FutureFlushState::Pending { event_id } => {
                    &&& final(core).same_but_completions(old(core))
                    &&& final(core).events_to_future@ == old(core).events_to_future@.remove(
                        event_id.0,
                    )
                    &&& if old(core).events_to_future@.contains_key(event_id.0) {
                        &&& final(self).state == FutureFlushState::Done
                        &&& r == match old(core).events_to_future@[event_id.0] {
                            Ok(FutureEvent::FlushResponse(response)) => Ok(Async::Ready(())),
                            Ok(_) => Err(Error::LogicError),
                            Err(e) => Err(e),
                        }
                    } else {
                        &&& final(self).state == old(self).state
                        &&& r == Ok::<Async<()>, Error>(Async::NotReady)
                    }
                },
                FutureFlushState::Done => true,
            },
    {
        match self.state {
            // first time the future is polled, push command to queue
            FutureFlushState::NotYet => {
                let (event_id, task_id) = core.issue();
                core.bd_requests.push(BDRequest::Flush(FlushRequest { event_id, task_id }));
                // update state
                self.state = FutureFlushState::Pending { event_id };
                Ok(Async::NotReady)
            },
            // we are waiting for the result of the command
            FutureFlushState::Pending { event_id } => {
                // if we have the result
                match core.take(event_id) {
                    Some(Ok(FutureEvent::FlushResponse(response))) => {
                        self.state = FutureFlushState::Done;
                        Ok(Async::Ready(()))
                    },
                    Some(Ok(_)) => {
                        self.state = FutureFlushState::Done;
                        Err(Error::LogicError)
                    },
                    Some(Err(e)) => {
                        self.state = FutureFlushState::Done;
                        Err(e)
                    },
                    None => {
                        assert(core.events_to_future@ =~= old(core).events_to_future@);
                        Ok(Async::NotReady)
                    },
                }
            },
            FutureFlushState::Done => Err(Error::LogicError),
        }
    }
}

impl FSCallStream {
    /// Polls the stream.
    ///
    /// The first poll hands out a stream id, under which the runtime files
    /// the items of the stream from then on, and finds nothing yet. Every
    /// later poll takes the item that was filed last: a request is the next
    /// item of the stream, an error fails the poll, and no item is nothing
    /// yet. A stream that the runtime does not know is a `LogicError`.
    pub fn poll(&mut self, core: &mut Core) -> (r: Result<Async<Option<FSRequest>>, Error>)
        requires
            old(core).running(),
            old(self).state is NotYet ==> old(core).id_counter < u64::MAX,
        ensures
            final(core).task_id_counter == old(core).task_id_counter,
            final(core).events_to_future@ == old(core).events_to_future@,
            final(core).newly_spawned_tasks@ == old(core).newly_spawned_tasks@,
            final(core).current_task_id == old(core).current_task_id,
            final(core).bd_requests@ == old(core).bd_requests@,
            final(core).fs_responses@ == old(core).fs_responses@,
            match old(self).state {
                FSCallStreamState::NotYet => {
                    &&& r == Ok::<Async<Option<FSRequest>>, Error>(Async::NotReady)
                    &&& final(self).state == (FSCallStreamState::Pending {
                        stream_id: StreamId(old(core).id_counter),
                    })
                    &&& final(core).id_counter == old(core).id_counter + 1
                    &&& final(core).events_to_streams@.dom() == old(
                        core,
                    ).events_to_streams@.dom().insert(old(core).id_counter)
                    &&& final(core).events_to_streams@[old(core).id_counter]@ == Seq::<
                        Result<StreamEvent, Error>,
                    >::empty()
                },
                FSCallStreamState::Pending { stream_id } => {
                    &&& final(self).state == old(self).state
                    &&& final(core).id_counter == old(core).id_counter
                    &&& final(core).events_to_streams@.dom() == old(core).events_to_streams@.dom()
                    &&& if old(core).events_to_streams@.contains_key(stream_id.0) {
                        let items = old(core).events_to_streams@[stream_id.0]@;
                        if items.len() > 0 {
                            &&& final(core).events_to_streams@[stream_id.0]@ == items.drop_last()
                            &&& r == match items.last() {
                                Ok(StreamEvent::FSRequest(request)) => Ok(
                                    Async::Ready(Some(request)),
                                ),
                                Err(e) => Err(e),
                            }
                        } else {
                            &&& final(core).events_to_streams@[stream_id.0]@ == items
                            &&& r == Ok::<Async<Option<FSRequest>>, Error>(Async::NotReady)
                        }
                    } else {
                        r == Err::<Async<Option<FSRequest>>, Error>(Error::LogicError)
                    }
                },
            },
    {
        match self.state {
            FSCallStreamState::NotYet => {
                // if this stream is being spawned, save its id
                let stream_id = StreamId(core.id_counter);
                core.id_counter = core.id_counter + 1;
                core.events_to_streams.insert(stream_id.0, Vec::new());
                // update state
                self.state = FSCallStreamState::Pending { stream_id };
                Ok(Async::NotReady)
            },
            FSCallStreamState::Pending { stream_id } => {
                // return one request if we have one
                match core.events_to_streams.remove(&stream_id.0) {
                    Some(items) => {
                        let mut items = items;
                        let last = items.pop();
                        core.events_to_streams.insert(stream_id.0, items);
                        assert(core.events_to_streams@.dom() =~= old(core).events_to_streams@.dom());
                        match last {
                            Some(Ok(StreamEvent::FSRequest(request))) => Ok(
                                Async::Ready(Some(request)),
                            ),
                            Some(Err(e)) => Err(e),
                            None => {
                                assert(items@ == old(core).events_to_streams@[stream_id.0]@);
                                Ok(Async::NotReady)
                            },
                        }
                    },
                    None => {
                        assert(core.events_to_streams@.dom() =~= old(core).events_to_streams@.dom());
                        Err(Error::LogicError)
                    },
                }
            },
        }
    }
}

/// Serves one request on `dev` and returns the completion to send back.
///
/// The completion carries the event id and the task id of the request as
/// they came. A read answers with the bytes read, a write with the number of
/// bytes written, a flush with an empty response; a request that the device
/// fails answers with the error of the device.
pub fn serve<D: BlockDevice>(dev: &mut D, request: BDRequest) -> (event: Event)
    ensures
        final(dev).view().len() == old(dev).view().len(),
        final(dev).faultless() == old(dev).faultless(),
        final(dev).requests() == old(dev).requests().push(
            match request {
                BDRequest::Read(read) => Request::Read {
                    offset: read.offset as int,
                    length: read.length as int,
                },
                BDRequest::Write(write) => Request::Write {
                    offset: write.offset as int,
                    length: write.data@.len() as int,
                },
                BDRequest::Flush(_) => Request::Flush,
            },
        ),
        match request {
            BDRequest::Read(read) => {
                &&& final(dev).view() == old(dev).view()
                &&& event matches Event::ToFuture { event_id, task_id, result }
                &&& event_id == read.event_id
                &&& task_id == read.task_id
                &&& match result {
                    Ok(found) => {
                        &&& found matches FutureEvent::ReadResponse(response)
                        &&& read.offset + read.length <= old(dev).view().len()
                        &&& response.data@ == old(dev).view().subrange(
                            read.offset as int,
                            read.offset + read.length,
                        )
                    },
                    Err(e) => old(dev).faultless() ==> e == Error::OutOfRange && read.offset
                        + read.length > old(dev).view().len(),
                }
            },
            BDRequest::Write(write) => {
                &&& event matches Event::ToFuture { event_id, task_id, result }
                &&& event_id == write.event_id
                &&& task_id == write.task_id
                &&& match result {
                    Ok(found) => {
                        &&& found matches FutureEvent::WriteResponse(response)
                        &&& response.len == write.data@.len()
                        &&& write.offset + write.data@.len() <= old(dev).view().len()
                        &&& final(dev).view() == overwritten(
                            old(dev).view(),
                            write.offset as int,
                            write.data@,
                        )
                    },
                    Err(e) => {
                        &&& forall|i: int|
                            0 <= i < old(dev).view().len() && !(write.offset <= i < write.offset
                                + write.data@.len()) ==> final(dev).view()[i] == old(
                                dev,
                            ).view()[i]
                        &&& old(dev).faultless() ==> {
                            &&& e == Error::OutOfRange
                            &&& write.offset + write.data@.len() > old(dev).view().len()
                            &&& final(dev).view() == old(dev).view()
                        }
                    },
                }
            },
            BDRequest::Flush(flush) => {
                &&& final(dev).view() == old(dev).view()
                &&& event matches Event::ToFuture { event_id, task_id, result }
                &&& event_id == flush.event_id
                &&& task_id == flush.task_id
                &&& result matches Ok(found) ==> found is FlushResponse
                &&& old(dev).faultless() ==> result is Ok
            },
        },
{
    match request {
        BDRequest::Read(read) => {
            let result = match dev.read(read.offset, read.length) {
                Ok(data) => Ok(FutureEvent::ReadResponse(ReadResponse { data })),
                Err(e) => Err(e),
            };
            Event::ToFuture { event_id: read.event_id, task_id: read.task_id, result }
        },
        BDRequest::Write(write) => {
            let result = match dev.write(write.data, write.offset) {
                Ok(len) => Ok(FutureEvent::WriteResponse(WriteResponse { len })),
                Err(e) => Err(e),
            };
            Event::ToFuture { event_id: write.event_id, task_id: write.task_id, result }
        },
        BDRequest::Flush(flush) => {
            let result = match dev.flush() {
                Ok(()) => Ok(FutureEvent::FlushResponse(FlushResponse {  })),
                Err(e) => Err(e),
            };
            Event::ToFuture { event_id: flush.event_id, task_id: flush.task_id, result }
        },
    }
}

} // verus!
