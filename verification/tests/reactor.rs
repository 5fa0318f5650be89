use reactfs::reactor::{
    serve, Async, BDRequest, Core, Event, EventId, FSCallStreamState, FSRequest, FSResponse,
    FlushRequest, FlushResponse, FutureEvent, FutureFlushState, FutureReadState,
    FutureWriteState, ReadRequest, ReadResponse, StreamEvent, StreamId, TaskId, WriteRequest,
    WriteResponse,
};
use reactfs::{Error, MemDevice};

/// Serves every queued request on `dev` and files the completions.
fn turn(core: &mut Core, dev: &mut MemDevice) -> Vec<TaskId> {
    let requests: Vec<BDRequest> = core.bd_requests.drain(..).collect();
    let mut polled = Vec::new();
    for request in requests {
        let event = serve(dev, request);
        polled.push(core.run(event).unwrap());
    }
    polled
}

#[test]
fn a_new_core_is_at_rest() {
    let mut core = Core::new();
    assert_eq!(core.id_counter, 0);
    assert_eq!(core.task_id_counter, 1);
    assert_eq!(core.current_task_id, None);
    assert!(core.events_to_future.is_empty());
    assert!(core.events_to_streams.is_empty());
    assert!(core.bd_requests.is_empty());
    assert!(core.fs_responses.is_empty());
    let _handle = core.handle();
    assert_eq!(core.start(), TaskId(0));
    assert_eq!(core.current_task_id, Some(TaskId(0)));
}

#[test]
fn a_read_is_issued_once_and_resolves_to_the_bytes() {
    let mut core = Core::new();
    let handle = core.handle();
    let mut dev = MemDevice::new(64);
    reactfs::BlockDevice::write(&mut dev, vec![1, 2, 3], 8).unwrap();
    core.start();
    let mut read = handle.read(8, 3);
    assert_eq!(read.state, FutureReadState::NotYet { offset: 8, length: 3 });
    assert_eq!(read.poll(&mut core), Ok(Async::NotReady));
    assert_eq!(read.state, FutureReadState::Pending { event_id: EventId(0) });
    assert_eq!(
        core.bd_requests,
        vec![BDRequest::Read(ReadRequest {
            event_id: EventId(0),
            task_id: TaskId(0),
            offset: 8,
            length: 3
        })]
    );
    // polled again before the completion came: nothing yet, nothing queued
    let queued = core.bd_requests.len();
    assert_eq!(read.poll(&mut core), Ok(Async::NotReady));
    assert_eq!(core.bd_requests.len(), queued);
    assert_eq!(core.id_counter, 1);
    assert_eq!(turn(&mut core, &mut dev), vec![TaskId(0)]);
    assert_eq!(read.poll(&mut core), Ok(Async::Ready(vec![1, 2, 3])));
    assert_eq!(read.state, FutureReadState::Done);
    assert!(core.events_to_future.is_empty());
}

#[test]
fn a_write_resolves_to_its_length_and_a_flush_to_nothing() {
    let mut core = Core::new();
    let handle = core.handle();
    let mut dev = MemDevice::new(64);
    core.start();
    let mut write = handle.write(vec![5, 6, 7, 8], 20);
    assert_eq!(write.poll(&mut core), Ok(Async::NotReady));
    assert_eq!(write.state, FutureWriteState::Pending { event_id: EventId(0) });
    let mut flush = handle.flush();
    assert_eq!(flush.state, FutureFlushState::NotYet);
    assert_eq!(flush.poll(&mut core), Ok(Async::NotReady));
    assert_eq!(flush.state, FutureFlushState::Pending { event_id: EventId(1) });
    assert_eq!(
        core.bd_requests,
        vec![
            BDRequest::Write(WriteRequest {
                event_id: EventId(0),
                task_id: TaskId(0),
                offset: 20,
                data: vec![5, 6, 7, 8]
            }),
            BDRequest::Flush(FlushRequest { event_id: EventId(1), task_id: TaskId(0) }),
        ]
    );
    turn(&mut core, &mut dev);
    assert_eq!(write.poll(&mut core), Ok(Async::Ready(4)));
    assert_eq!(write.state, FutureWriteState::Done);
    assert_eq!(flush.poll(&mut core), Ok(Async::Ready(())));
    assert_eq!(flush.state, FutureFlushState::Done);
    assert_eq!(reactfs::BlockDevice::read(&mut dev, 20, 4), Ok(vec![5, 6, 7, 8]));
}

#[test]
fn error_propagation() {
    let mut core = Core::new();
    let handle = core.handle();
    let mut dev = MemDevice::new(4096);
    core.start();
    let mut read = handle.read(1000000000 * 8, 8);
    assert_eq!(read.poll(&mut core), Ok(Async::NotReady));
    turn(&mut core, &mut dev);
    let r = read.poll(&mut core);
    assert!(r.is_err());
    assert_eq!(r, Err(Error::OutOfRange));
    assert_eq!(read.state, FutureReadState::Done);
    let mut write = handle.write(vec![0; 8], 4090);
    assert_eq!(write.poll(&mut core), Ok(Async::NotReady));
    turn(&mut core, &mut dev);
    assert_eq!(write.poll(&mut core), Err(Error::OutOfRange));
}

#[test]
fn completions_reach_the_future_that_asked() {
    let mut core = Core::new();
    let handle = core.handle();
    core.start();
    let mut first = handle.read(0, 1);
    let mut second = handle.read(1, 1);
    first.poll(&mut core).unwrap();
    second.poll(&mut core).unwrap();
    assert_eq!(core.id_counter, 2);
    // the second completion comes first
    let polled = core
        .run(Event::ToFuture {
            event_id: EventId(1),
            task_id: TaskId(0),
            result: Ok(FutureEvent::ReadResponse(ReadResponse { data: vec![22] })),
        })
        .unwrap();
    assert_eq!(polled, TaskId(0));
    assert_eq!(first.poll(&mut core), Ok(Async::NotReady));
    assert_eq!(second.poll(&mut core), Ok(Async::Ready(vec![22])));
    core.run(Event::ToFuture {
        event_id: EventId(0),
        task_id: TaskId(0),
        result: Err(Error::IoFailure),
    })
    .unwrap();
    assert_eq!(first.poll(&mut core), Err(Error::IoFailure));
}

#[test]
fn a_response_of_the_wrong_kind_is_a_logic_error() {
    let mut core = Core::new();
    let handle = core.handle();
    core.start();
    let mut read = handle.read(0, 1);
    let mut write = handle.write(vec![1], 0);
    let mut flush = handle.flush();
    read.poll(&mut core).unwrap();
    write.poll(&mut core).unwrap();
    flush.poll(&mut core).unwrap();
    let answers = [
        FutureEvent::WriteResponse(WriteResponse { len: 1 }),
        FutureEvent::FlushResponse(FlushResponse {}),
        FutureEvent::ReadResponse(ReadResponse { data: vec![] }),
    ];
    for (i, answer) in answers.into_iter().enumerate() {
        core.run(Event::ToFuture {
            event_id: EventId(i as u64),
            task_id: TaskId(0),
            result: Ok(answer),
        })
        .unwrap();
    }
    assert_eq!(read.poll(&mut core), Err(Error::LogicError));
    assert_eq!(write.poll(&mut core), Err(Error::LogicError));
    assert_eq!(flush.poll(&mut core), Err(Error::LogicError));
}

#[test]
fn run_names_the_task_of_the_event() {
    let mut core = Core::new();
    core.start();
    let polled = core.run(Event::ToFuture {
        event_id: EventId(17),
        task_id: TaskId(3),
        result: Ok(FutureEvent::FlushResponse(FlushResponse {})),
    });
    assert_eq!(polled, Ok(TaskId(3)));
    assert_eq!(core.current_task_id, Some(TaskId(3)));
    assert_eq!(
        core.events_to_future.get(&17),
        Some(&Ok(FutureEvent::FlushResponse(FlushResponse {})))
    );
}

#[test]
fn requests_carry_the_current_task() {
    let mut core = Core::new();
    let handle = core.handle();
    core.start();
    let task = handle.spawn(&mut core);
    assert_eq!(task.task_id, TaskId(1));
    assert_eq!(task.parent, TaskId(0));
    assert_eq!(core.current_task_id, Some(TaskId(1)));
    let mut read = handle.read(0, 4);
    read.poll(&mut core).unwrap();
    assert_eq!(handle.spawned(&mut core, task, true), TaskId(1));
    assert_eq!(core.current_task_id, Some(TaskId(0)));
    assert_eq!(core.newly_spawned_tasks, vec![TaskId(1)]);
    let mut flush = handle.flush();
    flush.poll(&mut core).unwrap();
    assert_eq!(
        core.bd_requests,
        vec![
            BDRequest::Read(ReadRequest {
                event_id: EventId(0),
                task_id: TaskId(1),
                offset: 0,
                length: 4
            }),
            BDRequest::Flush(FlushRequest { event_id: EventId(1), task_id: TaskId(0) }),
        ]
    );
    let second = handle.spawn(&mut core);
    assert_eq!(second.task_id, TaskId(2));
    // a task that finished at its first poll is not kept
    assert_eq!(handle.spawned(&mut core, second, false), TaskId(2));
    assert_eq!(core.newly_spawned_tasks, vec![TaskId(1)]);
    assert_eq!(core.current_task_id, Some(TaskId(2)));
    // the next turn of the loop takes the spawned tasks over
    let mut dev = MemDevice::new(16);
    assert_eq!(turn(&mut core, &mut dev), vec![TaskId(1), TaskId(0)]);
    assert!(core.newly_spawned_tasks.is_empty());
}

#[test]
fn a_stream_hands_out_what_was_filed_for_it() {
    let mut core = Core::new();
    let handle = core.handle();
    core.start();
    let mut stream = handle.recv_fs_request();
    assert_eq!(stream.state, FSCallStreamState::NotYet);
    assert_eq!(stream.poll(&mut core), Ok(Async::NotReady));
    assert_eq!(stream.state, FSCallStreamState::Pending { stream_id: StreamId(0) });
    assert_eq!(core.id_counter, 1);
    assert_eq!(stream.poll(&mut core), Ok(Async::NotReady));
    let polled = core.run(Event::ToStream {
        stream_id: StreamId(0),
        task_id: TaskId(0),
        result: Ok(StreamEvent::FSRequest(FSRequest {})),
    });
    assert_eq!(polled, Ok(TaskId(0)));
    core.run(Event::ToStream {
        stream_id: StreamId(0),
        task_id: TaskId(0),
        result: Err(Error::IoFailure),
    })
    .unwrap();
    // the item filed last comes out first
    assert_eq!(stream.poll(&mut core), Err(Error::IoFailure));
    assert_eq!(stream.poll(&mut core), Ok(Async::Ready(Some(FSRequest {}))));
    assert_eq!(stream.poll(&mut core), Ok(Async::NotReady));
    handle.send_fs_response(&mut core, FSResponse {});
    assert_eq!(core.fs_responses, vec![FSResponse {}]);
}

#[test]
fn an_item_for_an_unknown_stream_is_a_logic_error() {
    let mut core = Core::new();
    core.start();
    let polled = core.run(Event::ToStream {
        stream_id: StreamId(5),
        task_id: TaskId(2),
        result: Ok(StreamEvent::FSRequest(FSRequest {})),
    });
    assert_eq!(polled, Err(Error::LogicError));
    assert_eq!(core.current_task_id, Some(TaskId(0)));
    assert!(core.events_to_streams.is_empty());
}

#[test]
fn serve_answers_with_the_ids_of_the_request() {
    let mut dev = MemDevice::new(16);
    let event = serve(
        &mut dev,
        BDRequest::Write(WriteRequest {
            event_id: EventId(9),
            task_id: TaskId(4),
            offset: 2,
            data: vec![1, 2],
        }),
    );
    assert_eq!(
        event,
        Event::ToFuture {
            event_id: EventId(9),
            task_id: TaskId(4),
            result: Ok(FutureEvent::WriteResponse(WriteResponse { len: 2 }))
        }
    );
    let event = serve(
        &mut dev,
        BDRequest::Read(ReadRequest { event_id: EventId(10), task_id: TaskId(5), offset: 1, length: 4 }),
    );
    assert_eq!(
        event,
        Event::ToFuture {
            event_id: EventId(10),
            task_id: TaskId(5),
            result: Ok(FutureEvent::ReadResponse(ReadResponse { data: vec![0, 1, 2, 0] }))
        }
    );
    let event = serve(
        &mut dev,
        BDRequest::Read(ReadRequest { event_id: EventId(11), task_id: TaskId(6), offset: 15, length: 2 }),
    );
    assert_eq!(
        event,
        Event::ToFuture { event_id: EventId(11), task_id: TaskId(6), result: Err(Error::OutOfRange) }
    );
    let event =
        serve(&mut dev, BDRequest::Flush(FlushRequest { event_id: EventId(12), task_id: TaskId(0) }));
    assert_eq!(
        event,
        Event::ToFuture {
            event_id: EventId(12),
            task_id: TaskId(0),
            result: Ok(FutureEvent::FlushResponse(FlushResponse {}))
        }
    );
}

#[test]
fn write_state_replace_hands_back_the_old_state() {
    let mut state = FutureWriteState::NotYet { offset: 3, data: vec![1] };
    let old = state.replace(FutureWriteState::Done);
    assert_eq!(old, FutureWriteState::NotYet { offset: 3, data: vec![1] });
    assert_eq!(state, FutureWriteState::Done);
}
