use onebrc::{
    first_slot, shared_index, station_hash, Aggregate, Launch, Request, SharedTable, Stage, Worker,
    LOCAL_SIZE, TABLE_SIZE,
};

fn start(text: &[u8]) -> Worker {
    let launch = Launch { grid_dim: 1, block_dim: LOCAL_SIZE as u32 };
    let mut w = Worker::new(&launch, 0, text.len());
    w.end = text.len();
    assert_eq!(w.request(), Request::Reset { index: 0 });
    w.resume(text, 0);
    assert_eq!(w.request(), Request::Barrier);
    w
}

fn go(w: &mut Worker, text: &[u8], reply: i32) -> Request {
    assert!(w.is_resumable(text));
    w.resume(text, reply);
    w.request()
}

#[test]
fn a_thread_claims_an_empty_slot() {
    let text = b"Oslo;-1.5\n";
    let slot = first_slot(station_hash(b"Oslo"));
    let index = shared_index(slot);
    let mut w = start(text);
    assert_eq!(go(&mut w, text, 0), Request::Barrier);
    assert_eq!(go(&mut w, text, 1), Request::LoadLen { slot });
    assert_eq!(go(&mut w, text, 0), Request::ClaimLen { slot });
    assert_eq!(go(&mut w, text, 1), Request::CopyName { slot, from: 0, len: 4 });
    assert_eq!(go(&mut w, text, 0), Request::StoreLen { slot, len: 4 });
    assert_eq!(go(&mut w, text, 0), Request::LoadOwner { index });
    assert_eq!(go(&mut w, text, -1), Request::ClaimOwner { index, slot });
    let sum = Request::AddShared { index, k: Aggregate::Sum, value: -15 };
    assert_eq!(go(&mut w, text, 1), sum);
    let cnt = Request::AddShared { index, k: Aggregate::Count, value: 1 };
    assert_eq!(go(&mut w, text, 0), cnt);
    let min = Request::AddShared { index, k: Aggregate::Min, value: -15 };
    assert_eq!(go(&mut w, text, 0), min);
    let max = Request::AddShared { index, k: Aggregate::Max, value: -15 };
    assert_eq!(go(&mut w, text, 0), max);
    assert_eq!(go(&mut w, text, 0), Request::Barrier);
    assert_eq!(w.stage, Stage::Finish);
    assert_eq!(go(&mut w, text, 0), Request::Barrier);
    assert_eq!(go(&mut w, text, 1), Request::LoadOwner { index: 0 });
    assert_eq!(go(&mut w, text, -1), Request::Exit);
}

#[test]
fn a_thread_waits_for_a_slot_that_is_being_written() {
    let text = b"Oslo;1.0\n";
    let slot = first_slot(station_hash(b"Oslo"));
    let next = (slot + 1) % TABLE_SIZE;
    let mut w = start(text);
    assert_eq!(go(&mut w, text, 1), Request::LoadLen { slot });
    assert_eq!(go(&mut w, text, -1), Request::LoadLen { slot });
    assert_eq!(go(&mut w, text, 0), Request::ClaimLen { slot });
    // Another thread was faster.
    assert_eq!(go(&mut w, text, 0), Request::LoadLen { slot });
    assert_eq!(go(&mut w, text, 4), Request::MatchName { slot, from: 0, len: 4 });
    // The name is another one of the same length.
    assert_eq!(go(&mut w, text, 0), Request::LoadLen { slot: next });
    // A name of another length need not be looked at.
    assert_eq!(go(&mut w, text, 9), Request::LoadLen { slot: (next + 1) % TABLE_SIZE });
}

#[test]
fn a_thread_goes_to_the_table_where_the_shared_slot_is_taken() {
    let text = b"Oslo;1.0\nBonn;2.0\n";
    let slot = first_slot(station_hash(b"Oslo"));
    let mut w = start(text);
    go(&mut w, text, 1);
    assert_eq!(go(&mut w, text, 4), Request::MatchName { slot, from: 0, len: 4 });
    assert_eq!(go(&mut w, text, 1), Request::LoadOwner { index: shared_index(slot) });
    let other = (slot + LOCAL_SIZE) % TABLE_SIZE;
    let sum = Request::AddGlobal { slot, k: Aggregate::Sum, value: 10 };
    assert_eq!(go(&mut w, text, other as i32), sum);
    go(&mut w, text, 0);
    go(&mut w, text, 0);
    go(&mut w, text, 0);
    let bonn = first_slot(station_hash(b"Bonn"));
    assert_eq!(go(&mut w, text, 0), Request::LoadLen { slot: bonn });
    assert_eq!(w.pos, 9);
    assert_eq!(w.temp, 20);
}

#[test]
fn a_thread_adds_shared_slots_to_the_table() {
    let text = b"";
    let launch = Launch { grid_dim: 1, block_dim: 1500 };
    let mut w = Worker::new(&launch, 3, 0);
    assert_eq!(w.request(), Request::Reset { index: 3 });
    assert_eq!(go(&mut w, text, 0), Request::Reset { index: 1503 });
    assert_eq!(go(&mut w, text, 0), Request::Barrier);
    assert_eq!(go(&mut w, text, 1), Request::Barrier);
    assert_eq!(go(&mut w, text, 1), Request::LoadOwner { index: 3 });
    for k in [Aggregate::Sum, Aggregate::Count, Aggregate::Min, Aggregate::Max] {
        assert_eq!(go(&mut w, text, 2051), Request::Drain { index: 3, slot: 2051, k });
    }
    assert_eq!(go(&mut w, text, 0), Request::LoadOwner { index: 1503 });
    assert_eq!(go(&mut w, text, -1), Request::Exit);
    assert_eq!(go(&mut w, text, 0), Request::Exit);
}

#[test]
fn a_thread_beyond_the_shared_table_has_nothing_to_set_up() {
    let launch = Launch { grid_dim: 1, block_dim: 3000 };
    let mut w = Worker::new(&launch, 2500, 0);
    assert_eq!(w.request(), Request::Barrier);
    assert_eq!(go(&mut w, b"", 1), Request::Barrier);
    assert_eq!(go(&mut w, b"", 1), Request::Exit);
}

#[test]
fn a_reading_that_cannot_be_parsed_stops_a_thread() {
    let text = b"Oslo;1,0\n";
    let w = start(text);
    assert!(!w.is_resumable(text));
    let text = b"Oslo;99999.9\n";
    let w = start(text);
    assert!(!w.is_resumable(text));
}

#[test]
fn updates_can_come_in_any_order() {
    let mut updates = Vec::new();
    for v in [7i64, -12, 3, 7] {
        updates.push((Aggregate::Sum, v));
        updates.push((Aggregate::Count, 1));
        updates.push((Aggregate::Min, v));
        updates.push((Aggregate::Max, v));
    }
    for turn in 0..updates.len() {
        updates.rotate_left(turn);
        let mut shared = SharedTable::new();
        for &(k, v) in &updates {
            shared.columns.update_aggregates(0, k, v);
        }
        assert_eq!(shared.columns.get(0, Aggregate::Sum), 5);
        assert_eq!(shared.columns.get(0, Aggregate::Count), 4);
        assert_eq!(shared.columns.get(0, Aggregate::Min), -12);
        assert_eq!(shared.columns.get(0, Aggregate::Max), 7);
    }
}

#[test]
fn values_combine() {
    let mut shared = SharedTable::new();
    shared.reset(7);
    let c = &mut shared.columns;
    for v in [5, -3] {
        c.update_aggregates(7, Aggregate::Sum, v);
        c.update_aggregates(7, Aggregate::Count, 1);
        c.update_aggregates(7, Aggregate::Min, v);
        c.update_aggregates(7, Aggregate::Max, v);
    }
    assert_eq!(c.get(7, Aggregate::Sum), 2);
    assert_eq!(c.get(7, Aggregate::Count), 2);
    assert_eq!(c.get(7, Aggregate::Min), -3);
    assert_eq!(c.get(7, Aggregate::Max), 5);
    c.update_aggregates(7, Aggregate::Sum, i64::MAX);
    assert_eq!(c.get(7, Aggregate::Sum), i64::MIN + 1);
    c.update_aggregates(7, Aggregate::Count, i32::MAX as i64);
    assert_eq!(c.get(7, Aggregate::Count), i32::MIN as i64 + 1);
}
