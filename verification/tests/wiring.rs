use assetmanage_rs::channel::Polled;
use assetmanage_rs::{
    Asset, AssetHandle, Builder, DecodeError, Delivery, Idle, Intake, LoadStatus, Source, SourceError,
};
use std::sync::Arc;

struct Bytes;

impl Asset for Bytes {
    type DataManager = u8;
    type DataAsset = u8;
    type Structure = Vec<u8>;

    /// Adds both side data to every byte; an empty blob is invalid.
    fn decode(bytes: Vec<u8>, data_ass: &u8, data_mgr: &u8) -> Result<Vec<u8>, DecodeError> {
        if bytes.is_empty() {
            return Err(DecodeError::InvalidData);
        }
        Ok(bytes.into_iter().map(|b| b.wrapping_add(*data_ass).wrapping_add(*data_mgr)).collect())
    }
}

struct Echo;

impl Source for Echo {
    fn resolves(path: &str) -> bool {
        !path.is_empty()
    }

    fn load(path: &str) -> Result<Vec<u8>, SourceError> {
        if path.is_empty() {
            Err(SourceError::NotFound)
        } else {
            Ok(path.as_bytes().to_vec())
        }
    }
}

#[test]
fn managers_are_numbered_from_zero() {
    let mut builder = Builder::new();
    let mut first = builder.create_manager::<Bytes, Echo>(0);
    let mut second = builder.create_manager::<Bytes, Echo>(0);
    let mut third = builder.create_manager::<Bytes, Echo>(0);
    let loader = builder.finish_loader();
    assert_eq!(loader.manager_count(), 3);
    first.insert("a", 0);
    second.insert("a", 0);
    third.insert("a", 0);
    assert_eq!(first.begin_load("a", true), Ok((0, String::from("a"))));
    assert_eq!(second.begin_load("a", true), Ok((1, String::from("a"))));
    assert_eq!(third.begin_load("a", true), Ok((2, String::from("a"))));
}

#[test]
fn loader_routes_to_the_manager_that_asked() {
    let mut builder = Builder::new();
    let mut first = builder.create_manager::<Bytes, Echo>(0);
    let mut second = builder.create_manager::<Bytes, Echo>(0);
    let mut loader = builder.finish_loader();
    first.insert("a", 0);
    second.insert("a", 0);
    second.insert("b", 0);
    second.load("b").unwrap();
    first.load("a").unwrap();
    let intake = loader.intake();
    assert!(!intake.closed);
    assert_eq!(intake.requests, vec![(1, String::from("b")), (0, String::from("a"))]);
    for (manager_idx, path) in intake.requests {
        let fetched = Echo::load(&path);
        assert_eq!(loader.deliver(manager_idx, path, fetched), Delivery::Delivered);
    }
    first.maintain();
    second.maintain();
    assert_eq!(first.status("a"), Some(LoadStatus::Loaded));
    assert_eq!(second.status("a"), Some(LoadStatus::NotLoaded));
    assert_eq!(second.status("b"), Some(LoadStatus::Loaded));
    assert_eq!(*second.get("b").unwrap(), b"b".to_vec());
}

#[test]
fn intake_is_empty_without_requests() {
    let mut builder = Builder::new();
    let _manager = builder.create_manager::<Bytes, Echo>(0);
    let mut loader = builder.finish_loader();
    let intake = loader.intake();
    assert!(intake.requests.is_empty());
    assert!(!intake.closed);
}

#[test]
fn intake_reports_when_every_manager_is_gone() {
    let mut builder = Builder::new();
    let mut manager = builder.create_manager::<Bytes, Echo>(0);
    let mut loader = builder.finish_loader();
    manager.insert("a", 0);
    manager.load("a").unwrap();
    drop(manager);
    let intake = loader.intake();
    assert_eq!(intake.requests, vec![(0, String::from("a"))]);
    assert!(loader.intake().closed);
}

#[test]
fn deliver_tells_its_four_outcomes_apart() {
    let mut builder = Builder::new();
    let mut manager = builder.create_manager::<Bytes, Echo>(0);
    let gone = builder.create_manager::<Bytes, Echo>(0);
    let loader = builder.finish_loader();
    drop(gone);
    manager.insert("a", 0);
    assert_eq!(loader.deliver(0, String::from("a"), Ok(vec![1])), Delivery::Delivered);
    assert_eq!(loader.deliver(0, String::from("a"), Err(SourceError::NotFound)), Delivery::FetchFailed);
    assert_eq!(loader.deliver(0, String::from("a"), Err(SourceError::IoFailure)), Delivery::FetchFailed);
    assert_eq!(loader.deliver(7, String::from("a"), Err(SourceError::IoFailure)), Delivery::FetchFailed);
    assert_eq!(loader.deliver(1, String::from("a"), Ok(vec![1])), Delivery::ManagerGone);
    assert_eq!(loader.deliver(2, String::from("a"), Ok(vec![1])), Delivery::UnknownManager);
    assert_eq!(loader.deliver(usize::MAX, String::from("a"), Ok(vec![1])), Delivery::UnknownManager);
    manager.maintain();
    assert_eq!(*manager.get("a").unwrap(), vec![1]);
}

#[test]
fn decode_gets_the_side_data_of_entry_and_manager() {
    let mut builder = Builder::new();
    let mut manager = builder.create_manager::<Bytes, Echo>(100);
    let mut loader = builder.finish_loader();
    manager.insert("a", 1);
    manager.insert("b", 2);
    // The side data of the first insert stays.
    manager.insert("a", 50);
    manager.load("a").unwrap();
    manager.load("b").unwrap();
    for (manager_idx, path) in loader.intake().requests {
        let fetched = Echo::load(&path);
        loader.deliver(manager_idx, path, fetched);
    }
    manager.maintain();
    assert_eq!(*manager.get("a").unwrap(), vec![b'a' + 101]);
    assert_eq!(*manager.get("b").unwrap(), vec![b'b' + 102]);
    assert_eq!(
        *manager.get("a").unwrap(),
        Bytes::decode(Echo::load("a").unwrap(), &1, &100).unwrap()
    );
}

#[test]
fn insert_raw_replaces_the_side_data() {
    let mut builder = Builder::new();
    let mut manager = builder.create_manager::<Bytes, Echo>(0);
    manager.insert("a", 1);
    manager.insert_raw("a", vec![9], 5);
    assert_eq!(*manager.get("a").unwrap(), vec![9]);
    manager.complete(String::from("a"), vec![10]);
    assert_eq!(*manager.get("a").unwrap(), vec![15]);
}

#[test]
fn policies_are_off_until_asked_for() {
    let mut builder = Builder::new();
    let mut manager = builder.create_manager::<Bytes, Echo>(0);
    manager.insert("idle", 0);
    manager.insert_raw("ready", vec![1], 0);
    manager.maintain();
    assert_eq!(manager.status("idle"), Some(LoadStatus::NotLoaded));
    assert_eq!(manager.status("ready"), Some(LoadStatus::Loaded));
    let mut manager = manager.auto_unload();
    manager.maintain();
    assert_eq!(manager.status("idle"), Some(LoadStatus::NotLoaded));
    assert_eq!(manager.status("ready"), Some(LoadStatus::NotLoaded));
    let mut manager = manager.auto_dropout();
    manager.maintain();
    assert_eq!(manager.status("idle"), None);
    assert_eq!(manager.status("ready"), None);
}

#[test]
fn handle_starts_not_loaded() {
    let handle = AssetHandle::<Bytes>::new(String::from("a"), 7);
    assert_eq!(handle.path(), "a");
    assert_eq!(handle.status(), LoadStatus::NotLoaded);
    assert_eq!(*handle.data(), 7);
    assert!(handle.get().is_none());
    assert_eq!(handle.strong_count(), None);
}

#[test]
fn handle_set_then_unload() {
    let mut handle = AssetHandle::<Bytes>::new(String::from("a"), 7);
    handle.set(vec![1, 2]);
    assert_eq!(handle.status(), LoadStatus::Loaded);
    assert_eq!(**handle.get().unwrap(), vec![1, 2]);
    assert_eq!(handle.strong_count(), Some(1));
    handle.unload();
    assert_eq!(handle.status(), LoadStatus::NotLoaded);
    assert!(handle.get().is_none());
    handle.unload();
    assert_eq!(handle.status(), LoadStatus::NotLoaded);
    assert_eq!(handle.path(), "a");
    assert_eq!(*handle.data(), 7);
}

#[test]
fn handle_start_loading_lets_go_of_the_payload() {
    let mut handle = AssetHandle::<Bytes>::new(String::from("a"), 7);
    handle.start_loading();
    assert_eq!(handle.status(), LoadStatus::Loading);
    assert!(handle.get().is_none());
    handle.set(vec![3]);
    handle.start_loading();
    assert_eq!(handle.status(), LoadStatus::Loading);
    assert!(handle.get().is_none());
    handle.unload();
    assert_eq!(handle.status(), LoadStatus::NotLoaded);
}

#[test]
fn handle_unloads_only_when_unshared() {
    let mut handle = AssetHandle::<Bytes>::new(String::from("a"), 7);
    assert!(!handle.unload_unshared(1));
    handle.set(vec![3]);
    let held = Arc::clone(handle.get().unwrap());
    let owners = handle.strong_count().unwrap();
    assert_eq!(owners, 2);
    assert!(!handle.unload_unshared(owners));
    assert_eq!(handle.status(), LoadStatus::Loaded);
    drop(held);
    let owners = handle.strong_count().unwrap();
    assert_eq!(owners, 1);
    assert!(handle.unload_unshared(owners));
    assert_eq!(handle.status(), LoadStatus::NotLoaded);
    assert!(handle.get().is_none());
    handle.start_loading();
    assert!(!handle.unload_unshared(1));
    assert_eq!(handle.status(), LoadStatus::Loading);
}

#[test]
fn record_appends_a_request_and_asks_for_more() {
    let mut intake = Intake { requests: vec![(0, String::from("a"))], closed: false };
    assert!(intake.record(Polled::Item((3, String::from("b")))));
    assert_eq!(intake.requests, vec![(0, String::from("a")), (3, String::from("b"))]);
    assert!(!intake.closed);
}

#[test]
fn record_ends_on_an_empty_channel() {
    let mut intake = Intake { requests: vec![(0, String::from("a"))], closed: false };
    assert!(!intake.record(Polled::Empty));
    assert_eq!(intake.requests, vec![(0, String::from("a"))]);
    assert!(!intake.closed);
}

#[test]
fn record_notes_a_closed_channel() {
    let mut intake = Intake { requests: vec![(0, String::from("a"))], closed: false };
    assert!(!intake.record(Polled::Closed));
    assert_eq!(intake.requests, vec![(0, String::from("a"))]);
    assert!(intake.closed);
}

#[test]
fn addressed_names_the_manager_and_pairs_path_with_bytes() {
    let mut builder = Builder::new();
    let _first = builder.create_manager::<Bytes, Echo>(0);
    let _second = builder.create_manager::<Bytes, Echo>(0);
    let loader = builder.finish_loader();
    assert_eq!(
        loader.addressed(1, String::from("p"), Ok(vec![1, 2])),
        Ok((1, (String::from("p"), vec![1, 2])))
    );
    assert_eq!(
        loader.addressed(0, String::from("q"), Ok(vec![])),
        Ok((0, (String::from("q"), vec![])))
    );
}

#[test]
fn addressed_gives_the_reason_when_nothing_is_sent() {
    let mut builder = Builder::new();
    let _first = builder.create_manager::<Bytes, Echo>(0);
    let loader = builder.finish_loader();
    assert_eq!(loader.addressed(1, String::from("p"), Ok(vec![1])), Err(Delivery::UnknownManager));
    assert_eq!(
        loader.addressed(0, String::from("p"), Err(SourceError::IoFailure)),
        Err(Delivery::FetchFailed)
    );
    // A failed fetch is named first, whoever asked.
    assert_eq!(
        loader.addressed(9, String::from("p"), Err(SourceError::NotFound)),
        Err(Delivery::FetchFailed)
    );
}

#[test]
fn deliver_sends_each_payload_once_to_the_manager_that_asked() {
    let mut builder = Builder::new();
    let mut first = builder.create_manager::<Bytes, Echo>(0);
    let mut second = builder.create_manager::<Bytes, Echo>(0);
    let loader = builder.finish_loader();
    for manager in [&mut first, &mut second] {
        manager.insert("p", 0);
        manager.insert("q", 0);
    }
    // The fetch asked for last ends first.
    assert_eq!(loader.deliver(1, String::from("q"), Ok(vec![2])), Delivery::Delivered);
    assert_eq!(loader.deliver(0, String::from("p"), Ok(vec![1])), Delivery::Delivered);
    first.maintain();
    second.maintain();
    assert_eq!(*first.get("p").unwrap(), vec![1]);
    assert_eq!(first.status("q"), Some(LoadStatus::NotLoaded));
    assert_eq!(first.get_loaded_once(), vec![String::from("p")]);
    assert_eq!(*second.get("q").unwrap(), vec![2]);
    assert_eq!(second.status("p"), Some(LoadStatus::NotLoaded));
    assert_eq!(second.get_loaded_once(), vec![String::from("q")]);
    // Nothing more is waiting for either.
    first.maintain();
    second.maintain();
    assert!(first.get_loaded_once().is_empty());
    assert!(second.get_loaded_once().is_empty());
}

#[test]
fn when_idle_stops_only_on_a_closed_channel() {
    let open = Intake { requests: vec![], closed: false };
    assert_eq!(open.when_idle(), Idle::Wait);
    let closed = Intake { requests: vec![(0, String::from("a"))], closed: true };
    assert_eq!(closed.when_idle(), Idle::Stop);
}

#[test]
fn take_for_ends_without_payload_on_a_closed_channel() {
    let mut builder = Builder::new();
    let mut manager = builder.create_manager::<Bytes, Echo>(0);
    manager.insert("p", 0);
    manager.begin_load("p", true).unwrap();
    assert!(matches!(manager.take_for("p", None), Some(None)));
    assert_eq!(manager.status("p"), Some(LoadStatus::Loading));
}

#[test]
fn take_for_installs_under_the_path_of_the_completion() {
    let mut builder = Builder::new();
    let mut manager = builder.create_manager::<Bytes, Echo>(0);
    manager.insert("p", 1);
    manager.insert("q", 2);
    manager.begin_load("p", true).unwrap();
    manager.begin_load("q", true).unwrap();
    // A completion for another path is taken in, and the wait goes on.
    assert!(manager.take_for("p", Some((String::from("q"), vec![10]))).is_none());
    assert_eq!(manager.status("p"), Some(LoadStatus::Loading));
    assert_eq!(*manager.get("q").unwrap(), vec![12]);
    // One that does not decode leaves the wait going too.
    assert!(manager.take_for("p", Some((String::from("p"), vec![]))).is_none());
    assert_eq!(manager.status("p"), Some(LoadStatus::Loading));
    // The one that decodes ends it, with the bytes that came.
    let payload = manager.take_for("p", Some((String::from("p"), vec![10]))).unwrap().unwrap();
    assert_eq!(*payload, vec![11]);
    assert_eq!(*manager.get("p").unwrap(), vec![11]);
    assert_eq!(manager.get_loaded_once(), vec![String::from("q"), String::from("p")]);
}
