use redux::{DispatchError, NoMiddleware, Reducer, Store, Subscriber, Subscription};

use std::sync::{Arc, Mutex};

#[derive(Clone)]
struct UState(usize);

impl Reducer for UState {
    type Action = usize;
    type Error = String;

    fn initial() -> UState {
        UState(0)
    }

    fn reduce(&self, action: &usize) -> Result<UState, String> {
        if *action == 0 {
            Err(String::from("zero is not a unit of work"))
        } else {
            Ok(UState(self.0 + *action))
        }
    }

    fn dup(&self) -> UState {
        self.clone()
    }
}

#[derive(Clone)]
enum USub {
    Nop,
    Ping(Arc<Mutex<usize>>),
}

impl Subscriber<UState, NoMiddleware> for USub {
    fn dup(&self) -> USub {
        self.clone()
    }

    fn notify(&self, _store: &mut Store<UState, NoMiddleware, USub>, _own: &Subscription) {
        match self {
            USub::Nop => {}
            USub::Ping(counter) => {
                *counter.lock().unwrap() += 1;
            }
        }
    }
}

#[test]
fn get_subscriptions() {
    let mut store: Store<UState, NoMiddleware, USub> = Store::new(vec![]);
    {
        let (remove, subs) = store.get_subscriptions();
        assert_eq!(0, remove.len());
        assert_eq!(0, subs.len());
    }

    let sub = store.subscribe(USub::Nop);
    {
        let (remove, subs) = store.get_subscriptions();
        assert_eq!(0, remove.len());
        assert_eq!(1, subs.len());
    }

    sub.cancel(&mut store);
    {
        let (remove, subs) = store.get_subscriptions();
        assert_eq!(1, remove.len());
        assert_eq!(0, subs.len());
    }
}

#[test]
fn try_remove_subscriptions_easy_lock() {
    let mut store: Store<UState, NoMiddleware, USub> = Store::new(vec![]);
    let sub = store.subscribe(USub::Nop);
    sub.cancel(&mut store);

    let (remove, _) = store.get_subscriptions();
    store.try_to_remove_subscriptions(remove);
    let (_, subs) = store.get_subscriptions();
    assert_eq!(0, subs.len());
    assert_eq!(0, store.subscription_count());
}

#[test]
fn try_remove_subscriptions_no_lock() {
    let mut store: Store<UState, NoMiddleware, USub> = Store::new(vec![]);
    let sub = store.subscribe(USub::Nop);
    sub.cancel(&mut store);

    // A round whose removal is skipped - the best-effort compaction did no
    // work - leaves the cancelled entry physically in place; it is merely
    // re-observed and skipped by every later snapshot, which is acceptable.
    store.try_to_remove_subscriptions(Vec::new());
    assert_eq!(1, store.subscription_count());
}

#[test]
fn compaction_keeps_active_entries() {
    let mut store: Store<UState, NoMiddleware, USub> = Store::new(vec![]);
    let first = store.subscribe(USub::Nop);
    let second = store.subscribe(USub::Nop);
    let third = store.subscribe(USub::Nop);
    first.cancel(&mut store);
    third.cancel(&mut store);

    let (remove, subs) = store.get_subscriptions();
    assert_eq!(2, remove.len());
    assert_eq!(1, subs.len());
    store.try_to_remove_subscriptions(remove);
    assert_eq!(1, store.subscription_count());
    assert!(second.is_active(&store));
    assert!(!first.is_active(&store));
    assert!(!third.is_active(&store));
}

#[test]
fn handle_reports_active() {
    let mut store: Store<UState, NoMiddleware, USub> = Store::new(vec![]);
    let sub = store.subscribe(USub::Nop);
    assert!(sub.is_active(&store));
    sub.cancel(&mut store);
    assert!(!sub.is_active(&store));
    // cancelling again changes nothing
    sub.cancel(&mut store);
    assert!(!sub.is_active(&store));
}

#[test]
fn reducer_failure_keeps_state() {
    let counter = Arc::new(Mutex::new(0usize));
    let mut store: Store<UState, NoMiddleware, USub> = Store::new(vec![]);
    store.subscribe(USub::Ping(counter.clone()));

    let ok = store.dispatch(41);
    assert!(matches!(ok, Ok(41)));
    assert_eq!(41, store.get_state().0);
    assert_eq!(1, *counter.lock().unwrap());

    let failed = store.dispatch(0);
    match failed {
        Err(DispatchError::ReducerFailed(message)) => {
            assert_eq!("zero is not a unit of work", message);
        }
        _ => panic!("the reducer should have rejected a zero action"),
    }
    // state unchanged, and a failed dispatch runs zero subscriber callbacks
    assert_eq!(41, store.get_state().0);
    assert_eq!(1, *counter.lock().unwrap());
}

#[test]
fn dispatch_echoes_the_action() {
    let mut store: Store<UState, NoMiddleware, USub> = Store::new(vec![]);
    let echoed = store.dispatch(7).unwrap();
    assert_eq!(7, echoed);
    assert_eq!(7, store.get_state().0);
}
