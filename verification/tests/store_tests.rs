use redux::{DispatchError, InternalStore, Middleware, Reducer, Store, Subscriber, Subscription};

use std::collections::HashMap;
use std::sync::{Arc, Mutex};

#[derive(Clone)]
enum TodoAction {
    NewTodo { name: String },
}

#[derive(Clone)]
struct Todo {
    #[allow(dead_code)]
    name: String,
    id: usize,
}

#[derive(Clone)]
struct TodoStore {
    todos: HashMap<usize, Todo>,
    vec: Vec<usize>,
    ticket: usize,
}

impl TodoStore {
    pub fn new() -> TodoStore {
        TodoStore { todos: HashMap::new(), vec: Vec::new(), ticket: 0 }
    }

    pub fn ticket(&mut self) -> usize {
        self.ticket += 1;
        self.ticket
    }

    pub fn push(&mut self, todo: Todo) {
        let ticket = todo.id;
        self.todos.insert(ticket, todo);
        self.vec.push(ticket);
    }

    pub fn len(&self) -> usize {
        self.vec.len()
    }
}

impl Reducer for TodoStore {
    type Action = TodoAction;
    type Error = String;

    fn initial() -> TodoStore {
        TodoStore::new()
    }

    fn reduce(&self, action: &TodoAction) -> Result<TodoStore, String> {
        match action {
            TodoAction::NewTodo { name } => {
                let mut next = self.clone();
                let todo = Todo { name: name.clone(), id: next.ticket() };
                next.push(todo);
                Ok(next)
            }
        }
    }

    fn dup(&self) -> TodoStore {
        self.clone()
    }
}

#[derive(Clone)]
enum TodoMw {
    Counter { before_count: Arc<Mutex<usize>>, after_count: Arc<Mutex<usize>> },
    Probe { rejections: Arc<Mutex<usize>> },
    Order { log: Arc<Mutex<Vec<String>>>, name: String },
}

impl Middleware<TodoStore> for TodoMw {
    fn before(&self, cell: &mut InternalStore<TodoStore>, _action: &TodoAction) {
        match self {
            TodoMw::Counter { before_count, .. } => {
                let mut count = before_count.lock().unwrap();
                *count += 1;
            }
            TodoMw::Probe { rejections } => {
                let smuggled = TodoAction::NewTodo { name: String::from("smuggled") };
                match cell.dispatch(&smuggled) {
                    Err(DispatchError::AlreadyReducing) => {
                        *rejections.lock().unwrap() += 1;
                    }
                    _ => {}
                }
            }
            TodoMw::Order { log, name } => {
                log.lock().unwrap().push(format!("before-{}-{}", name, cell.get().len()));
            }
        }
    }

    fn after(
        &self,
        cell: &mut InternalStore<TodoStore>,
        _action: &TodoAction,
        _outcome: &Result<TodoStore, DispatchError<String>>,
    ) {
        match self {
            TodoMw::Counter { after_count, .. } => {
                let mut count = after_count.lock().unwrap();
                *count += 2;
            }
            TodoMw::Probe { .. } => {}
            TodoMw::Order { log, name } => {
                log.lock().unwrap().push(format!("after-{}-{}", name, cell.get().len()));
            }
        }
    }
}

#[derive(Clone)]
enum TodoSub {
    Pingback(Arc<Mutex<usize>>),
    ChainIfShort(String),
    SubscribeChainer,
    ChainUntilFive,
    SubscribePingback(Arc<Mutex<usize>>),
    CancelOther(Arc<Mutex<Option<Subscription>>>),
    Log(Arc<Mutex<Vec<String>>>, String),
}

impl Subscriber<TodoStore, TodoMw> for TodoSub {
    fn dup(&self) -> TodoSub {
        self.clone()
    }

    fn notify(&self, store: &mut Store<TodoStore, TodoMw, TodoSub>, _own: &Subscription) {
        match self {
            TodoSub::Pingback(counter) => {
                let mut counter = counter.lock().unwrap();
                *counter += 1;
            }
            TodoSub::ChainIfShort(name) => {
                if store.get_state().len() < 2 {
                    let action = TodoAction::NewTodo { name: name.clone() };
                    let _ = store.dispatch(action);
                }
            }
            TodoSub::SubscribeChainer => {
                store.subscribe(TodoSub::ChainUntilFive);
            }
            TodoSub::ChainUntilFive => {
                if store.get_state().len() < 5 {
                    let action = TodoAction::NewTodo { name: String::from("Grocery Shopping") };
                    let _ = store.dispatch(action);
                }
            }
            TodoSub::SubscribePingback(counter) => {
                store.subscribe(TodoSub::Pingback(counter.clone()));
            }
            TodoSub::CancelOther(slot) => {
                if let Some(other) = *slot.lock().unwrap() {
                    other.cancel(store);
                }
            }
            TodoSub::Log(log, name) => {
                log.lock().unwrap().push(name.clone());
            }
        }
    }
}

#[test]
fn todo_list() {
    let pingbacker = Arc::new(Mutex::new(0usize));

    let mut store: Store<TodoStore, TodoMw, TodoSub> = Store::new(vec![]);
    let pbacker = pingbacker.clone();
    store.subscribe(TodoSub::Pingback(pingbacker));

    let action = TodoAction::NewTodo { name: String::from("Grocery Shopping") };
    let _ = store.dispatch(action);
    assert_eq!(1, store.get_state().len());
    assert_eq!(1, *pbacker.lock().unwrap());
}

#[test]
fn dispatch_from_a_listener() {
    let mut store: Store<TodoStore, TodoMw, TodoSub> = Store::new(vec![]);
    store.subscribe(TodoSub::ChainIfShort(String::from("Finish that new todo")));

    let action = TodoAction::NewTodo { name: String::from("Grocery Shopping") };
    let _ = store.dispatch(action);
    assert_eq!(2, store.get_state().len());
}

#[test]
fn cancel_subscription() {
    let pingbacker = Arc::new(Mutex::new(0usize));

    let mut store: Store<TodoStore, TodoMw, TodoSub> = Store::new(vec![]);
    let pbacker = pingbacker.clone();
    let subscription = store.subscribe(TodoSub::Pingback(pingbacker));

    let action = TodoAction::NewTodo { name: String::from("Grocery Shopping") };
    let _ = store.dispatch(action);
    assert_eq!(1, store.get_state().len());
    assert_eq!(1, *pbacker.lock().unwrap());

    subscription.cancel(&mut store);
    let action2 = TodoAction::NewTodo { name: String::from("Grocery Shopping") };
    let _ = store.dispatch(action2);
    assert_eq!(2, store.get_state().len());
    assert_eq!(1, *pbacker.lock().unwrap());
}

#[test]
fn middleware() {
    let before_count = Arc::new(Mutex::new(0usize));
    let after_count = Arc::new(Mutex::new(0usize));
    let counter = TodoMw::Counter {
        before_count: before_count.clone(),
        after_count: after_count.clone(),
    };
    let mut store: Store<TodoStore, TodoMw, TodoSub> = Store::new(vec![counter]);
    let action = TodoAction::NewTodo { name: String::from("Grocery Shopping") };
    let _ = store.dispatch(action);
    assert_eq!(1, store.get_state().len());
    assert_eq!(1, *before_count.lock().unwrap());
    assert_eq!(2, *after_count.lock().unwrap());
}

#[test]
fn subscribe_during_subscription_callback() {
    let mut store: Store<TodoStore, TodoMw, TodoSub> = Store::new(vec![]);

    // on our first action, sub another subscriber that adds more actions
    let sub = store.subscribe(TodoSub::SubscribeChainer);

    let action = TodoAction::NewTodo { name: String::from("Grocery Shopping") };
    let _ = store.dispatch(action.clone());
    assert_eq!(1, store.get_state().len());
    // cancel the first subscription so we're not caught in an infinite subscriber loop
    sub.cancel(&mut store);

    let _ = store.dispatch(action.clone());
    assert_eq!(5, store.get_state().len());
}

#[test]
fn middleware_reentrancy_rejected() {
    let rejections = Arc::new(Mutex::new(0usize));
    let probe = TodoMw::Probe { rejections: rejections.clone() };
    let mut store: Store<TodoStore, TodoMw, TodoSub> = Store::new(vec![probe]);

    let action = TodoAction::NewTodo { name: String::from("Grocery Shopping") };
    let result = store.dispatch(action);
    assert!(result.is_ok());
    // the hook's own dispatch attempt was rejected while the guard was held,
    // and its smuggled action never reached the state
    assert_eq!(1, *rejections.lock().unwrap());
    assert_eq!(1, store.get_state().len());
}

#[test]
fn middleware_nesting_order() {
    let log = Arc::new(Mutex::new(Vec::new()));
    let outer = TodoMw::Order { log: log.clone(), name: String::from("A") };
    let inner = TodoMw::Order { log: log.clone(), name: String::from("B") };
    let mut store: Store<TodoStore, TodoMw, TodoSub> = Store::new(vec![outer, inner]);

    let action = TodoAction::NewTodo { name: String::from("Grocery Shopping") };
    let _ = store.dispatch(action);
    // before hooks outer-to-inner with the pre-reduction state, after hooks
    // inner-to-outer with the post-reduction state: strict nesting
    let seen = log.lock().unwrap().clone();
    assert_eq!(
        vec![
            String::from("before-A-0"),
            String::from("before-B-0"),
            String::from("after-B-1"),
            String::from("after-A-1"),
        ],
        seen
    );
}

#[test]
fn deferred_subscription_fires_next_dispatch() {
    let counter = Arc::new(Mutex::new(0usize));
    let mut store: Store<TodoStore, TodoMw, TodoSub> = Store::new(vec![]);
    let feeder = store.subscribe(TodoSub::SubscribePingback(counter.clone()));

    let action = TodoAction::NewTodo { name: String::from("Grocery Shopping") };
    let _ = store.dispatch(action.clone());
    // the pingback was registered during this dispatch, after the snapshot:
    // it must not have been invoked yet
    assert_eq!(0, *counter.lock().unwrap());

    feeder.cancel(&mut store);
    let _ = store.dispatch(action.clone());
    // the next dispatch's snapshot includes it
    assert_eq!(1, *counter.lock().unwrap());
}

#[test]
fn cancel_mid_dispatch_is_respected_next_round() {
    let counter = Arc::new(Mutex::new(0usize));
    let slot = Arc::new(Mutex::new(None));
    let mut store: Store<TodoStore, TodoMw, TodoSub> = Store::new(vec![]);
    store.subscribe(TodoSub::CancelOther(slot.clone()));
    let pingback = store.subscribe(TodoSub::Pingback(counter.clone()));
    *slot.lock().unwrap() = Some(pingback);

    let action = TodoAction::NewTodo { name: String::from("Grocery Shopping") };
    let _ = store.dispatch(action.clone());
    // the pingback was cancelled mid-dispatch by the first subscriber, but it
    // was already selected into this round's snapshot, so it still ran once
    assert_eq!(1, *counter.lock().unwrap());
    assert!(!pingback.is_active(&store));

    let _ = store.dispatch(action.clone());
    // no snapshot taken after the cancellation includes it
    assert_eq!(1, *counter.lock().unwrap());
}

#[test]
fn subscribers_fire_in_registration_order() {
    let log = Arc::new(Mutex::new(Vec::new()));
    let mut store: Store<TodoStore, TodoMw, TodoSub> = Store::new(vec![]);
    store.subscribe(TodoSub::Log(log.clone(), String::from("first")));
    store.subscribe(TodoSub::Log(log.clone(), String::from("second")));
    store.subscribe(TodoSub::Log(log.clone(), String::from("third")));

    let action = TodoAction::NewTodo { name: String::from("Grocery Shopping") };
    let _ = store.dispatch(action);
    let seen = log.lock().unwrap().clone();
    assert_eq!(
        vec![String::from("first"), String::from("second"), String::from("third")],
        seen
    );
}

#[test]
fn run_chain_reduces_without_notifying() {
    let counter = Arc::new(Mutex::new(0usize));
    let mut store: Store<TodoStore, TodoMw, TodoSub> = Store::new(vec![]);
    store.subscribe(TodoSub::Pingback(counter.clone()));

    let action = TodoAction::NewTodo { name: String::from("Grocery Shopping") };
    let (outcome, _trace) = store.run_chain(&action);
    assert!(outcome.is_ok());
    assert_eq!(1, store.get_state().len());
    // the chain performs the guarded reduction only; notification belongs to
    // dispatch
    assert_eq!(0, *counter.lock().unwrap());
}
