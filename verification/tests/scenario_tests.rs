use redux::{NoMiddleware, Reducer, Store, Subscriber, Subscription};

use std::sync::{Arc, Mutex};

#[derive(Clone)]
struct ListState {
    items: Vec<String>,
}

#[derive(Clone)]
enum ListAction {
    Insert(String),
}

impl Reducer for ListState {
    type Action = ListAction;
    type Error = String;

    fn initial() -> ListState {
        ListState { items: Vec::new() }
    }

    fn reduce(&self, action: &ListAction) -> Result<ListState, String> {
        match action {
            ListAction::Insert(value) => {
                let mut items = self.items.clone();
                items.push(value.clone());
                Ok(ListState { items })
            }
        }
    }

    fn dup(&self) -> ListState {
        self.clone()
    }
}

#[derive(Clone)]
struct PingSub(Arc<Mutex<usize>>);

impl Subscriber<ListState, NoMiddleware> for PingSub {
    fn dup(&self) -> PingSub {
        self.clone()
    }

    fn notify(&self, _store: &mut Store<ListState, NoMiddleware, PingSub>, _own: &Subscription) {
        *self.0.lock().unwrap() += 1;
    }
}

#[test]
fn insert_and_cancel_scenario() {
    let fired = Arc::new(Mutex::new(0usize));
    let mut store: Store<ListState, NoMiddleware, PingSub> = Store::new(vec![]);
    assert_eq!(Vec::<String>::new(), store.get_state().items);

    let sub = store.subscribe(PingSub(fired.clone()));
    let _ = store.dispatch(ListAction::Insert(String::from("x")));
    assert_eq!(vec![String::from("x")], store.get_state().items);
    assert_eq!(1, *fired.lock().unwrap());

    sub.cancel(&mut store);
    let _ = store.dispatch(ListAction::Insert(String::from("y")));
    assert_eq!(vec![String::from("x"), String::from("y")], store.get_state().items);
    assert_eq!(1, *fired.lock().unwrap());
}
