use std::cell::Cell;
use std::rc::Rc;

use nixui_core::cache::ViewCache;
use nixui_core::state::ConfigState;

fn pair(k: &str, v: &str) -> (String, String) {
    (String::from(k), String::from(v))
}

fn sample() -> ConfigState {
    ConfigState::from_parsed(
        String::from("{ a = true; b = \"x\"; }"),
        vec![pair("a", "true"), pair("b", "x")],
    )
}

fn listing(state: &ConfigState) -> Rc<Vec<String>> {
    Rc::new(state.keys())
}

#[test]
fn unchanged_state_gives_the_very_same_view() {
    let calls = Cell::new(0u32);
    let mut cache: ViewCache<Rc<Vec<String>>> = ViewCache::new(Rc::new(Vec::new()));
    let s = sample();
    let first = cache
        .derive(&s, |state| {
            calls.set(calls.get() + 1);
            listing(state)
        })
        .clone();
    let second = cache
        .derive(&s, |state| {
            calls.set(calls.get() + 1);
            listing(state)
        })
        .clone();
    assert_eq!(calls.get(), 1);
    assert!(Rc::ptr_eq(&first, &second));
    assert_eq!(*first, vec![String::from("a"), String::from("b")]);
}

#[test]
fn an_equal_state_gives_the_very_same_view() {
    let calls = Cell::new(0u32);
    let mut cache: ViewCache<Rc<Vec<String>>> = ViewCache::new(Rc::new(Vec::new()));
    let first = cache
        .derive(&sample(), |state| {
            calls.set(calls.get() + 1);
            listing(state)
        })
        .clone();
    let second = cache
        .derive(&sample().move_cursor("a", (2, 2)), |state| {
            calls.set(calls.get() + 1);
            listing(state)
        })
        .clone();
    assert_eq!(calls.get(), 1);
    assert!(Rc::ptr_eq(&first, &second));
}

#[test]
fn a_changed_state_rebuilds_once() {
    let calls = Cell::new(0u32);
    let mut cache: ViewCache<Rc<String>> = ViewCache::new(Rc::new(String::new()));
    let s1 = sample();
    let s2 = sample().edit("b", "y");
    let first = cache
        .derive(&s1, |state| {
            calls.set(calls.get() + 1);
            Rc::new(state.content_of("b").unwrap())
        })
        .clone();
    assert_eq!(calls.get(), 1);
    let second = cache
        .derive(&s2, |state| {
            calls.set(calls.get() + 1);
            Rc::new(state.content_of("b").unwrap())
        })
        .clone();
    assert_eq!(calls.get(), 2);
    assert!(!Rc::ptr_eq(&first, &second));
    assert_eq!(*first, "x");
    assert_eq!(*second, "y");
    assert!(cache.is_current(&s2));
    assert!(!cache.is_current(&s1));
    assert!(Rc::ptr_eq(cache.view_ref(), &second));
}

#[test]
fn going_back_to_an_earlier_state_rebuilds() {
    let calls = Cell::new(0u32);
    let mut cache: ViewCache<u32> = ViewCache::new(0);
    let s1 = sample();
    let s2 = sample().edit("b", "y");
    for s in [&s1, &s2, &s2, &s1, &s1] {
        cache.derive(s, |_| {
            calls.set(calls.get() + 1);
            calls.get()
        });
    }
    assert_eq!(calls.get(), 3);
    assert_eq!(*cache.view_ref(), 3);
}

#[test]
fn a_new_cache_has_seen_the_empty_state() {
    let mut cache: ViewCache<u32> = ViewCache::new(5);
    assert!(cache.is_current(&ConfigState::default()));
    assert!(!cache.is_current(&sample()));
    assert_eq!(*cache.view_ref(), 5);
    let v = *cache.derive(&ConfigState::default(), |_| 9);
    assert_eq!(v, 5);
}

#[test]
fn the_view_is_built_from_the_state_alone() {
    let mut cache: ViewCache<Vec<String>> = ViewCache::new(Vec::new());
    let s = sample().edit("a", "false");
    let view = cache.derive(&s, |state| {
        state.keys().into_iter().map(|k| state.content_of(&k).unwrap()).collect()
    });
    assert_eq!(*view, vec![String::from("false"), String::from("x")]);
}
