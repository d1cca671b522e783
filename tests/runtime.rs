use hotswap::retire::RefManager;
use hotswap::runtime::{LoadOrder, Runtime};
use hotswap::token::{HotswapError, Token};

fn name(s: &str) -> String {
    s.to_string()
}

/// Loads the next module with the given addresses, as the reload loop does.
fn reload(rt: &mut Runtime, modified: u64, addrs: Vec<Option<usize>>) -> (u64, Result<(), HotswapError>) {
    let n = rt.begin_load().unwrap();
    (n, rt.publish(n, modified, &addrs))
}

#[test]
fn lookup_of_unregistered_name_is_unknown() {
    let mut rt = Runtime::new();
    rt.register(&name("f"));
    assert_eq!(rt.lookup(&name("g")), Err(HotswapError::UnknownFunction));
}

#[test]
fn lookup_before_first_cycle_is_not_initialized() {
    let mut rt = Runtime::new();
    rt.register(&name("f"));
    assert_eq!(rt.lookup(&name("f")), Err(HotswapError::NotInitialized));
}

#[test]
fn in_flight_call_keeps_module_through_reloads() {
    let mut rt = Runtime::new();
    rt.register(&name("f"));
    assert_eq!(reload(&mut rt, 1, vec![Some(0x100)]), (0, Ok(())));
    let held = rt.lookup(&name("f")).unwrap();
    assert_eq!(held, Token { module: 0, slot: 0, addr: 0x100 });
    // Several reloads while the call on module 0 is still running.
    for (k, addr) in [(2u64, 0x200usize), (3, 0x300), (4, 0x400)] {
        reload(&mut rt, k, vec![Some(addr)]).1.unwrap();
        let released = rt.sweep();
        assert!(!released.contains(&0));
    }
    // Modules 1 and 2 had no call in flight and are gone; module 0 stays.
    assert_eq!(rt.retired_len(), 1);
    assert!(rt.release(held));
    assert_eq!(rt.sweep(), vec![0]);
    assert_eq!(rt.retired_len(), 0);
}

#[test]
fn lookup_after_reload_dispatches_into_new_module() {
    let mut rt = Runtime::new();
    rt.register(&name("f"));
    reload(&mut rt, 10, vec![Some(0xa1)]).1.unwrap();
    let v1 = rt.lookup(&name("f")).unwrap();
    assert_eq!((v1.module, v1.addr), (0, 0xa1));
    rt.release(v1);
    reload(&mut rt, 20, vec![Some(0xb2)]).1.unwrap();
    let v2 = rt.lookup(&name("f")).unwrap();
    assert_eq!((v2.module, v2.addr), (1, 0xb2));
    rt.release(v2);
}

#[test]
fn released_token_lets_module_retire_once() {
    let mut rt = Runtime::new();
    rt.register(&name("f"));
    rt.register(&name("g"));
    reload(&mut rt, 1, vec![Some(1), Some(2)]).1.unwrap();
    let f = rt.lookup(&name("f")).unwrap();
    let g = rt.lookup(&name("g")).unwrap();
    reload(&mut rt, 2, vec![Some(3), Some(4)]).1.unwrap();
    assert_eq!(rt.sweep(), Vec::<u64>::new());
    assert!(rt.release(f));
    assert_eq!(rt.sweep(), Vec::<u64>::new());
    assert!(rt.release(g));
    assert_eq!(rt.sweep(), vec![0]);
    assert_eq!(rt.sweep(), Vec::<u64>::new());
    // A token nobody holds any more is not released twice.
    assert!(!rt.release(g));
}

#[test]
fn reregistering_keeps_published_token() {
    let mut rt = Runtime::new();
    assert_eq!(rt.register(&name("f")), 0);
    reload(&mut rt, 1, vec![Some(7)]).1.unwrap();
    assert_eq!(rt.register(&name("f")), 0);
    assert_eq!(rt.len(), 1);
    assert_eq!(rt.lookup(&name("f")), Ok(Token { module: 0, slot: 0, addr: 7 }));
}

#[test]
fn reload_due_only_on_strictly_later_time() {
    let mut rt = Runtime::new();
    rt.register(&name("f"));
    assert!(rt.should_reload(Some(100)));
    assert!(!rt.should_reload(None));
    reload(&mut rt, 100, vec![Some(1)]).1.unwrap();
    assert!(!rt.should_reload(Some(100)));
    assert!(!rt.should_reload(Some(99)));
    assert!(rt.should_reload(Some(101)));
    reload(&mut rt, 101, vec![Some(2)]).1.unwrap();
    assert!(!rt.should_reload(Some(101)));
}

#[test]
fn failed_resolution_updates_no_entry() {
    let mut rt = Runtime::new();
    rt.register(&name("f"));
    rt.register(&name("g"));
    reload(&mut rt, 1, vec![Some(10), Some(20)]).1.unwrap();
    let (n, r) = reload(&mut rt, 2, vec![Some(11), None]);
    assert_eq!(n, 1);
    assert_eq!(r, Err(HotswapError::SymbolResolutionFailure));
    assert_eq!(rt.lookup(&name("f")), Ok(Token { module: 0, slot: 0, addr: 10 }));
    assert_eq!(rt.lookup(&name("g")), Ok(Token { module: 0, slot: 1, addr: 20 }));
    assert_eq!(rt.retired_len(), 0);
    // The failed artifact's time is not recorded, so the next tick retries.
    assert!(rt.should_reload(Some(2)));
}

#[test]
fn address_list_of_wrong_length_is_a_resolution_failure() {
    let mut rt = Runtime::new();
    rt.register(&name("f"));
    rt.register(&name("g"));
    let (_, r) = reload(&mut rt, 1, vec![Some(10)]);
    assert_eq!(r, Err(HotswapError::SymbolResolutionFailure));
    assert_eq!(rt.lookup(&name("f")), Err(HotswapError::NotInitialized));
}

#[test]
fn copy_numbers_are_never_reused() {
    let mut rt = Runtime::new();
    rt.register(&name("f"));
    assert_eq!(rt.begin_load(), Ok(0));
    assert_eq!(rt.begin_load(), Ok(1));
    assert_eq!(rt.publish(1, 5, &vec![Some(1)]), Ok(()));
    assert_eq!(rt.begin_load(), Ok(2));
}

#[test]
fn name_registered_after_publish_waits_for_next_cycle() {
    let mut rt = Runtime::new();
    rt.register(&name("f"));
    reload(&mut rt, 1, vec![Some(1)]).1.unwrap();
    assert_eq!(rt.register(&name("g")), 1);
    assert_eq!(rt.name(1), &name("g"));
    assert_eq!(rt.lookup(&name("g")), Err(HotswapError::NotInitialized));
    reload(&mut rt, 2, vec![Some(2), Some(3)]).1.unwrap();
    assert_eq!(rt.lookup(&name("g")), Ok(Token { module: 1, slot: 1, addr: 3 }));
}

#[test]
fn record_refuses_retirement_while_token_held() {
    let mut rec = RefManager::new(3);
    let t = Token { module: 3, slot: 0, addr: 9 };
    rec.add_ref(t, 1);
    assert!(!rec.is_eligible());
    assert_eq!(rec.retire(), Err(HotswapError::RetirementViolation));
}

#[test]
fn record_retires_when_unheld() {
    let mut rec = RefManager::new(4);
    let t = Token { module: 4, slot: 0, addr: 9 };
    rec.add_ref(t, 1);
    assert!(rec.release(t));
    assert!(!rec.release(t));
    assert!(rec.is_eligible());
    assert_eq!(rec.module(), 4);
    assert_eq!(rec.retire(), Ok(4));
}

#[test]
fn should_drop_trims_unheld_tail() {
    let mut rec = RefManager::new(5);
    let a = Token { module: 5, slot: 0, addr: 1 };
    let b = Token { module: 5, slot: 1, addr: 2 };
    let c = Token { module: 5, slot: 2, addr: 3 };
    rec.add_ref(a, 0);
    rec.add_ref(b, 1);
    rec.add_ref(c, 0);
    assert!(!rec.should_drop());
    assert!(rec.release(b));
    assert!(rec.should_drop());
    assert!(rec.is_eligible());
}

#[test]
fn tick_orders_first_load_then_only_on_later_times() {
    let mut rt = Runtime::new();
    rt.register(&name("f"));
    let plan = rt.tick(Some(50));
    assert!(plan.release.is_empty());
    assert_eq!(plan.load, Some(LoadOrder { number: 0, modified: 50 }));
    assert_eq!(rt.publish(0, 50, &vec![Some(1)]), Ok(()));
    assert_eq!(rt.tick(Some(50)).load, None);
    assert_eq!(rt.tick(Some(40)).load, None);
    assert_eq!(rt.tick(None).load, None);
    assert_eq!(rt.tick(Some(51)).load, Some(LoadOrder { number: 1, modified: 51 }));
}

#[test]
fn tick_after_failed_load_orders_a_new_copy() {
    let mut rt = Runtime::new();
    rt.register(&name("f"));
    assert_eq!(rt.tick(Some(5)).load, Some(LoadOrder { number: 0, modified: 5 }));
    // Loading copy 0 failed: nothing was published, the next tick retries
    // with a fresh copy number.
    assert_eq!(rt.tick(Some(5)).load, Some(LoadOrder { number: 1, modified: 5 }));
}

#[test]
fn tick_sweeps_even_without_reload() {
    let mut rt = Runtime::new();
    rt.register(&name("f"));
    reload(&mut rt, 1, vec![Some(1)]).1.unwrap();
    let t = rt.lookup(&name("f")).unwrap();
    reload(&mut rt, 2, vec![Some(2)]).1.unwrap();
    let plan = rt.tick(Some(2));
    assert!(plan.release.is_empty());
    assert_eq!(plan.load, None);
    rt.release(t);
    let plan = rt.tick(Some(2));
    assert_eq!(plan.release, vec![0]);
    assert_eq!(plan.load, None);
}

#[test]
fn is_loaded_follows_retirement() {
    let mut rt = Runtime::new();
    rt.register(&name("f"));
    reload(&mut rt, 1, vec![Some(1)]).1.unwrap();
    assert!(rt.is_loaded(0));
    reload(&mut rt, 2, vec![Some(2)]).1.unwrap();
    assert!(rt.is_loaded(0) && rt.is_loaded(1));
    assert_eq!(rt.next_number(), 2);
    rt.sweep();
    assert!(!rt.is_loaded(0));
    assert!(rt.is_loaded(1));
    assert!(rt.has_room(&name("f")));
}

#[test]
fn retained_token_stalls_retirement() {
    // Call sites must give a token back when the call returns: one that is
    // kept keeps its module loaded for good, it never gets it unloaded early.
    let mut rt = Runtime::new();
    rt.register(&name("f"));
    reload(&mut rt, 1, vec![Some(1)]).1.unwrap();
    let kept = rt.lookup(&name("f")).unwrap();
    for k in 2..10u64 {
        reload(&mut rt, k, vec![Some(k as usize)]).1.unwrap();
        assert!(!rt.sweep().contains(&0));
        assert!(rt.is_loaded(0));
    }
    assert!(rt.release(kept));
    assert_eq!(rt.sweep(), vec![0]);
}
