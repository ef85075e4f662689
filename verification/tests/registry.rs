use visit_registry::registry::{OrderBy, VisitRegistry};

#[test]
fn first_visit_reports_no_prior_state() {
    let mut reg = VisitRegistry::new();
    let name = String::from("alice");
    let (prev_count, prev_seen) = reg.record_visit(&name, 100);
    assert_eq!(prev_count, 0);
    assert_eq!(prev_seen, None);
    let (prev_count, prev_seen) = reg.record_visit(&name, 200);
    assert_eq!(prev_count, 1);
    assert_eq!(prev_seen, Some(100));
}

#[test]
fn kth_visit_reports_k_minus_one() {
    let mut reg = VisitRegistry::new();
    let name = String::from("carol");
    let k = 7u64;
    for step in 0..k {
        let (prev_count, _) = reg.record_visit(&name, 1000 + step);
        assert_eq!(prev_count, step);
    }
    let listed = reg.list_top(10, OrderBy::Visits);
    assert_eq!(listed.len(), 1);
    assert_eq!(listed[0].name, "carol");
    assert_eq!(listed[0].count, k);
    assert_eq!(listed[0].last_seen, 1000 + k - 1);
}

#[test]
fn clear_all_is_idempotent_and_empties_listing() {
    let mut reg = VisitRegistry::new();
    reg.record_visit(&String::from("alice"), 1);
    reg.record_visit(&String::from("bob"), 2);
    reg.clear_all();
    let after_once = reg.list_top(10, OrderBy::LastSeen);
    assert!(after_once.is_empty());
    reg.clear_all();
    let after_twice = reg.list_top(10, OrderBy::LastSeen);
    assert!(after_twice.is_empty());
    // A name seen before the clear is fresh again afterwards.
    let (prev_count, prev_seen) = reg.record_visit(&String::from("alice"), 3);
    assert_eq!(prev_count, 0);
    assert_eq!(prev_seen, None);
}

#[test]
fn hundred_visits_lose_no_update() {
    let mut reg = VisitRegistry::new();
    let name = String::from("dave");
    for step in 0..100u64 {
        reg.record_visit(&name, step);
    }
    let listed = reg.list_top(1, OrderBy::Visits);
    assert_eq!(listed.len(), 1);
    assert_eq!(listed[0].count, 100);
}

#[test]
fn list_top_orders_by_chosen_key() {
    let mut reg = VisitRegistry::new();
    let a = String::from("a");
    let b = String::from("b");
    // A ends with count 5, last seen t1 = 105; B with count 9, last seen t2 = 209.
    for step in 0..5u64 {
        reg.record_visit(&a, 101 + step);
    }
    for step in 0..9u64 {
        reg.record_visit(&b, 201 + step);
    }
    let by_visits = reg.list_top(2, OrderBy::Visits);
    assert_eq!(by_visits.len(), 2);
    assert_eq!(by_visits[0].name, "b");
    assert_eq!(by_visits[0].count, 9);
    assert_eq!(by_visits[1].name, "a");
    assert_eq!(by_visits[1].count, 5);
    let by_last_seen = reg.list_top(2, OrderBy::LastSeen);
    assert_eq!(by_last_seen.len(), 2);
    assert_eq!(by_last_seen[0].name, "b");
    assert_eq!(by_last_seen[0].last_seen, 209);
    assert_eq!(by_last_seen[1].name, "a");
    assert_eq!(by_last_seen[1].last_seen, 105);
}

#[test]
fn list_top_respects_limit_and_returns_all_when_few() {
    let mut reg = VisitRegistry::new();
    for (i, name) in ["u", "v", "w", "x", "y"].iter().enumerate() {
        reg.record_visit(&String::from(*name), i as u64);
    }
    let capped = reg.list_top(3, OrderBy::LastSeen);
    assert_eq!(capped.len(), 3);
    let all = reg.list_top(10, OrderBy::LastSeen);
    assert_eq!(all.len(), 5);
    let mut names: Vec<String> = all.iter().map(|r| r.name.clone()).collect();
    names.sort();
    assert_eq!(names, vec!["u", "v", "w", "x", "y"]);
    let none = reg.list_top(0, OrderBy::Visits);
    assert!(none.is_empty());
}

#[test]
fn scenario_alice_twice_then_bob() {
    let mut reg = VisitRegistry::new();
    let alice = String::from("alice");
    let bob = String::from("bob");
    let (prev_count, prev_seen) = reg.record_visit(&alice, 11);
    assert_eq!((prev_count, prev_seen), (0, None));
    let (prev_count, prev_seen) = reg.record_visit(&alice, 22);
    assert_eq!((prev_count, prev_seen), (1, Some(11)));
    let (prev_count, prev_seen) = reg.record_visit(&bob, 33);
    assert_eq!((prev_count, prev_seen), (0, None));
    let listed = reg.list_top(10, OrderBy::Visits);
    assert_eq!(listed.len(), 2);
    assert_eq!(listed[0].name, "alice");
    assert_eq!(listed[0].count, 2);
    assert_eq!(listed[0].last_seen, 22);
    assert_eq!(listed[1].name, "bob");
    assert_eq!(listed[1].count, 1);
    assert_eq!(listed[1].last_seen, 33);
}

#[test]
fn names_are_case_sensitive() {
    let mut reg = VisitRegistry::new();
    let lower = String::from("alice");
    let upper = String::from("Alice");
    reg.record_visit(&lower, 1);
    let (prev_count, prev_seen) = reg.record_visit(&upper, 2);
    assert_eq!(prev_count, 0);
    assert_eq!(prev_seen, None);
    let listed = reg.list_top(10, OrderBy::Visits);
    assert_eq!(listed.len(), 2);
}

#[test]
fn empty_registry_lists_nothing() {
    let reg = VisitRegistry::new();
    assert!(reg.list_top(10, OrderBy::LastSeen).is_empty());
    assert!(reg.list_top(10, OrderBy::Visits).is_empty());
}

#[test]
fn cloned_record_keeps_its_fields() {
    let mut reg = VisitRegistry::new();
    reg.record_visit(&String::from("erin"), 42);
    let listed = reg.list_top(1, OrderBy::Visits);
    let copy = listed[0].clone();
    assert_eq!(copy.name, "erin");
    assert_eq!(copy.count, 1);
    assert_eq!(copy.last_seen, 42);
}
