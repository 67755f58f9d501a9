//! Failing chosen requests.

use std::time::Duration;

use fragment_tree::failpoint::{FailOn, FailWhen, Failpoint, FailpointController};

fn armed(on: FailOn, when: FailWhen, path: &str, nth: usize) -> FailpointController {
    let mut controller = FailpointController::default();
    controller.arm(Failpoint {
        on,
        when,
        path_contains: path.to_string(),
        nth,
    });
    controller
}

#[test]
fn the_nth_matching_request_fails_once() {
    let mut controller = armed(FailOn::Put, FailWhen::After, "_bt/node", 2);
    let node = "t/_bt/node/a".to_string();
    let leaf = "t/_bt/leaf/a".to_string();
    assert_eq!(controller.check(FailOn::Put, &leaf, false), None);
    assert_eq!(controller.check(FailOn::Get, &node, false), None);
    assert_eq!(controller.check(FailOn::Put, &node, false), None);
    assert!(!controller.tripped());
    assert_eq!(
        controller.check(FailOn::CreateOnly, &node, true),
        Some(FailWhen::After)
    );
    assert!(controller.tripped());
    assert_eq!(controller.check(FailOn::Put, &node, false), None);
    controller.disarm();
    assert!(controller.tripped());
    assert_eq!(controller.check(FailOn::Put, &node, false), None);
}

#[test]
fn classes_match_as_they_are_named() {
    let path = "x".to_string();
    let mut create = armed(FailOn::CreateOnly, FailWhen::Before, "", 1);
    assert_eq!(create.check(FailOn::Put, &path, false), None);
    assert_eq!(create.check(FailOn::CreateOnly, &path, false), None);
    assert_eq!(
        create.check(FailOn::CreateOnly, &path, true),
        Some(FailWhen::Before)
    );
    let mut delete = armed(FailOn::Delete, FailWhen::Before, "", 1);
    assert_eq!(delete.check(FailOn::Get, &path, false), None);
    assert_eq!(
        delete.check(FailOn::Delete, &path, false),
        Some(FailWhen::Before)
    );
    let mut never = armed(FailOn::Get, FailWhen::Before, "", 0);
    for _ in 0..5 {
        assert_eq!(never.check(FailOn::Get, &path, false), None);
    }
}

#[test]
fn arming_again_starts_over() {
    let path = "abc".to_string();
    let mut controller = armed(FailOn::Get, FailWhen::Before, "bc", 1);
    assert_eq!(
        controller.check(FailOn::Get, &path, false),
        Some(FailWhen::Before)
    );
    controller.arm(Failpoint {
        on: FailOn::Get,
        when: FailWhen::Before,
        path_contains: "abcd".to_string(),
        nth: 1,
    });
    assert!(!controller.tripped());
    assert_eq!(controller.check(FailOn::Get, &path, false), None);
}

#[test]
fn delays_are_kept() {
    let mut controller = FailpointController::default();
    assert_eq!(controller.get_latency(), None);
    controller.set_get_latency(Duration::from_millis(5));
    assert_eq!(controller.get_latency(), Some(Duration::from_millis(5)));
}
