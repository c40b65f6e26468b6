use counter_service::Counter;
use counter_service::bridge::counter_for_set_event;
use counter_service::bridge::poll_publish;
use counter_service::client::is_success;

#[test]
fn success_is_the_2xx_range() {
    assert!(!is_success(199));
    assert!(is_success(200));
    assert!(is_success(204));
    assert!(is_success(299));
    assert!(!is_success(300));
    assert!(!is_success(404));
    assert!(!is_success(500));
}

#[test]
fn poll_publishes_fetched_value_only() {
    assert_eq!(poll_publish(Some(Counter { number: 41 })), Some(41));
    assert_eq!(poll_publish(None), None);
}

#[test]
fn set_event_builds_the_counter_to_send() {
    assert_eq!(counter_for_set_event(-9).get(), -9);
    assert_eq!(counter_for_set_event(0).get(), 0);
}
