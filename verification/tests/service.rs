use counter_service::Counter;
use counter_service::codec::counter_from_json;
use counter_service::codec::counter_to_json;
use counter_service::service::Service;
use counter_service::service::error_response;
use counter_service::service::hello;

#[test]
fn test_hello_world() {
    let (status, body) = hello();
    assert_eq!(status, 200);
    assert_eq!(body, "Hello, world!");
}

#[test]
fn main_test_counter() {
    let mut server = Service::new();

    let (status, body) = server.get_counter();
    assert_eq!(status, 200);
    let counter = counter_from_json(&body).unwrap();
    assert_eq!(counter.get(), 0);

    let (status, body) = server.get_counter();
    assert_eq!(status, 200);
    let counter = counter_from_json(&body).unwrap();
    assert_eq!(counter.get(), 1);

    let mut counter = Counter::new();
    counter.set(100);

    let (status, _) = server.set_counter(&counter_to_json(&counter));
    assert_eq!(status, 204);

    let (status, body) = server.get_counter();
    assert_eq!(status, 200);
    let counter = counter_from_json(&body).unwrap();
    assert_eq!(counter.get(), 100);
}

#[test]
fn put_then_gets_count_up() {
    let mut server = Service::new();
    let body = b"{\"number\":100}".to_vec();
    let (status, resp) = server.set_counter(&body);
    assert_eq!(status, 204);
    assert_eq!(resp, Vec::<u8>::new());

    let (_, body) = server.get_counter();
    assert_eq!(counter_from_json(&body).unwrap().get(), 100);
    let (_, body) = server.get_counter();
    assert_eq!(counter_from_json(&body).unwrap().get(), 101);
    let (_, body) = server.get_counter();
    assert_eq!(counter_from_json(&body).unwrap().get(), 102);
}

#[test]
fn sequential_gets_cover_the_range() {
    let mut server = Service::new();
    let mut seen: Vec<i32> = Vec::new();
    for _ in 0..5 {
        let (status, body) = server.get_counter();
        assert_eq!(status, 200);
        seen.push(counter_from_json(&body).unwrap().get());
    }
    seen.sort();
    assert_eq!(seen, vec![0, 1, 2, 3, 4]);
}

#[test]
fn malformed_put_is_rejected_and_ignored() {
    let mut server = Service::new();
    let (status, resp) = server.set_counter(&b"{\"number\":oops}".to_vec());
    assert_eq!(status, 400);
    assert_eq!(resp, b"{\"error\":\"invalid counter body\"}".to_vec());

    // The stored counter did not move.
    let (_, body) = server.get_counter();
    assert_eq!(counter_from_json(&body).unwrap().get(), 0);
}

#[test]
fn out_of_range_put_is_rejected_and_ignored() {
    let mut server = Service::new();
    let (status, resp) = server.set_counter(&b"{\"number\":3000000000}".to_vec());
    assert_eq!(status, 400);
    assert_eq!(resp, b"{\"error\":\"counter out of range\"}".to_vec());

    let (_, body) = server.get_counter();
    assert_eq!(counter_from_json(&body).unwrap().get(), 0);
}

#[test]
fn internal_errors_become_500_bodies() {
    let (status, body) = error_response(&b"invalid header name".to_vec());
    assert_eq!(status, 500);
    assert_eq!(body, b"{\"error\":\"invalid header name\"}".to_vec());
}
