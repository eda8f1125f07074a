use rustbook::counter::{zip_product_sum, Counter};
use rustbook::fibonacci::fibonacci;
use rustbook::guessing::{judge, parse_guess, secret_number, Verdict};
use rustbook::http::{response, route};
use rustbook::rectangles::Rectangle;
use rustbook::threadpool::worker_ids;
use rustbook::cacher::Cacher;
use rustbook::workout::{generate_workout, WorkoutPlan};
use std::cell::Cell;

#[test]
fn fibonacci_values() {
    let expected = [0u32, 1, 1, 2, 3, 5, 8, 13, 21, 34, 55];
    for (n, want) in expected.iter().enumerate() {
        assert_eq!(fibonacci(n as u32), *want);
    }
    assert_eq!(fibonacci(30), 832040);
}

#[test]
fn rectangle_area() {
    let rectangle = Rectangle { width: 30, height: 50 };
    assert_eq!(rectangle.area(), 1500);
    assert_eq!(Rectangle { width: 0, height: 7 }.area(), 0);
    assert_eq!(Rectangle { width: 65536, height: 65535 }.area(), 4294901760);
}

#[test]
fn counter_counts_to_five() {
    let mut counter = Counter::new();
    let mut seen = Vec::new();
    while let Some(i) = counter.next() {
        seen.push(i);
    }
    assert_eq!(seen, vec![1, 2, 3, 4, 5]);
    assert_eq!(counter.next(), None);
}

#[test]
fn counter_pipeline() {
    assert_eq!(zip_product_sum(), 18);
}

#[test]
fn cacher_runs_calculation_once() {
    let calls = Cell::new(0u32);
    let mut cacher = Cacher::new(|x: u32| {
        calls.set(calls.get() + 1);
        x * 2
    });
    assert_eq!(cacher.value(3), 6);
    assert_eq!(cacher.value(10), 6);
    assert_eq!(calls.get(), 1);
}

#[test]
fn workout_plans() {
    assert_eq!(
        generate_workout(7, 42, &mut Cacher::new(|n| n)),
        WorkoutPlan::Exercises { push_ups: 7, sit_ups: 7 }
    );
    assert_eq!(generate_workout(30, 3, &mut Cacher::new(|n| n)), WorkoutPlan::TakeBreak);
    assert_eq!(generate_workout(30, 4, &mut Cacher::new(|n| n + 1)), WorkoutPlan::Run { minutes: 31 });
    assert_eq!(
        generate_workout(24, 3, &mut Cacher::new(|n| n * 3)),
        WorkoutPlan::Exercises { push_ups: 72, sit_ups: 72 }
    );
}

#[test]
fn workout_calls_calculation_at_most_once() {
    let calls = Cell::new(0u32);
    let mut cache = Cacher::new(|n| {
        calls.set(calls.get() + 1);
        n + 100
    });
    let plan = generate_workout(5, 0, &mut cache);
    assert_eq!(plan, WorkoutPlan::Exercises { push_ups: 105, sit_ups: 105 });
    assert_eq!(calls.get(), 1);
    let calls = Cell::new(0u32);
    let mut cache = Cacher::new(|n| {
        calls.set(calls.get() + 1);
        n
    });
    let plan = generate_workout(50, 3, &mut cache);
    assert_eq!(plan, WorkoutPlan::TakeBreak);
    assert_eq!(calls.get(), 0);
    let plan = generate_workout(50, 4, &mut cache);
    assert_eq!(plan, WorkoutPlan::Run { minutes: 50 });
    assert_eq!(calls.get(), 1);
    // the cached answer is reused, whatever the new intensity
    let plan = generate_workout(3, 4, &mut cache);
    assert_eq!(plan, WorkoutPlan::Exercises { push_ups: 50, sit_ups: 50 });
    assert_eq!(calls.get(), 1);
}

#[test]
fn guesses_parse_like_str_parse() {
    for line in ["42\n", "  7 ", "+13\r\n", "007", "\u{3000}9\u{a0}", "4294967295", "0"] {
        assert_eq!(parse_guess(line), line.trim().parse::<u32>().ok(), "line {:?}", line);
    }
    for line in ["", "\n", "+", "-3", "4294967296", "12a", "1 2", "٣", "++1"] {
        assert_eq!(parse_guess(line), None, "line {:?}", line);
        assert_eq!(line.trim().parse::<u32>().ok(), None);
    }
    assert_eq!(parse_guess("  50\n"), Some(50));
}

#[test]
fn guesses_are_judged() {
    assert_eq!(judge(10, 50), Verdict::TooLow);
    assert_eq!(judge(60, 50), Verdict::TooHigh);
    assert_eq!(judge(50, 50), Verdict::Correct);
}

#[test]
fn secret_numbers_stay_in_range_and_vary() {
    let mut seen = std::collections::HashSet::new();
    for _ in 0..500 {
        let n = secret_number();
        assert!((1..=100).contains(&n));
        seen.insert(n);
    }
    assert!(seen.len() > 1);
}

#[test]
fn requests_are_routed() {
    let mut buffer = [0u8; 1024];
    buffer[..16].copy_from_slice(b"GET / HTTP/1.1\r\n");
    let r = route(&buffer);
    assert_eq!((r.status_line, r.filename, r.delay), ("HTTP/1.1 200 OK\r\n\r\n", "hello.html", false));

    let mut buffer = [0u8; 1024];
    buffer[..21].copy_from_slice(b"GET /sleep HTTP/1.1\r\n");
    let r = route(&buffer);
    assert_eq!((r.status_line, r.filename, r.delay), ("HTTP/1.1 200 OK\r\n\r\n", "hello.html", true));

    let r = route(b"GET /other HTTP/1.1\r\n");
    assert_eq!((r.status_line, r.filename, r.delay), ("HTTP/1.1 404 NOT FOUND\r\n\r\n", "404.html", false));

    let r = route(b"GET / HTTP/1.1");
    assert_eq!(r.filename, "404.html");
}

#[test]
fn responses_join_status_and_page() {
    assert_eq!(response("HTTP/1.1 200 OK\r\n\r\n", "<p>hi</p>"), "HTTP/1.1 200 OK\r\n\r\n<p>hi</p>");
    assert_eq!(response("", ""), "");
}

#[test]
fn worker_ids_count_up() {
    assert_eq!(worker_ids(1), vec![0]);
    assert_eq!(worker_ids(4), vec![0, 1, 2, 3]);
}
