use mosim::scalar::Scalar;
use mosim::timer::{EventType, Timer};

#[derive(Debug, Clone, Copy, PartialEq)]
struct F(f64);

impl Scalar for F {
    fn is_less(self, rhs: Self) -> bool {
        self.0 < rhs.0
    }
    fn is_equal(self, rhs: Self) -> bool {
        self.0 == rhs.0
    }
    fn plus(self, rhs: Self) -> Self {
        F(self.0 + rhs.0)
    }
    fn minus(self, rhs: Self) -> Self {
        F(self.0 - rhs.0)
    }
    fn times(self, rhs: Self) -> Self {
        F(self.0 * rhs.0)
    }
    fn over(self, rhs: Self) -> Self {
        F(self.0 / rhs.0)
    }
    fn of_int(value: i64) -> Self {
        F(value as f64)
    }
    fn trunc(self) -> i64 {
        self.0 as i64
    }
    fn round(self) -> i64 {
        self.0.round() as i64
    }
    fn is_finite(self) -> bool {
        self.0.is_finite()
    }
    fn power(self, exponent: Self) -> Self {
        F(self.0.powf(exponent.0))
    }
    fn power_int(self, exponent: i32) -> Self {
        F(self.0.powi(exponent))
    }
    fn greatest() -> Self {
        F(f64::MAX)
    }
    fn read(text: &str) -> Option<Self> {
        text.parse().ok().map(F)
    }
}

#[test]
fn test_add_and_get_event() {
    let mut timer = Timer::new();
    timer.add_event(F(10.0), EventType::Arrive, 1);
    timer.add_event(F(5.0), EventType::Complete, 2);

    let event = timer.get_next_event().unwrap();
    assert_eq!(event.0, F(5.0));
    assert_eq!(event.1, EventType::Complete);
    assert_eq!(event.2, 2);
}

#[test]
fn test_same_time_ordering() {
    let mut timer = Timer::new();
    timer.add_event(F(10.0), EventType::Arrive, 1);
    timer.add_event(F(10.0), EventType::Complete, 2);
    timer.add_event(F(10.0), EventType::Start, 3);

    let e1 = timer.get_next_event().unwrap();
    assert_eq!(e1.1, EventType::Complete);
    let e2 = timer.get_next_event().unwrap();
    assert_eq!(e2.1, EventType::Start);
    let e3 = timer.get_next_event().unwrap();
    assert_eq!(e3.1, EventType::Arrive);
}

#[test]
fn test_update_job_time() {
    let mut timer = Timer::new();
    timer.add_event(F(10.0), EventType::Arrive, 1);
    timer.add_event(F(20.0), EventType::Arrive, 2);

    timer.update_job_time(2, F(5.0));
    let event = timer.get_next_event().unwrap();
    assert_eq!(event.2, 2);
    assert_eq!(event.0, F(5.0));
}

#[test]
fn test_remove_job() {
    let mut timer = Timer::new();
    timer.add_event(F(10.0), EventType::Arrive, 1);
    timer.add_event(F(20.0), EventType::Complete, 2);
    timer.add_event(F(15.0), EventType::Start, 3);

    timer.remove_job(1);
    assert_eq!(timer.len(), 2);

    let event = timer.get_next_event().unwrap();
    assert_eq!(event.2, 3);
}

#[test]
fn test_peek_event_types() {
    let mut timer = Timer::new();
    timer.add_event(F(10.0), EventType::Arrive, 1);
    timer.add_event(F(5.0), EventType::Start, 2);
    timer.add_event(F(15.0), EventType::Complete, 3);

    let arrive = timer.peek_next_arrive_event().unwrap();
    assert_eq!(arrive.2, 1);

    let start = timer.peek_next_start_event().unwrap();
    assert_eq!(start.2, 2);

    let complete = timer.peek_next_complete_event().unwrap();
    assert_eq!(complete.2, 3);
}

#[test]
fn test_arrival_queue() {
    let mut timer = Timer::<F>::new();
    timer.add_arrival(1);
    timer.add_arrival(2);
    timer.add_arrival(3);

    assert!(timer.has_arrivals());
    assert_eq!(timer.get_next_arrival(), Some(1));
    assert_eq!(timer.get_next_arrival(), Some(2));
    assert_eq!(timer.get_next_arrival(), Some(3));
    assert!(!timer.has_arrivals());
    assert_eq!(timer.get_next_arrival(), None);
}

#[test]
fn test_empty_queue() {
    let mut timer = Timer::<F>::new();
    assert!(timer.is_empty());
    assert_eq!(timer.get_next_event(), None);
    assert_eq!(timer.peek_next_event(), None);
}

#[test]
fn test_peek_external_state_change() {
    let mut timer = Timer::new();
    timer.add_event(F(10.0), EventType::IterCompEnd, 1);
    timer.add_event(F(15.0), EventType::Arrive, 2);
    timer.add_event(F(20.0), EventType::IterCommEnd, 3);

    let ext = timer.peek_next_external_state_change_event().unwrap();
    assert_eq!(ext.2, 2);
    assert_eq!(ext.1, EventType::Arrive);
}

#[test]
fn test_many_events_ordering() {
    let mut timer = Timer::new();
    for i in (0..100).rev() {
        timer.add_event(F(i as f64), EventType::Arrive, i);
    }
    let mut prev_time = -1.0;
    for _ in 0..100 {
        let (time, _, _) = timer.get_next_event().unwrap();
        assert!(time.0 > prev_time);
        prev_time = time.0;
    }
}

#[test]
fn a_queue_knows_which_jobs_have_events() {
    let mut timer = Timer::new();
    timer.add_event(F(1.0), EventType::IterCommEnd, 4);
    timer.add_event(F(2.0), EventType::IterCompEnd, 5);
    assert!(timer.contains_job(4));
    assert!(!timer.contains_job(6));
    assert_eq!(timer.peek_next_iter_comm_end_event(), Some((F(1.0), EventType::IterCommEnd, 4)));
    assert_eq!(timer.peek_next_iter_comp_end_event(), Some((F(2.0), EventType::IterCompEnd, 5)));
    assert_eq!(timer.peek_next_complete_event(), None);
    assert_eq!(timer.peek_next_external_state_change_event(), None);
    assert_eq!(timer.peek_next_event(), Some((F(1.0), EventType::IterCommEnd, 4)));
    timer.remove_job(4);
    assert!(!timer.contains_job(4));
    assert_eq!(timer.len(), 1);
}

#[test]
fn arrivals_keep_their_order_when_more_are_entered() {
    let mut timer = Timer::<F>::new();
    timer.add_arrival(7);
    timer.add_arrival(3);
    assert_eq!(timer.get_next_arrival(), Some(7));
    timer.add_arrival(9);
    assert_eq!(timer.get_next_arrival(), Some(3));
    assert_eq!(timer.get_next_arrival(), Some(9));
}

#[test]
fn the_event_that_is_shown_is_taken_out() {
    let mut timer = Timer::new();
    for id in 0..20 {
        timer.add_event(F((id % 3) as f64), EventType::Start, id);
    }
    while !timer.is_empty() {
        let shown = timer.peek_next_event();
        assert_eq!(timer.peek_next_event(), shown);
        assert_eq!(timer.get_next_event(), shown);
    }
    assert_eq!(timer.peek_next_event(), None);
}
