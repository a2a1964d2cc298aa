use flowgraph::lifecycle::Core;
use flowgraph::lifecycle::Event;

#[test]
fn new_core_is_stopped() {
    let c = Core::new(4);
    assert!(!c.is_running());
    assert_eq!(c.workers(), 4);
}

#[test]
fn start_sends_once() {
    let mut c = Core::new(2);
    assert_eq!(c.start(), Some(Event::Start));
    assert!(c.is_running());
    assert_eq!(c.start(), None);
    assert!(c.is_running());
    assert_eq!(c.workers(), 2);
}

#[test]
fn stop_sends_once() {
    let mut c = Core::new(2);
    assert_eq!(c.stop(), None);
    assert!(!c.is_running());
    c.start();
    assert_eq!(c.stop(), Some(Event::Stop));
    assert!(!c.is_running());
    assert_eq!(c.stop(), None);
    assert_eq!(c.workers(), 2);
}

#[test]
fn start_after_stop_sends_again() {
    let mut c = Core::new(1);
    c.start();
    c.stop();
    assert_eq!(c.start(), Some(Event::Start));
}
