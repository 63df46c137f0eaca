use appkit::log_system::{console_line, log_event, LogSystem, Logging};
use appkit::property::logging_level;
use appkit::{DataBuffer, DateTime, Worker};
use std::sync::{Arc, Mutex};

struct Recorder {
    lines: Arc<Mutex<Vec<String>>>,
}

impl Logging for Recorder {
    fn log_debug(&self, thread_id: String, data: String) {
        self.lines.lock().unwrap().push(format!("DEBUG {} {}", thread_id, data));
    }
    fn log_info(&self, thread_id: String, data: String) {
        self.lines.lock().unwrap().push(format!("INFO {} {}", thread_id, data));
    }
    fn log_warn(&self, thread_id: String, data: String) {
        self.lines.lock().unwrap().push(format!("WARN {} {}", thread_id, data));
    }
    fn log_error(&self, thread_id: String, data: String) {
        self.lines.lock().unwrap().push(format!("ERROR {} {}", thread_id, data));
    }
}

fn recorder() -> (LogSystem, Arc<Mutex<Vec<String>>>) {
    let lines = Arc::new(Mutex::new(Vec::new()));
    let system = LogSystem::new(Box::new(Recorder { lines: lines.clone() }));
    (system, lines)
}

#[test]
fn log_event_layout() {
    let b = log_event(logging_level::WARN, String::from("t1"), String::from("hi"));
    assert_eq!(b.data_vec, vec![0x00u8, 0x10, b't', b'1', 0, b'h', b'i', 0]);
    assert_eq!(b.index, 0);
}

#[test]
fn route_event_reads_back_the_event() {
    let (system, _) = recorder();
    assert_eq!(system.level, logging_level::DEBUG);
    let b = log_event(logging_level::INFO, String::from("main"), String::from("started"));
    let routed = system.route_event(b);
    assert_eq!(routed, Some((logging_level::INFO, String::from("main"), String::from("started"))));
}

#[test]
fn route_event_drops_levels_above_the_system() {
    let (mut system, _) = recorder();
    system.level = logging_level::WARN;
    let b = log_event(logging_level::INFO, String::from("x"), String::from("y"));
    assert_eq!(system.route_event(b), None);
    let b = log_event(logging_level::ERROR, String::from("x"), String::from("y"));
    assert!(system.route_event(b).is_some());
}

#[test]
fn route_event_drops_unknown_levels() {
    let (system, _) = recorder();
    let b = log_event(0x0002, String::from("x"), String::from("y"));
    assert_eq!(system.route_event(b), None);
    assert_eq!(system.route_event(DataBuffer::new()), None);
}

#[test]
fn recv_event_dispatches_by_level() {
    let (mut system, lines) = recorder();
    system.recv_event(log_event(logging_level::ERROR, String::from("a"), String::from("b")));
    system.recv_event(log_event(logging_level::DEBUG, String::from("c"), String::from("d")));
    system.recv_event(log_event(logging_level::NONE, String::from("e"), String::from("f")));
    assert!(system.update());
    system.log_warn(String::from("g"), String::from("h"));
    system.log_info(String::from("i"), String::from("j"));
    system.log_debug(String::from("k"), String::from("l"));
    system.log_error(String::from("m"), String::from("n"));
    assert_eq!(
        *lines.lock().unwrap(),
        vec!["ERROR a b", "DEBUG c d", "WARN g h", "INFO i j", "DEBUG k l", "ERROR m n"]
    );
}

#[test]
fn console_line_format() {
    let t = DateTime::new(1_614_834_367);
    assert_eq!(console_line(&t, "INFO", "main", "hello"), "2021:3:4:5:6:7|INFO|main|hello");
}

#[test]
fn recv_event_filters_then_passes_info() {
    let (mut system, lines) = recorder();
    system.level = logging_level::WARN;
    let mut b = DataBuffer::new();
    b.set_u16(logging_level::INFO);
    b.set_str("t1");
    b.set_str("hi");
    let b2 = b.clone();
    system.recv_event(b);
    assert!(lines.lock().unwrap().is_empty());
    system.level = logging_level::DEBUG;
    system.recv_event(b2);
    assert_eq!(*lines.lock().unwrap(), vec!["INFO t1 hi"]);
}
