use backend_supervisor::log_buffer::Channel;
use backend_supervisor::supervisor::{HostSignal, ProcessHandle, Stream, Supervisor};

#[test]
fn new_supervisor_holds_nothing() {
    let supervisor = Supervisor::new();
    assert_eq!(supervisor.process(), None);
    assert!(supervisor.get_logs().is_empty());
}

#[test]
fn start_of_an_existing_executable_is_announced() {
    let mut supervisor = Supervisor::new();
    let plan = supervisor.begin_start("\"/opt/app/python-backend\"", true);
    assert!(plan.launch);
    assert_eq!(plan.events.len(), 1);
    assert_eq!(plan.events[0].channel, Channel::Info);
    assert_eq!(plan.events[0].payload, "Starting Python backend from: \"/opt/app/python-backend\"");
    let logs = supervisor.get_logs();
    assert_eq!(logs.len(), 1);
    assert_eq!(logs[0].text, "Starting Python backend from: \"/opt/app/python-backend\"");
    assert!(!logs[0].is_error);
    assert_eq!(supervisor.process(), None);
}

#[test]
fn missing_executable_is_reported_and_not_started() {
    let mut supervisor = Supervisor::new();
    let plan = supervisor.begin_start("\"./python-dist/python-backend/python-backend\"", false);
    assert!(!plan.launch);
    assert_eq!(plan.events.len(), 2);
    assert_eq!(plan.events[0].channel, Channel::Info);
    assert_eq!(plan.events[1].channel, Channel::Error);
    assert_eq!(
        plan.events[1].payload,
        "Python backend not found at: \"./python-dist/python-backend/python-backend\""
    );
    let logs = supervisor.get_logs();
    assert_eq!(logs.len(), 2);
    assert!(!logs[0].is_error);
    assert!(logs[1].is_error);
    assert_eq!(
        logs[1].text,
        "Python backend not found at: \"./python-dist/python-backend/python-backend\""
    );
    assert_eq!(supervisor.process(), None);
}

#[test]
fn started_process_is_held_and_announced() {
    let mut supervisor = Supervisor::new();
    let event = supervisor.process_started(4242);
    assert_eq!(event.channel, Channel::Info);
    assert_eq!(event.payload, "Python backend started with PID: 4242");
    assert_eq!(supervisor.process(), Some(ProcessHandle { pid: 4242 }));
    let logs = supervisor.get_logs();
    assert_eq!(logs.len(), 1);
    assert_eq!(logs[0].text, "Python backend started with PID: 4242");
    assert!(!logs[0].is_error);
}

#[test]
fn process_ids_are_written_in_decimal() {
    let cases: [(u32, &str); 7] = [
        (0, "0"),
        (7, "7"),
        (10, "10"),
        (99, "99"),
        (100, "100"),
        (1_000_000, "1000000"),
        (u32::MAX, "4294967295"),
    ];
    for (pid, digits) in cases {
        let mut supervisor = Supervisor::new();
        let event = supervisor.process_started(pid);
        assert_eq!(event.payload, format!("Python backend started with PID: {}", digits));
    }
}

#[test]
fn stdout_lines_are_ordinary_and_stderr_lines_are_errors() {
    let mut supervisor = Supervisor::new();
    let out = supervisor.output_read(Stream::Stdout, Some("ready".to_string())).unwrap();
    assert_eq!(out.channel, Channel::Info);
    assert_eq!(out.channel.name(), "python-log");
    assert_eq!(out.payload, "ready");
    let err = supervisor.output_read(Stream::Stderr, Some("warning".to_string())).unwrap();
    assert_eq!(err.channel, Channel::Error);
    assert_eq!(err.channel.name(), "python-error");
    assert_eq!(err.payload, "warning");
    let logs = supervisor.get_logs();
    assert_eq!(logs.len(), 2);
    assert_eq!((logs[0].text.as_str(), logs[0].is_error), ("ready", false));
    assert_eq!((logs[1].text.as_str(), logs[1].is_error), ("warning", true));
}

#[test]
fn failed_read_is_dropped() {
    let mut supervisor = Supervisor::new();
    supervisor.output_read(Stream::Stdout, Some("one".to_string()));
    assert!(supervisor.output_read(Stream::Stdout, None).is_none());
    assert!(supervisor.output_read(Stream::Stderr, None).is_none());
    supervisor.output_read(Stream::Stdout, Some("two".to_string()));
    let logs = supervisor.get_logs();
    assert_eq!(logs.len(), 2);
    assert_eq!(logs[0].text, "one");
    assert_eq!(logs[1].text, "two");
}

#[test]
fn interleaved_streams_keep_their_own_order() {
    let mut supervisor = Supervisor::new();
    let n = 40;
    let m = 25;
    let mut o = 0;
    let mut e = 0;
    while o < n || e < m {
        if o < n && (e >= m || (o + e) % 3 != 0) {
            supervisor.output_read(Stream::Stdout, Some(format!("out {}", o)));
            o += 1;
        } else {
            supervisor.output_read(Stream::Stderr, Some(format!("err {}", e)));
            e += 1;
        }
    }
    let logs = supervisor.get_logs();
    let outs: Vec<String> = logs.iter().filter(|l| !l.is_error).map(|l| l.text.clone()).collect();
    let errs: Vec<String> = logs.iter().filter(|l| l.is_error).map(|l| l.text.clone()).collect();
    assert_eq!(outs.len(), n);
    assert_eq!(errs.len(), m);
    for (i, text) in outs.iter().enumerate() {
        assert_eq!(text, &format!("out {}", i));
    }
    for (i, text) in errs.iter().enumerate() {
        assert_eq!(text, &format!("err {}", i));
    }
}

#[test]
fn stop_hands_out_the_process_once() {
    let mut supervisor = Supervisor::new();
    supervisor.process_started(17);
    assert_eq!(supervisor.stop(), Some(ProcessHandle { pid: 17 }));
    assert_eq!(supervisor.process(), None);
    assert_eq!(supervisor.stop(), None);
    assert_eq!(supervisor.process(), None);
    assert_eq!(supervisor.get_logs().len(), 1);
}

#[test]
fn stop_without_a_process_does_nothing() {
    let mut supervisor = Supervisor::new();
    assert_eq!(supervisor.stop(), None);
    assert_eq!(supervisor.stop(), None);
    assert!(supervisor.get_logs().is_empty());
}

#[test]
fn both_exit_signals_stop_the_backend() {
    let mut supervisor = Supervisor::new();
    supervisor.process_started(5);
    assert_eq!(supervisor.on_signal(HostSignal::Other), None);
    assert_eq!(supervisor.process(), Some(ProcessHandle { pid: 5 }));
    assert_eq!(supervisor.on_signal(HostSignal::ExitRequested), Some(ProcessHandle { pid: 5 }));
    assert_eq!(supervisor.on_signal(HostSignal::Exit), None);

    let mut supervisor = Supervisor::new();
    supervisor.process_started(6);
    assert_eq!(supervisor.on_signal(HostSignal::Exit), Some(ProcessHandle { pid: 6 }));
    assert_eq!(supervisor.on_signal(HostSignal::ExitRequested), None);
}

#[test]
fn log_is_bounded_through_the_supervisor() {
    let mut supervisor = Supervisor::new();
    supervisor.begin_start("\"x\"", true);
    supervisor.process_started(1);
    for i in 0..1000 {
        supervisor.output_read(Stream::Stdout, Some(format!("{}", i)));
    }
    let logs = supervisor.get_logs();
    assert_eq!(logs.len(), 1000);
    assert_eq!(logs[0].text, "0");
    assert_eq!(logs[999].text, "999");
}
