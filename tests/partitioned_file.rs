use file_sinks::encoding::BasicEncoding;
use file_sinks::event::LogEvent;
use file_sinks::file::{IoPoll, OpenPoll, Readiness, SinkError};
use file_sinks::partitioned_file::{
    default_close_timeout_secs, PartitionedFileSink, PartitionedFileSinkConfig, RouterSend,
};
use file_sinks::template::Template;
use std::collections::BTreeMap;

fn event(pairs: &[(&str, &str)]) -> LogEvent {
    LogEvent {
        fields: pairs
            .iter()
            .map(|(k, v)| (k.as_bytes().to_vec(), v.as_bytes().to_vec()))
            .collect(),
    }
}

/// Routes events through the router, treating every file as open at once, and
/// returns what each path received.
fn route_all(router: &mut PartitionedFileSink, events: Vec<LogEvent>) -> BTreeMap<String, Vec<String>> {
    let mut files: BTreeMap<String, Vec<u8>> = BTreeMap::new();
    for e in events {
        match router.start_send(e, OpenPoll::Opened).unwrap() {
            RouterSend::Accepted { key, line } => files
                .entry(String::from_utf8(key).unwrap())
                .or_default()
                .extend_from_slice(&line),
            RouterSend::Dropped => {}
            RouterSend::NotReady(_) => panic!("file reported open"),
        }
    }
    files
        .into_iter()
        .map(|(k, v)| {
            let lines = String::from_utf8(v).unwrap().lines().map(|s| s.to_owned()).collect();
            (k, lines)
        })
        .collect()
}

#[test]
fn events_go_to_the_file_of_their_key() {
    let mut router =
        PartitionedFileSink::new(Template::new(b"{{service}}.log".to_vec()), Some(BasicEncoding::Text));
    let files = route_all(
        &mut router,
        vec![
            event(&[("service", "a"), ("message", "x")]),
            event(&[("service", "b"), ("message", "y")]),
            event(&[("service", "a"), ("message", "z")]),
        ],
    );
    assert_eq!(files.len(), 2);
    assert_eq!(files["a.log"], vec!["x".to_string(), "z".to_string()]);
    assert_eq!(files["b.log"], vec!["y".to_string()]);
    assert_eq!(router.partition_keys(), vec![b"a.log".to_vec(), b"b.log".to_vec()]);
}

#[test]
fn unresolved_event_is_dropped_and_later_ones_pass() {
    let mut router = PartitionedFileSink::new(Template::new(b"{{service}}.log".to_vec()), None);
    match router.start_send(event(&[("message", "lost")]), OpenPoll::Opened) {
        Ok(RouterSend::Dropped) => {}
        other => panic!("unexpected {:?}", other),
    }
    assert!(router.partition_keys().is_empty());
    let files = route_all(&mut router, vec![event(&[("service", "a"), ("message", "kept")])]);
    assert_eq!(files.len(), 1);
    assert_eq!(files["a.log"], vec!["kept".to_string()]);
}

#[test]
fn new_partition_holds_back_until_open() {
    let mut router = PartitionedFileSink::new(Template::new(b"/var/{{app}}/out".to_vec()), None);
    let e = event(&[("app", "web"), ("message", "m")]);
    match router.start_send(e.clone(), OpenPoll::Pending) {
        Ok(RouterSend::NotReady(back)) => assert_eq!(back, e),
        other => panic!("unexpected {:?}", other),
    }
    assert_eq!(router.partition_keys(), vec![b"/var/web/out".to_vec()]);
    match router.start_send(e, OpenPoll::Opened) {
        Ok(RouterSend::Accepted { key, line }) => {
            assert_eq!(key, b"/var/web/out".to_vec());
            assert_eq!(line, b"m\n".to_vec());
        }
        other => panic!("unexpected {:?}", other),
    }
}

#[test]
fn failed_partition_is_isolated() {
    let mut router = PartitionedFileSink::new(Template::new(b"{{k}}".to_vec()), None);
    route_all(&mut router, vec![event(&[("k", "a"), ("message", "1")]), event(&[("k", "b"), ("message", "2")])]);
    let r = router.poll_complete(vec![
        (OpenPoll::Opened, IoPoll::Failed("broken".to_string())),
        (OpenPoll::Opened, IoPoll::Done),
    ]);
    assert_eq!(r, Readiness::Ready);
    assert_eq!(router.partition_keys().len(), 2);
    match router.start_send(event(&[("k", "a"), ("message", "3")]), OpenPoll::Opened) {
        Err(SinkError::Disconnected) => {}
        other => panic!("unexpected {:?}", other),
    }
    let files = route_all(&mut router, vec![event(&[("k", "b"), ("message", "4")])]);
    assert_eq!(files["b"], vec!["4".to_string()]);
}

#[test]
fn router_close_waits_for_every_partition() {
    let mut router = PartitionedFileSink::new(Template::new(b"{{k}}".to_vec()), None);
    route_all(&mut router, vec![event(&[("k", "a")]), event(&[("k", "b")])]);
    let pending = router.close(vec![
        (OpenPoll::Opened, IoPoll::Done, IoPoll::Done),
        (OpenPoll::Opened, IoPoll::Pending, IoPoll::Done),
    ]);
    assert_eq!(pending, Readiness::NotReady);
    let done = router.close(vec![
        (OpenPoll::Opened, IoPoll::Done, IoPoll::Failed("gone".to_string())),
        (OpenPoll::Opened, IoPoll::Done, IoPoll::Done),
    ]);
    assert_eq!(done, Readiness::Ready);
}

#[test]
fn template_renders_fields() {
    let t = Template::new(b"/logs/{{host}}/{{app}}.log".to_vec());
    let e = event(&[("app", "api"), ("host", "h1")]);
    assert_eq!(t.render(&e), Ok(b"/logs/h1/api.log".to_vec()));
}

#[test]
fn template_reports_every_missing_field() {
    let t = Template::new(b"{{a}}-{{b}}-{{c}}".to_vec());
    let e = event(&[("b", "2")]);
    assert_eq!(t.render(&e), Err(vec![b"a".to_vec(), b"c".to_vec()]));
}

#[test]
fn template_without_placeholder_is_literal() {
    let t = Template::new(b"plain {x} {{}} {{y}".to_vec());
    assert_eq!(t.render(&event(&[])), Ok(b"plain {x} {{}} {{y}".to_vec()));
}

#[test]
fn first_field_of_a_name_wins() {
    let t = Template::new(b"{{k}}".to_vec());
    let e = event(&[("k", "first"), ("k", "second")]);
    assert_eq!(t.render(&e), Ok(b"first".to_vec()));
}

#[test]
fn partitioned_config_defaults() {
    assert_eq!(default_close_timeout_secs(), 60);
    let c = PartitionedFileSinkConfig::new("{{service}}.log".to_string());
    assert_eq!(c.path_template, "{{service}}.log");
    assert_eq!(c.close_timeout_secs, 60);
    assert!(c.encoding.is_none());
}
