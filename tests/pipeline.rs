use ingest::decoder::BufDecoder;
use ingest::event::{Event, FrameEventDecoder};
use ingest::filter::{FieldRules, RegexFilter};
use ingest::frame::{Delimiter, FrameDecoder};
use ingest::graph::{lower, input_ordinal, route, switch_step, Branches, IntBranches, IntNode, Node, SwitchStep};
use ingest::retry::{RetryErrorHandler, RetryPolicy};
use ingest::signal::{Pulse, Signal};
use ingest::stream::{GzipDecoder, StreamDecoder};
use ingest::tailer::{Discovered, FileConfig, FileId, ReadPlan, StartFrom, Tailer, parse_start_position};
use ingest::value::Value;
use flate2::write::GzEncoder;
use flate2::Compression;
use std::io::Write;

fn text(e: &Event, k: &str) -> Option<String> {
    match e.field(k) {
        Some(Value::String(s)) => Some(s.clone()),
        _ => None,
    }
}

fn line_decoder(gzip: bool) -> BufDecoder {
    let stream = if gzip { StreamDecoder::Gzip(GzipDecoder::new()) } else { StreamDecoder::Plain };
    BufDecoder::new(stream, FrameEventDecoder::new(FrameDecoder::new(Delimiter::Line, None)))
}

fn id(d: u64, i: u64) -> FileId {
    FileId { device: d, inode: i }
}

#[test]
fn end_to_end_gzip_file_with_capture_filter() {
    let mut enc = GzEncoder::new(Vec::new(), Compression::default());
    enc.write_all(b"a#x\nb#y\n").unwrap();
    let z = enc.finish().unwrap();

    let mut tailer = Tailer::new();
    let added = tailer.discover(id(1, 7), "/tmp/log.txt.gz".to_string(), z.len() as u64, StartFrom::Beginning, line_decoder(true));
    assert_eq!(added, Discovered::Added(0));
    assert_eq!(tailer.begin(), Some(0));
    let plan = tailer.plan_read(0, 1 << 16);
    assert_eq!(plan, ReadPlan::Read { offset: 0, max: z.len() });
    assert_eq!(tailer.feed(0, &z), z.len());
    tailer.advance(0, z.len());

    let rules = vec![FieldRules::parse("message", &vec!["(?P<controller>[^#]+)#(?P<action>\\w+)".to_string()]).ok().unwrap()];
    let filter = RegexFilter::new(rules);
    let mut events = tailer.decode(0).ok().unwrap();
    assert_eq!(events.len(), 2);
    assert!(tailer.decode(0).ok().unwrap().is_empty());
    for e in events.iter_mut() {
        filter.filter(e);
    }
    let got: Vec<(Option<String>, Option<String>, Option<String>, Option<String>)> = events
        .iter()
        .map(|e| (text(e, "path"), text(e, "message"), text(e, "controller"), text(e, "action")))
        .collect();
    let p = Some("/tmp/log.txt.gz".to_string());
    assert_eq!(got, vec![
        (p.clone(), Some("a#x".to_string()), Some("a".to_string()), Some("x".to_string())),
        (p.clone(), Some("b#y".to_string()), Some("b".to_string()), Some("y".to_string())),
    ]);
}

#[test]
fn capture_filter_does_not_overwrite() {
    let rules = vec![FieldRules::parse("message", &vec!["(?P<level>[A-Z]+) (?P<rest>.*)".to_string(), "(?P<level>\\w+)".to_string()]).ok().unwrap()];
    let filter = RegexFilter::new(rules);
    let mut e = Event::new();
    e.set_field("message", Value::String("WARN disk full".to_string()));
    e.set_field("rest", Value::String("kept".to_string()));
    filter.filter(&mut e);
    assert_eq!(text(&e, "level"), Some("WARN".to_string()));
    assert_eq!(text(&e, "rest"), Some("kept".to_string()));
    let mut other = Event::new();
    other.set_field("message", Value::Int(3));
    filter.filter(&mut other);
    assert!(other.field("level").is_none());
    assert!(FieldRules::parse("message", &vec!["(".to_string()]).is_err());
}

#[test]
fn tailer_rename_keeps_index() {
    let mut t = Tailer::new();
    assert_eq!(t.discover(id(1, 1), "a.log".to_string(), 10, StartFrom::Beginning, line_decoder(false)), Discovered::Added(0));
    assert_eq!(t.discover(id(1, 2), "b.log".to_string(), 5, StartFrom::End, line_decoder(false)), Discovered::Added(1));
    assert_eq!(t.discover(id(1, 1), "a.log.1".to_string(), 12, StartFrom::Beginning, line_decoder(false)), Discovered::Known(0));
    assert_eq!(t.len(), 2);
    assert_eq!(t.path(0), "a.log.1");
    assert_eq!(t.path(1), "b.log");
    assert_eq!(t.index_of(id(1, 2)), Some(1));
    assert_eq!(t.index_of(id(2, 1)), None);
}

#[test]
fn tailer_round_robin_and_truncation() {
    let mut t = Tailer::new();
    assert_eq!(t.begin(), None);
    t.discover(id(1, 1), "a".to_string(), 4, StartFrom::Beginning, line_decoder(false));
    t.discover(id(1, 2), "b".to_string(), 9, StartFrom::End, line_decoder(false));
    assert_eq!(t.begin(), Some(0));
    assert_eq!(t.plan_read(0, 3), ReadPlan::Read { offset: 0, max: 3 });
    t.advance(0, 3);
    assert_eq!(t.plan_read(0, 100), ReadPlan::Read { offset: 3, max: 1 });
    t.advance(0, 1);
    assert_eq!(t.plan_read(0, 100), ReadPlan::Skip { pulse: true });
    assert_eq!(t.cur(), 1);
    assert_eq!(t.begin(), Some(1));
    assert_eq!(t.plan_read(1, 100), ReadPlan::Skip { pulse: false });
    assert_eq!(t.begin(), Some(0));
    t.set_len(0, 2);
    assert_eq!(t.plan_read(0, 100), ReadPlan::Read { offset: 0, max: 2 });
    assert!(t.next_file());
    assert!(!t.next_file());
    assert!(!t.next_file());
}

#[test]
fn file_config_parsing() {
    assert!(FileConfig::parse(None, None).is_err());
    let c = FileConfig::parse(Some(vec!["/var/log/*.log".to_string()]), None).ok().unwrap();
    assert_eq!(c.start_from, StartFrom::Beginning);
    assert_eq!(c.path_patterns, vec!["/var/log/*.log".to_string()]);
    assert_eq!(parse_start_position(Some("end")).ok(), Some(StartFrom::End));
    assert!(parse_start_position(Some("middle")).is_err());
}

fn group_ids(n: &IntNode<&'static str>, out: &mut Vec<usize>, filters: &mut Vec<usize>) {
    match n {
        IntNode::Filters(ids, next) => {
            filters.extend(ids.iter().cloned());
            group_ids(next, out, filters);
        }
        IntNode::Switch(b) => branch_ids(b, out, filters),
        IntNode::OutputGroup(g) => out.push(*g),
    }
}

fn branch_ids(b: &IntBranches<&'static str>, out: &mut Vec<usize>, filters: &mut Vec<usize>) {
    if let IntBranches::Branch(_, n, rest) = b {
        group_ids(n, out, filters);
        branch_ids(rest, out, filters);
    }
}

#[test]
fn lowering_numbers_filters_and_groups() {
    let graph: Node<char, &'static str, u8> = Node::Filters(
        vec!['a', 'b'],
        Box::new(Node::Switch(Branches::Branch(
            "first",
            Box::new(Node::Filters(vec!['c'], Box::new(Node::Outputs(vec![1, 2])))),
            Box::new(Branches::Branch("second", Box::new(Node::Outputs(vec![3])), Box::new(Branches::End))),
        ))),
    );
    let mut filters = Vec::new();
    let mut groups = Vec::new();
    let lowered = lower(graph, &mut filters, &mut groups);
    assert_eq!(filters, vec!['a', 'b', 'c']);
    assert_eq!(groups, vec![vec![1, 2], vec![3]]);
    let mut gs = Vec::new();
    let mut fs = Vec::new();
    group_ids(&lowered, &mut gs, &mut fs);
    assert_eq!(fs, vec![0, 1, 2]);
    assert_eq!(gs, vec![0, 1]);
}

#[test]
fn switch_routes_first_match_and_drops_on_error() {
    assert_eq!(route(&vec![Some(false), Some(true), Some(true)]), Some(1));
    assert_eq!(route(&vec![Some(false), None, Some(true)]), None);
    assert_eq!(route(&vec![Some(false), Some(false)]), None);
    assert_eq!(route(&vec![]), None);
    assert_eq!(switch_step(0, 2, Some(false)), SwitchStep::Test(1));
    assert_eq!(switch_step(1, 2, Some(false)), SwitchStep::Drop);
    assert_eq!(switch_step(1, 2, Some(true)), SwitchStep::Route(1));
}

#[test]
fn input_ids_count_same_names() {
    let names = vec!["file".to_string(), "tcp".to_string(), "file".to_string()];
    assert_eq!(input_ordinal(&names, "file"), 3);
    assert_eq!(input_ordinal(&names, "udp"), 1);
}

#[test]
fn retry_doubles_up_to_cap() {
    let mut h = RetryErrorHandler::unlimited("input".to_string(), "starting input".to_string());
    let delays: Vec<RetryPolicy> = (0..8).map(|_| h.handle()).collect();
    let expected: Vec<RetryPolicy> = [1000, 2000, 4000, 8000, 16000, 32000, 60000, 60000]
        .iter()
        .map(|d| RetryPolicy::WaitRetry(*d))
        .collect();
    assert_eq!(delays, expected);
    assert_eq!(h.attempt, 8);
}

#[test]
fn retry_forwards_after_max_attempts() {
    let mut h = RetryErrorHandler::new(Some(2), 100, 1000, "c".to_string(), "a".to_string());
    assert_eq!(h.handle(), RetryPolicy::WaitRetry(100));
    assert_eq!(h.handle(), RetryPolicy::WaitRetry(200));
    assert_eq!(h.handle(), RetryPolicy::ForwardError);
    assert_eq!(h.handle(), RetryPolicy::ForwardError);
}

#[test]
fn pulse_coalesces_and_signal_latches() {
    let mut p = Pulse::new();
    assert!(!p.take());
    p.signal();
    p.signal();
    assert!(p.is_signalled());
    assert!(p.take());
    assert!(!p.take());

    let mut s = Signal::new();
    assert!(!s.is_signalled());
    assert!(s.signal());
    assert!(!s.signal());
    assert!(s.is_signalled());
}

#[test]
fn grok_rules_use_oniguruma_syntax() {
    let rules = vec![FieldRules::parse_grok("message", &vec![r"(?<controller>[^#]+)#(?<action>\w+)".to_string()]).ok().unwrap()];
    let filter = RegexFilter::new(rules);
    let mut e = Event::new();
    e.set_field("message", Value::String("a#x".to_string()));
    filter.filter(&mut e);
    assert_eq!(text(&e, "controller"), Some("a".to_string()));
    assert_eq!(text(&e, "action"), Some("x".to_string()));
    let mut miss = Event::new();
    miss.set_field("message", Value::String("no separator".to_string()));
    filter.filter(&mut miss);
    assert!(miss.field("controller").is_none());
    assert!(FieldRules::parse_grok("message", &vec!["(?<x".to_string()]).is_err());
}

fn filtered_messages(workers: usize, lines: &[&str]) -> Vec<(String, Option<String>, Option<String>)> {
    let instances: Vec<RegexFilter> = (0..workers)
        .map(|_| RegexFilter::new(vec![FieldRules::parse_grok("message", &vec![r"(?<controller>[^#]+)#(?<action>\w+)".to_string()]).ok().unwrap()]))
        .collect();
    let mut out = Vec::new();
    for (i, line) in lines.iter().enumerate() {
        let mut e = Event::new();
        e.set_field("message", Value::String(line.to_string()));
        instances[(i * 7 + 3) % workers].filter(&mut e);
        out.push((text(&e, "message").unwrap(), text(&e, "controller"), text(&e, "action")));
    }
    out.sort();
    out
}

#[test]
fn worker_count_does_not_change_outputs() {
    let lines = ["a#x", "b#y", "plain", "c#z", "a#x", "d#", "#e"];
    let one = filtered_messages(1, &lines);
    for k in 2..5 {
        assert_eq!(filtered_messages(k, &lines), one);
    }
}
