use ingest::tailer::{FileConfig, StartFrom};
use ingest::filter::{FieldRules, Syntax};
use ingest::metric::{MetricValue, Metrics, Number};
use ingest::component::{ComponentKind, Metadata};
use ingest::error::{Error, ErrorDetails, ErrorId, Span};
use ingest::event::Event;
use ingest::value::{Entry, Spanned, Table, Value, ValueKind};

fn table() -> Spanned<Table> {
    Spanned {
        value: Table {
            entries: vec![
                Entry { key: "charset".to_string(), value: Spanned { value: Value::String("UTF-8".to_string()), span: Span::new(3, 10) } },
                Entry { key: "limit".to_string(), value: Spanned { value: Value::Int(5), span: Span::new(12, 13) } },
            ],
        },
        span: Span::new(0, 20),
    }
}

#[test]
fn table_lookups() {
    let t = table();
    assert_eq!(t.get_opt_str("charset").ok().unwrap(), Some("UTF-8"));
    assert_eq!(t.get_opt_str("missing").ok().unwrap(), None);
    let e = t.get_opt_str("limit").err().unwrap();
    assert_eq!(e.id(), ErrorId::Parse);
    assert_eq!(e.details().unwrap().span, Span::new(12, 13));
    let e = t.get("missing").err().unwrap();
    assert_eq!(e.details().unwrap().span, Span::new(0, 20));
    assert_eq!(t.get("limit").ok().unwrap().value, Value::Int(5));
    assert_eq!(t.get_opt("limit").unwrap().value.kind(), ValueKind::Int);
}

#[test]
fn spanned_as_str() {
    let s = Spanned { value: Value::String("x".to_string()), span: Span::new(1, 2) };
    assert_eq!(s.as_str().ok().unwrap(), "x");
    let b = Spanned { value: Value::Bool(true), span: Span::new(4, 8) };
    let e = b.as_str().err().unwrap();
    assert_eq!(e.details().unwrap().span, Span::new(4, 8));
    assert_eq!(Spanned::unspanned(Value::Float(0)).span, Span::none());
    assert_eq!(Value::from_str("v"), Value::String("v".to_string()));
    assert_eq!(Value::Float(1).kind(), ValueKind::Float);
}

#[test]
fn error_details_and_chain() {
    let d = ErrorDetails::new("bad".to_string(), Span::new(1, 2)).at(Span::new(5, 6));
    assert_eq!(d.msg, "bad");
    assert_eq!(d.span, Span::new(5, 6));
    let e = Error::new(ErrorId::Parse, d)
        .with_context("reading config".to_string())
        .with_cause(Error::without_details(ErrorId::Io))
        .with_context("starting".to_string());
    assert_eq!(e.id(), ErrorId::Parse);
    assert_eq!(e.context_len(), 2);
    assert_eq!(e.cause().unwrap().id(), ErrorId::Io);
    assert!(e.cause().unwrap().details().is_none());
}

#[test]
fn event_fields_and_tags_are_independent() {
    let mut e = Event::new();
    e.set_field("k", Value::Int(1));
    e.set_tag("k", Value::Bool(true));
    e.set_field("k", Value::Int(2));
    assert_eq!(e.field("k"), Some(&Value::Int(2)));
    assert_eq!(e.tag("k"), Some(&Value::Bool(true)));
    assert!(!e.set_field_if_absent("k", Value::Int(3)));
    assert!(e.set_field_if_absent("j", Value::Int(4)));
    assert_eq!(e.field("k"), Some(&Value::Int(2)));
    assert_eq!(e.field("j"), Some(&Value::Int(4)));
}

#[test]
fn metadata_holds_name_and_kind() {
    let m = Metadata::new("file", ComponentKind::Input);
    assert_eq!(m.name, "file");
    assert_eq!(m.kind, ComponentKind::Input);
}

#[test]
fn metrics_count_only_integer_counters() {
    let mut m = Metrics::new();
    m.set("input.file-1.out", MetricValue::Counter(Number::Int(0)));
    m.set("load", MetricValue::Gauge(Number::Int(3)));
    assert!(m.inc("input.file-1.out", 2));
    assert!(m.inc("input.file-1.out", 1));
    assert_eq!(m.get("input.file-1.out"), Some(&MetricValue::Counter(Number::Int(3))));
    assert!(!m.inc("load", 1));
    assert_eq!(m.get("load"), Some(&MetricValue::Gauge(Number::Int(3))));
    assert!(!m.inc("missing", 1));
    m.set("big", MetricValue::Counter(Number::Int(i64::MAX - 1)));
    assert!(m.inc("big", 5));
    assert_eq!(m.get("big"), Some(&MetricValue::Counter(Number::Int(i64::MAX))));
}

#[test]
fn table_remove_takes_entries_out() {
    let mut t = table();
    let v = t.remove("limit").ok().unwrap();
    assert_eq!(v.value, Value::Int(5));
    assert_eq!(t.value.entries.len(), 1);
    assert!(t.remove_opt("limit").is_none());
    let e = t.remove("limit").err().unwrap();
    assert_eq!(e.id(), ErrorId::Parse);
    assert_eq!(e.details().unwrap().span, Span::new(0, 20));
    assert!(t.remove_opt("charset").is_some());
    assert!(t.value.entries.is_empty());
}

fn text_at(s: &str, a: u32, b: u32) -> Spanned<Value> {
    Spanned { value: Value::String(s.to_string()), span: Span::new(a, b) }
}

#[test]
fn frame_options_errors_carry_spans() {
    use_frame_options();
}

fn use_frame_options() {
    let any = text_at("any", 1, 2);
    let bad_line = text_at("windows", 3, 4);
    let string = text_at("~", 5, 6);
    let on = text_at("(", 7, 8);
    let to = text_at("sideways", 9, 10);
    let next = text_at("next", 11, 12);
    let number = Spanned { value: Value::Int(1), span: Span::new(13, 14) };
    let span_of = |r: Result<ingest::frame::FrameDecoder, Error>| r.err().unwrap().details().unwrap().span;
    assert_eq!(span_of(ingest::frame::FrameDecoder::from_options(Some(&string), Some(&any), None)), Span::new(1, 2));
    assert_eq!(span_of(ingest::frame::FrameDecoder::from_options(None, Some(&bad_line), None)), Span::new(3, 4));
    assert_eq!(span_of(ingest::frame::FrameDecoder::from_options(Some(&number), None, None)), Span::new(13, 14));
    assert_eq!(span_of(ingest::frame::FrameDecoder::from_options(None, None, Some((&on, &to)))), Span::new(9, 10));
    assert_eq!(span_of(ingest::frame::FrameDecoder::from_options(None, None, Some((&on, &next)))), Span::new(7, 8));
    assert!(ingest::frame::FrameDecoder::from_options(Some(&string), None, None).is_ok());
}

#[test]
fn file_options_errors_carry_spans() {
    let table_span = Span::new(0, 50);
    let e = FileConfig::from_options(None, None, table_span).err().unwrap();
    assert_eq!(e.details().unwrap().span, table_span);
    let paths = vec![text_at("/a/*.log", 1, 9), Spanned { value: Value::Bool(true), span: Span::new(10, 14) }];
    let e = FileConfig::from_options(Some(&paths), None, table_span).err().unwrap();
    assert_eq!(e.details().unwrap().span, Span::new(10, 14));
    let paths = vec![text_at("/a/*.log", 1, 9)];
    let e = FileConfig::from_options(Some(&paths), Some(&text_at("middle", 20, 28)), table_span).err().unwrap();
    assert_eq!(e.details().unwrap().span, Span::new(20, 28));
    let c = FileConfig::from_options(Some(&paths), Some(&text_at("end", 20, 25)), table_span).ok().unwrap();
    assert_eq!(c.path_patterns, vec!["/a/*.log".to_string()]);
    assert_eq!(c.start_from, StartFrom::End);
}

#[test]
fn capture_rule_errors_carry_spans() {
    let pats = vec![text_at("(?P<a>x)", 0, 8), text_at("(", 9, 10)];
    let e = FieldRules::from_options("message", &pats, Syntax::Rust).err().unwrap();
    assert_eq!(e.details().unwrap().span, Span::new(9, 10));
    let pats = vec![text_at("(?<a>x)", 0, 7)];
    assert!(FieldRules::from_options("message", &pats, Syntax::Oniguruma).is_ok());
}
