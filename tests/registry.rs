use static_metrics::{decimal_text, Counter, Encoder, Metric, MetricDesc, RegisterError, Registry, TextEncoder};

#[derive(Debug, PartialEq)]
enum Seen {
    Desc(String, String, Option<String>, Vec<String>),
    Bytes(Vec<u8>),
}

struct Recorder {
    seen: Vec<Seen>,
}

impl Encoder for Recorder {
    fn write_desc(&mut self, desc: &MetricDesc) {
        self.seen.push(Seen::Desc(
            desc.name.to_string(),
            desc.help.to_string(),
            desc.unit.map(|u| u.to_string()),
            desc.labels.iter().map(|l| l.to_string()).collect(),
        ));
    }

    fn write(&mut self, bytes: &[u8]) {
        self.seen.push(Seen::Bytes(bytes.to_vec()));
    }
}

fn names(seen: &[Seen]) -> Vec<String> {
    seen.iter()
        .filter_map(|s| match s {
            Seen::Desc(n, _, _, _) => Some(n.clone()),
            Seen::Bytes(_) => None,
        })
        .collect()
}

struct MyEncoder;

impl Encoder for MyEncoder {
    fn write_desc(&mut self, desc: &MetricDesc) {
        assert_eq!(desc.name, "some-metric");
        assert_eq!(desc.help, "Some metric");
        assert!(desc.unit.is_none());
        assert_eq!(desc.labels, ["some-label"]);
    }

    fn write(&mut self, bytes: &[u8]) {
        assert_eq!(bytes, b"1");
    }
}

#[test]
fn registration() {
    let metric = Counter::new();
    let labels = ["some-label"];
    let mut descs = vec![MetricDesc::new("some-metric", "Some metric", None, &labels, &metric)];
    let mut registry = Registry::new();

    assert!(registry.register(&mut descs, 0).is_ok());
    metric.inc();

    let mut encoder = MyEncoder;
    registry.encode(&descs, &mut encoder);
}

#[test]
fn encode_visits_each_registered_once() {
    let counters: Vec<Counter> = (0..5).map(|_| Counter::new()).collect();
    let ids = ["a", "b", "c", "d", "e"];
    let mut descs: Vec<MetricDesc> = (0..5)
        .map(|i| MetricDesc::new(ids[i], "help", None, &[], &counters[i]))
        .collect();
    let mut registry = Registry::new();
    for i in 0..5 {
        registry.register(&mut descs, i).unwrap();
    }
    let mut rec = Recorder { seen: vec![] };
    registry.encode(&descs, &mut rec);
    let mut seen = names(&rec.seen);
    assert_eq!(seen.len(), 5);
    seen.sort();
    assert_eq!(seen, vec!["a", "b", "c", "d", "e"]);
    assert_eq!(rec.seen.len(), 10);
}

#[test]
fn encode_visits_newest_first() {
    let c = Counter::new();
    let mut descs = vec![
        MetricDesc::new("first", "", None, &[], &c),
        MetricDesc::new("second", "", None, &[], &c),
        MetricDesc::new("third", "", None, &[], &c),
    ];
    let mut registry = Registry::new();
    registry.register(&mut descs, 1).unwrap();
    registry.register(&mut descs, 0).unwrap();
    registry.register(&mut descs, 2).unwrap();
    let mut rec = Recorder { seen: vec![] };
    registry.encode(&descs, &mut rec);
    assert_eq!(names(&rec.seen), vec!["third", "first", "second"]);
}

#[test]
fn second_registration_is_refused() {
    let c = Counter::new();
    let mut descs = vec![
        MetricDesc::new("x", "", None, &[], &c),
        MetricDesc::new("y", "", None, &[], &c),
    ];
    let mut registry = Registry::new();
    assert_eq!(registry.register(&mut descs, 0), Ok(()));
    assert_eq!(registry.register(&mut descs, 1), Ok(()));
    assert_eq!(registry.register(&mut descs, 0), Err(RegisterError::AlreadyRegistered));
    assert_eq!(registry.register(&mut descs, 1), Err(RegisterError::AlreadyRegistered));
    let mut rec = Recorder { seen: vec![] };
    registry.encode(&descs, &mut rec);
    assert_eq!(names(&rec.seen), vec!["y", "x"]);
}

#[test]
fn registered_elsewhere_is_refused() {
    let c = Counter::new();
    let mut descs = vec![MetricDesc::new("x", "", None, &[], &c)];
    let mut first = Registry::new();
    let mut second = Registry::new();
    assert_eq!(first.register(&mut descs, 0), Ok(()));
    assert_eq!(second.register(&mut descs, 0), Err(RegisterError::AlreadyRegistered));
    let mut rec = Recorder { seen: vec![] };
    second.encode(&descs, &mut rec);
    assert!(rec.seen.is_empty());
}

#[test]
fn same_names_are_independent() {
    let c = Counter::new();
    let mut descs = vec![
        MetricDesc::new("dup", "", None, &[], &c),
        MetricDesc::new("dup", "", None, &[], &c),
    ];
    let mut registry = Registry::new();
    registry.register(&mut descs, 0).unwrap();
    registry.register(&mut descs, 1).unwrap();
    let mut rec = Recorder { seen: vec![] };
    registry.encode(&descs, &mut rec);
    assert_eq!(names(&rec.seen), vec!["dup", "dup"]);
}

#[test]
fn empty_registry_encodes_nothing() {
    let descs: Vec<MetricDesc> = vec![];
    let registry = Registry::new();
    let mut rec = Recorder { seen: vec![] };
    registry.encode(&descs, &mut rec);
    assert!(rec.seen.is_empty());
}

#[test]
fn metadata_passes_through_unchanged() {
    let c = Counter::new();
    let labels = ["method", "status"];
    let mut descs = vec![MetricDesc::new(
        "http_requests_total",
        "count of HTTP requests",
        None,
        &labels,
        &c,
    )];
    let mut registry = Registry::new();
    registry.register(&mut descs, 0).unwrap();
    let mut rec = Recorder { seen: vec![] };
    registry.encode(&descs, &mut rec);
    assert_eq!(
        rec.seen[0],
        Seen::Desc(
            "http_requests_total".to_string(),
            "count of HTTP requests".to_string(),
            None,
            vec!["method".to_string(), "status".to_string()],
        )
    );
}

#[test]
fn unit_passes_through() {
    let c = Counter::new();
    let mut descs = vec![MetricDesc::new("bytes_sent", "sent", Some("bytes"), &[], &c)];
    let mut registry = Registry::new();
    registry.register(&mut descs, 0).unwrap();
    let mut rec = Recorder { seen: vec![] };
    registry.encode(&descs, &mut rec);
    assert_eq!(
        rec.seen,
        vec![
            Seen::Desc("bytes_sent".to_string(), "sent".to_string(), Some("bytes".to_string()), vec![]),
            Seen::Bytes(b"0".to_vec()),
        ]
    );
}

#[test]
fn end_to_end_counter() {
    let c = Counter::new();
    let mut descs = vec![MetricDesc::new("some_metric", "Some metric", None, &[], &c)];
    let mut registry = Registry::new();
    registry.register(&mut descs, 0).unwrap();
    c.inc();
    let mut rec = Recorder { seen: vec![] };
    registry.encode(&descs, &mut rec);
    assert_eq!(
        rec.seen,
        vec![
            Seen::Desc("some_metric".to_string(), "Some metric".to_string(), None, vec![]),
            Seen::Bytes(b"1".to_vec()),
        ]
    );
}

#[test]
fn counter_sums_increments() {
    let c = Counter::new();
    assert_eq!(c.total(), 0);
    for _ in 0..8 {
        for _ in 0..100000 {
            c.inc();
        }
    }
    assert_eq!(c.total(), 800000);
    c.inc_by(200000);
    assert_eq!(c.total(), 1000000);
}

#[test]
fn counter_encodes_decimal_total() {
    let c = Counter::new();
    c.inc_by(1203);
    let mut rec = Recorder { seen: vec![] };
    c.encode(&mut rec);
    assert_eq!(rec.seen, vec![Seen::Bytes(b"1203".to_vec())]);
}

#[test]
fn decimal_text_values() {
    assert_eq!(decimal_text(0), b"0".to_vec());
    assert_eq!(decimal_text(7), b"7".to_vec());
    assert_eq!(decimal_text(10), b"10".to_vec());
    assert_eq!(decimal_text(120), b"120".to_vec());
    assert_eq!(decimal_text(usize::MAX), usize::MAX.to_string().into_bytes());
}

#[test]
fn text_encoder_accepts_everything() {
    let c = Counter::new();
    let mut descs = vec![MetricDesc::new("m", "", None, &[], &c)];
    let mut registry = Registry::new();
    registry.register(&mut descs, 0).unwrap();
    let mut enc = TextEncoder::new();
    registry.encode(&descs, &mut enc);
}

#[test]
fn defaults_are_empty() {
    let c = Counter::default();
    assert_eq!(c.total(), 0);
    let registry = Registry::default();
    let descs: Vec<MetricDesc> = vec![];
    let mut rec = Recorder { seen: vec![] };
    registry.encode(&descs, &mut rec);
    assert!(rec.seen.is_empty());
}
