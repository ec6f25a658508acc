use std::sync::mpsc::{channel, Receiver, Sender};

use data_lake::data_lake::DataLake;
use data_lake::path::Path;

const TEXT: u64 = 1;
const NUMBER: u64 = 2;

fn p(s: &str) -> Path {
    s.parse().unwrap()
}

fn subscribe(lake: &mut DataLake<Sender<String>>, tag: u64, path: &str) -> Receiver<String> {
    let (tx, rx) = channel();
    lake.subscribe(tag, &p(path), tx);
    rx
}

fn publish(lake: &DataLake<Sender<String>>, tag: u64, path: &str, value: &str) -> usize {
    let targets = lake.publish_targets(tag, &p(path));
    for t in targets.iter() {
        t.send(value.to_string()).unwrap();
    }
    targets.len()
}

#[test]
fn single_publish_single_subscribe() {
    let mut lake = DataLake::new();
    let rx = subscribe(&mut lake, TEXT, "/test");
    assert_eq!(publish(&lake, TEXT, "/test", "data"), 1);
    assert_eq!(rx.try_recv().unwrap(), "data");
    assert!(rx.try_recv().is_err());
}

#[test]
fn single_publish_multi_subscribe() {
    let mut lake = DataLake::new();
    let rx1 = subscribe(&mut lake, TEXT, "/test");
    let rx2 = subscribe(&mut lake, TEXT, "/test");
    let other = subscribe(&mut lake, TEXT, "/test2");
    assert_eq!(publish(&lake, TEXT, "/test", "data"), 2);
    assert_eq!(rx1.try_recv().unwrap(), "data");
    assert_eq!(rx2.try_recv().unwrap(), "data");
    assert!(rx1.try_recv().is_err());
    assert!(rx2.try_recv().is_err());
    assert!(other.try_recv().is_err());
}

#[test]
fn types_do_not_cross() {
    let mut lake = DataLake::new();
    let text = subscribe(&mut lake, TEXT, "/test");
    assert_eq!(publish(&lake, NUMBER, "/test", "42"), 0);
    assert!(text.try_recv().is_err());
    let number = subscribe(&mut lake, NUMBER, "/test");
    assert_eq!(publish(&lake, NUMBER, "/test", "42"), 1);
    assert_eq!(number.try_recv().unwrap(), "42");
    assert!(text.try_recv().is_err());
}

#[test]
fn wildcard_subscription_receives() {
    let mut lake = DataLake::new();
    let any = subscribe(&mut lake, TEXT, "/bus/rx/*");
    assert_eq!(publish(&lake, TEXT, "/bus/rx/7", "hello"), 1);
    assert_eq!(publish(&lake, TEXT, "/bus/tx", "nothing"), 0);
    assert_eq!(any.try_recv().unwrap(), "hello");
    assert!(any.try_recv().is_err());
}
