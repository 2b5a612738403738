use serde::ser::{Error, Serialize, SerializeTuple, Serializer};
use serde_queue::SerdeQueue;

struct Unsized;

impl Serialize for Unsized {
    fn serialize<S: Serializer>(&self, serializer: S) -> Result<S::Ok, S::Error> {
        serializer.collect_seq((0..3u8).filter(|b| *b != 1))
    }
}

struct Broken {
    written: u8,
}

impl Serialize for Broken {
    fn serialize<S: Serializer>(&self, serializer: S) -> Result<S::Ok, S::Error> {
        let mut t = serializer.serialize_tuple(self.written as usize + 1)?;
        for i in 0..self.written {
            t.serialize_element(&(200 + i))?;
        }
        Err(S::Error::custom("broken"))
    }
}

#[test]
fn encode_error_pushes_nothing() {
    let mut q = SerdeQueue::new();
    q.push(&1u8).unwrap();
    let e = q.push(&Unsized).unwrap_err();
    assert_eq!(e.cause, postcard::Error::SerializeSeqLengthUnknown);
    assert_eq!(q.len(), 1);
    assert_eq!(q.pop::<u8>().unwrap(), Some(1));
    assert_eq!(q.pop::<u8>().unwrap(), None);
}

#[test]
fn encode_error_after_some_bytes_pushes_nothing() {
    let mut q = SerdeQueue::new();
    q.push(&1u8).unwrap();
    q.push(&2u8).unwrap();
    let e = q.push(&Broken { written: 3 }).unwrap_err();
    assert_eq!(e.cause, postcard::Error::SerdeSerCustom);
    assert_eq!(q.len(), 2);
    assert_eq!(q.pop::<u8>().unwrap(), Some(1));
    assert_eq!(q.pop::<u8>().unwrap(), Some(2));
    assert_eq!(q.pop::<u8>().unwrap(), None);
    assert_eq!(q.len(), 0);
}

#[test]
fn pushes_go_on_after_an_encode_error() {
    let mut q = SerdeQueue::new();
    q.push(&1u8).unwrap();
    assert!(q.push(&Broken { written: 5 }).is_err());
    q.push(&2u8).unwrap();
    assert!(q.push(&Broken { written: 1 }).is_err());
    assert!(q.push(&Broken { written: 0 }).is_err());
    q.push(&3u8).unwrap();
    assert_eq!(q.len(), 3);
    assert_eq!(q.pop::<u8>().unwrap(), Some(1));
    assert_eq!(q.pop::<u8>().unwrap(), Some(2));
    assert_eq!(q.pop::<u8>().unwrap(), Some(3));
    assert_eq!(q.pop::<u8>().unwrap(), None);
}

#[test]
fn pushes_go_on_after_an_encode_error_in_an_emptied_queue() {
    let mut q = SerdeQueue::new();
    q.push(&1u8).unwrap();
    assert!(q.push(&Broken { written: 4 }).is_err());
    assert_eq!(q.pop::<u8>().unwrap(), Some(1));
    assert_eq!(q.pop::<u8>().unwrap(), None);
    q.push(&77u8).unwrap();
    q.push(&78u8).unwrap();
    assert_eq!(q.pop::<u8>().unwrap(), Some(77));
    assert_eq!(q.pop::<u8>().unwrap(), Some(78));
}

#[test]
fn encode_errors_in_a_wrapped_queue_keep_order() {
    let mut q = SerdeQueue::new();
    for i in 0..8u8 {
        q.push(&i).unwrap();
    }
    for i in 0..5u8 {
        assert_eq!(q.pop::<u8>().unwrap(), Some(i));
    }
    assert!(q.push(&Broken { written: 2 }).is_err());
    q.push(&8u8).unwrap();
    assert!(q.push(&Broken { written: 9 }).is_err());
    q.push(&9u8).unwrap();
    assert!(q.push(&Broken { written: 40 }).is_err());
    q.push(&10u8).unwrap();
    assert_eq!(q.len(), 6);
    for i in 5..11u8 {
        assert_eq!(q.pop::<u8>().unwrap(), Some(i));
    }
    assert_eq!(q.pop::<u8>().unwrap(), None);
}

#[test]
fn decode_error_counts_the_record_as_popped() {
    let mut q = SerdeQueue::new();
    q.push(&()).unwrap();
    assert_eq!(q.len(), 1);
    let e = q.pop::<u8>().unwrap_err();
    assert_eq!(e.cause, postcard::Error::DeserializeUnexpectedEnd);
    assert_eq!(q.len(), 0);
}

#[test]
fn decode_error_of_a_bad_record() {
    let mut q = SerdeQueue::new();
    q.push(&7u8).unwrap();
    let e = q.pop::<bool>().unwrap_err();
    assert_eq!(e.cause, postcard::Error::DeserializeBadBool);
    assert_eq!(q.len(), 0);
}
