use serde_queue::SerdeQueue;
use std::collections::VecDeque;

#[test]
fn push_1_pop_1() {
    let x: usize = 233;
    let mut q = SerdeQueue::new();
    q.push(&x).unwrap();
    assert_eq!(q.pop().unwrap(), Some(x));
}

#[test]
fn push_1e1_iter_all() {
    let mut q = SerdeQueue::new();
    let n = 10;
    for i in 0..n {
        q.push(&i).unwrap();
    }
    assert_eq!(q.len(), n);
    for i in 0..n {
        assert_eq!(q.pop().unwrap(), Some(i));
    }
    assert_eq!(q.pop::<usize>().unwrap(), None);
}

#[test]
fn new_queue_is_empty() {
    let mut q = SerdeQueue::new();
    assert_eq!(q.len(), 0);
    assert_eq!(q.pop::<u64>().unwrap(), None);
    assert_eq!(q.len(), 0);
}

#[test]
fn round_trip_restores_len() {
    let mut q = SerdeQueue::new();
    assert_eq!(q.len(), 0);
    q.push(&0x1234_5678_9abc_def0u64).unwrap();
    assert_eq!(q.len(), 1);
    assert_eq!(q.pop::<u64>().unwrap(), Some(0x1234_5678_9abc_def0u64));
    assert_eq!(q.len(), 0);
    assert_eq!(q.pop::<u64>().unwrap(), None);
}

#[test]
fn round_trip_of_several_types() {
    let mut q = SerdeQueue::new();
    q.push(&true).unwrap();
    q.push(&-5i32).unwrap();
    q.push(&String::from("hello, queue")).unwrap();
    q.push(&(7u8, 70_000u32, vec![1u16, 2, 3])).unwrap();
    q.push(&Some(9u64)).unwrap();
    q.push(&None::<u64>).unwrap();
    assert_eq!(q.len(), 6);
    assert_eq!(q.pop::<bool>().unwrap(), Some(true));
    assert_eq!(q.pop::<i32>().unwrap(), Some(-5));
    assert_eq!(q.pop::<String>().unwrap(), Some(String::from("hello, queue")));
    assert_eq!(q.pop::<(u8, u32, Vec<u16>)>().unwrap(), Some((7, 70_000, vec![1, 2, 3])));
    assert_eq!(q.pop::<Option<u64>>().unwrap(), Some(Some(9)));
    assert_eq!(q.pop::<Option<u64>>().unwrap(), Some(None));
    assert_eq!(q.len(), 0);
}

#[test]
fn pop_can_borrow_from_the_queue() {
    let mut q = SerdeQueue::new();
    q.push(&"borrowed").unwrap();
    let s: Option<&str> = q.pop().unwrap();
    assert_eq!(s, Some("borrowed"));
}

#[test]
fn fifo_order_of_strings() {
    let words = ["a", "bc", "", "defg", "hijklmnopqrstuvwxyz", "0"];
    let mut q = SerdeQueue::new();
    for w in words.iter() {
        q.push(&String::from(*w)).unwrap();
    }
    assert_eq!(q.len(), words.len());
    for w in words.iter() {
        assert_eq!(q.pop::<String>().unwrap(), Some(String::from(*w)));
    }
    assert_eq!(q.pop::<String>().unwrap(), None);
}

#[test]
fn len_counts_pushes_less_pops() {
    let mut q = SerdeQueue::new();
    let mut expected: usize = 0;
    for round in 0..20u32 {
        for i in 0..(round % 5 + 1) {
            q.push(&(round * 10 + i)).unwrap();
            expected += 1;
            assert_eq!(q.len(), expected);
        }
        for _ in 0..(round % 3) {
            if q.pop::<u32>().unwrap().is_some() {
                expected -= 1;
            }
            assert_eq!(q.len(), expected);
        }
    }
}

#[test]
fn empty_pop_changes_nothing() {
    let mut q = SerdeQueue::new();
    assert_eq!(q.pop::<u8>().unwrap(), None);
    assert_eq!(q.pop::<u8>().unwrap(), None);
    assert_eq!(q.len(), 0);
    q.push(&1u8).unwrap();
    assert_eq!(q.pop::<u8>().unwrap(), Some(1));
    assert_eq!(q.pop::<u8>().unwrap(), None);
    assert_eq!(q.len(), 0);
    q.push(&2u8).unwrap();
    q.push(&3u8).unwrap();
    assert_eq!(q.len(), 2);
    assert_eq!(q.pop::<u8>().unwrap(), Some(2));
    assert_eq!(q.pop::<u8>().unwrap(), Some(3));
}

#[test]
fn wrap_keeps_order() {
    let mut q = SerdeQueue::new();
    for i in 0..8u8 {
        q.push(&i).unwrap();
    }
    for i in 0..4u8 {
        assert_eq!(q.pop::<u8>().unwrap(), Some(i));
    }
    for i in 8..12u8 {
        q.push(&i).unwrap();
    }
    assert_eq!(q.len(), 8);
    for i in 4..12u8 {
        assert_eq!(q.pop::<u8>().unwrap(), Some(i));
    }
    assert_eq!(q.pop::<u8>().unwrap(), None);
}

#[test]
fn wrap_in_the_middle_of_a_record() {
    let mut q = SerdeQueue::new();
    for i in 0..6u8 {
        q.push(&i).unwrap();
    }
    for i in 0..5u8 {
        assert_eq!(q.pop::<u8>().unwrap(), Some(i));
    }
    q.push(&(10u8, 11u8, 12u8, 13u8)).unwrap();
    q.push(&14u8).unwrap();
    assert_eq!(q.len(), 3);
    assert_eq!(q.pop::<u8>().unwrap(), Some(5));
    assert_eq!(q.pop::<(u8, u8, u8, u8)>().unwrap(), Some((10, 11, 12, 13)));
    assert_eq!(q.pop::<u8>().unwrap(), Some(14));
    assert_eq!(q.pop::<u8>().unwrap(), None);
}

#[test]
fn wrapped_queue_is_read_to_its_end_and_from_its_beginning() {
    let mut q = SerdeQueue::new();
    for round in 0..50u32 {
        for i in 0..7u32 {
            q.push(&(round * 100 + i)).unwrap();
        }
        for i in 0..7u32 {
            assert_eq!(q.pop::<u32>().unwrap(), Some(round * 100 + i));
        }
        assert_eq!(q.len(), 0);
    }
    assert_eq!(q.pop::<u32>().unwrap(), None);
}

#[test]
fn growth_keeps_waiting_records() {
    let mut q = SerdeQueue::new();
    for i in 0..8u8 {
        q.push(&i).unwrap();
    }
    for i in 0..4u8 {
        assert_eq!(q.pop::<u8>().unwrap(), Some(i));
    }
    q.push(&8u8).unwrap();
    let big: Vec<u8> = (0..1000u32).map(|i| (i % 251) as u8).collect();
    q.push(&big).unwrap();
    q.push(&9u8).unwrap();
    assert_eq!(q.len(), 7);
    for i in 4..9u8 {
        assert_eq!(q.pop::<u8>().unwrap(), Some(i));
    }
    assert_eq!(q.pop::<Vec<u8>>().unwrap(), Some(big));
    assert_eq!(q.pop::<u8>().unwrap(), Some(9));
    assert_eq!(q.pop::<u8>().unwrap(), None);
}

#[test]
fn growth_at_the_end_keeps_waiting_records() {
    let mut q = SerdeQueue::new();
    q.push(&1u8).unwrap();
    q.push(&2u8).unwrap();
    let big: Vec<u64> = (0..300u64).map(|i| i * i * i).collect();
    q.push(&big).unwrap();
    assert_eq!(q.pop::<u8>().unwrap(), Some(1));
    assert_eq!(q.pop::<u8>().unwrap(), Some(2));
    assert_eq!(q.pop::<Vec<u64>>().unwrap(), Some(big));
    assert_eq!(q.len(), 0);
}

#[test]
fn zero_length_records() {
    let mut q = SerdeQueue::new();
    for n in 1..6usize {
        q.push(&()).unwrap();
        assert_eq!(q.len(), n);
    }
    for n in (0..5usize).rev() {
        assert_eq!(q.pop::<()>().unwrap(), Some(()));
        assert_eq!(q.len(), n);
    }
    assert_eq!(q.pop::<()>().unwrap(), None);
}

#[test]
fn zero_length_records_among_others() {
    let mut q = SerdeQueue::new();
    for round in 0..30u16 {
        q.push(&()).unwrap();
        q.push(&round).unwrap();
        q.push(&()).unwrap();
        q.push(&String::from("xyz")).unwrap();
        assert_eq!(q.len(), 4);
        assert_eq!(q.pop::<()>().unwrap(), Some(()));
        assert_eq!(q.pop::<u16>().unwrap(), Some(round));
        q.push(&()).unwrap();
        assert_eq!(q.pop::<()>().unwrap(), Some(()));
        assert_eq!(q.pop::<String>().unwrap(), Some(String::from("xyz")));
        assert_eq!(q.len(), 1);
        assert_eq!(q.pop::<()>().unwrap(), Some(()));
        assert_eq!(q.len(), 0);
    }
    assert_eq!(q.pop::<()>().unwrap(), None);
}

#[test]
fn zero_length_records_in_a_wrapped_queue() {
    let mut q = SerdeQueue::new();
    for i in 0..8u8 {
        q.push(&i).unwrap();
    }
    for i in 0..4u8 {
        assert_eq!(q.pop::<u8>().unwrap(), Some(i));
    }
    q.push(&()).unwrap();
    q.push(&8u8).unwrap();
    q.push(&()).unwrap();
    for i in 4..8u8 {
        assert_eq!(q.pop::<u8>().unwrap(), Some(i));
    }
    assert_eq!(q.len(), 3);
    assert_eq!(q.pop::<()>().unwrap(), Some(()));
    assert_eq!(q.pop::<u8>().unwrap(), Some(8));
    assert_eq!(q.pop::<()>().unwrap(), Some(()));
    assert_eq!(q.pop::<()>().unwrap(), None);
}

#[test]
fn mixed_pushes_and_pops_agree_with_a_plain_queue() {
    let mut q = SerdeQueue::new();
    let mut model: VecDeque<Vec<u8>> = VecDeque::new();
    let mut seed: u64 = 0x9e37_79b9_7f4a_7c15;
    for step in 0..4000u32 {
        seed = seed.wrapping_mul(6364136223846793005).wrapping_add(1442695040888963407);
        let choice = (seed >> 33) % 100;
        let size = ((seed >> 41) % 40) as usize;
        if choice < 55 {
            let rec: Vec<u8> = (0..size).map(|i| (i as u32 + step) as u8).collect();
            q.push(&rec).unwrap();
            model.push_back(rec);
        } else {
            assert_eq!(q.pop::<Vec<u8>>().unwrap(), model.pop_front());
        }
        assert_eq!(q.len(), model.len());
    }
    while let Some(rec) = model.pop_front() {
        assert_eq!(q.pop::<Vec<u8>>().unwrap(), Some(rec));
    }
    assert_eq!(q.pop::<Vec<u8>>().unwrap(), None);
    assert_eq!(q.len(), 0);
}

#[test]
fn bursts_of_pushes_and_pops_agree_with_a_plain_queue() {
    let mut q = SerdeQueue::new();
    let mut model: VecDeque<(u64, String)> = VecDeque::new();
    let mut seed: u64 = 12345;
    for round in 0..200u64 {
        seed = seed.wrapping_mul(6364136223846793005).wrapping_add(1442695040888963407);
        let pushes = (seed >> 35) % 9;
        let pops = (seed >> 45) % 9;
        for i in 0..pushes {
            let rec = (round * 1000 + i, "x".repeat(((seed >> 20) % 17) as usize));
            q.push(&rec).unwrap();
            model.push_back(rec);
        }
        for _ in 0..pops {
            assert_eq!(q.pop::<(u64, String)>().unwrap(), model.pop_front());
        }
        assert_eq!(q.len(), model.len());
    }
}
