use kad_routing::bucket::{Bucket, LivenessProber, Outcome, Reachability};
use kad_routing::id::NodeId;
use kad_routing::info::{NodeAddr, NodeInfo};
use kad_routing::tree::BucketTree;

struct ScriptProber {
    answers: Vec<Reachability>,
    next: usize,
    asked: usize,
}

impl ScriptProber {
    fn new(answers: Vec<Reachability>) -> ScriptProber {
        ScriptProber { answers, next: 0, asked: 0 }
    }
}

impl LivenessProber for ScriptProber {
    fn probe(&mut self, _address: &NodeAddr, _timeout_ms: u64) -> Reachability {
        self.asked += 1;
        let a = if self.next < self.answers.len() {
            self.answers[self.next]
        } else {
            Reachability::Reachable
        };
        self.next += 1;
        a
    }
}

fn id1(b: u8) -> NodeId {
    NodeId::from_bytes_sized(&[b], 1).unwrap()
}

fn rec(b: u8, port: u16) -> NodeInfo {
    NodeInfo { id: id1(b), address: NodeAddr { ip: 0x7f00_0001, port } }
}

#[test]
fn insert_into_empty_bucket() {
    let mut bucket = Bucket::new();
    let mut prober = ScriptProber::new(vec![]);
    let o = bucket.insert(&rec(0x11, 1), 2, false, &mut prober, 100);
    assert_eq!(o, Outcome::Inserted);
    assert_eq!(bucket.len(), 1);
    assert_eq!(prober.asked, 0);
}

#[test]
fn insert_known_id_updates_and_moves_to_tail() {
    let mut bucket = Bucket::new();
    let mut prober = ScriptProber::new(vec![]);
    bucket.insert(&rec(0x11, 1), 2, false, &mut prober, 100);
    bucket.insert(&rec(0x22, 2), 2, false, &mut prober, 100);
    // re-seeing 0x11 from a new port refreshes it without growing the bucket
    let o = bucket.insert(&rec(0x11, 9), 2, false, &mut prober, 100);
    assert_eq!(o, Outcome::Updated);
    assert_eq!(bucket.len(), 2);
    // 0x11 is now the tail: its position is after 0x22
    assert_eq!(bucket.find_id_pos(&id1(0x22)), Some(0));
    assert_eq!(bucket.find_id_pos(&id1(0x11)), Some(1));
    // the address was updated in place
    let copies = bucket.to_vec();
    assert_eq!(copies[1].address.port, 9);
    assert_eq!(prober.asked, 0);
}

#[test]
fn full_bucket_with_dead_head_evicts_it() {
    let mut bucket = Bucket::new();
    let mut prober = ScriptProber::new(vec![Reachability::Unreachable]);
    bucket.insert(&rec(0x11, 1), 2, false, &mut prober, 100);
    bucket.insert(&rec(0x22, 2), 2, false, &mut prober, 100);
    let o = bucket.insert(&rec(0x33, 3), 2, false, &mut prober, 100);
    assert_eq!(o, Outcome::EvictedInserted);
    assert_eq!(bucket.len(), 2);
    assert_eq!(prober.asked, 1);
    // the least-recently-seen head 0x11 is gone, 0x33 sits at the tail
    assert!(!bucket.contains_id(&id1(0x11)));
    assert_eq!(bucket.find_id_pos(&id1(0x22)), Some(0));
    assert_eq!(bucket.find_id_pos(&id1(0x33)), Some(1));
}

#[test]
fn full_bucket_with_live_head_discards_candidate() {
    let mut bucket = Bucket::new();
    let mut prober = ScriptProber::new(vec![Reachability::Reachable]);
    bucket.insert(&rec(0x11, 1), 2, false, &mut prober, 100);
    bucket.insert(&rec(0x22, 2), 2, false, &mut prober, 100);
    let o = bucket.insert(&rec(0x33, 3), 2, false, &mut prober, 100);
    assert_eq!(o, Outcome::Discarded);
    assert_eq!(bucket.len(), 2);
    // the live head was confirmed fresh and moved to the tail
    assert_eq!(bucket.find_id_pos(&id1(0x22)), Some(0));
    assert_eq!(bucket.find_id_pos(&id1(0x11)), Some(1));
    assert!(!bucket.contains_id(&id1(0x33)));
}

#[test]
fn full_splittable_bucket_with_live_head_asks_for_split() {
    let mut bucket = Bucket::new();
    let mut prober = ScriptProber::new(vec![Reachability::Reachable]);
    bucket.insert(&rec(0x11, 1), 2, true, &mut prober, 100);
    bucket.insert(&rec(0x22, 2), 2, true, &mut prober, 100);
    let o = bucket.insert(&rec(0x33, 3), 2, true, &mut prober, 100);
    assert_eq!(o, Outcome::SplitRequired);
    assert_eq!(bucket.len(), 2);
}

#[test]
fn touch_moves_to_tail_and_reports_presence() {
    let mut bucket = Bucket::new();
    let mut prober = ScriptProber::new(vec![]);
    bucket.insert(&rec(0x11, 1), 3, false, &mut prober, 100);
    bucket.insert(&rec(0x22, 2), 3, false, &mut prober, 100);
    bucket.insert(&rec(0x33, 3), 3, false, &mut prober, 100);
    assert!(bucket.touch(&id1(0x11)));
    assert_eq!(bucket.find_id_pos(&id1(0x22)), Some(0));
    assert_eq!(bucket.find_id_pos(&id1(0x33)), Some(1));
    assert_eq!(bucket.find_id_pos(&id1(0x11)), Some(2));
    assert!(!bucket.touch(&id1(0x44)));
    assert_eq!(bucket.len(), 3);
}

#[test]
fn remove_takes_a_middle_record_out_keeping_order() {
    let mut bucket = Bucket::new();
    let mut prober = ScriptProber::new(vec![]);
    bucket.insert(&rec(0x11, 1), 3, false, &mut prober, 100);
    bucket.insert(&rec(0x22, 2), 3, false, &mut prober, 100);
    bucket.insert(&rec(0x33, 3), 3, false, &mut prober, 100);
    assert!(bucket.remove(&id1(0x22)));
    assert_eq!(bucket.len(), 2);
    assert_eq!(bucket.find_id_pos(&id1(0x11)), Some(0));
    assert_eq!(bucket.find_id_pos(&id1(0x33)), Some(1));
    assert!(!bucket.remove(&id1(0x22)));
}

#[test]
fn move_to_end_rotates_one_record() {
    let mut bucket = Bucket::new();
    let mut prober = ScriptProber::new(vec![]);
    bucket.insert(&rec(0x11, 1), 3, false, &mut prober, 100);
    bucket.insert(&rec(0x22, 2), 3, false, &mut prober, 100);
    assert!(bucket.move_to_end(0));
    assert_eq!(bucket.find_id_pos(&id1(0x22)), Some(0));
    assert_eq!(bucket.find_id_pos(&id1(0x11)), Some(1));
    assert!(!bucket.move_to_end(2));
}

#[test]
fn fresh_trie_remembers_its_capacity() {
    let tree = BucketTree::new(5);
    assert_eq!(tree.bucket_size(), 5);
}

#[test]
fn split_partitions_by_bit_keeping_order() {
    let mut bucket = Bucket::new();
    let mut prober = ScriptProber::new(vec![]);
    // bit 0: 0x81 and 0xC0 have it set, 0x01 and 0x40 have it clear
    bucket.insert(&rec(0x81, 1), 4, false, &mut prober, 100);
    bucket.insert(&rec(0x01, 2), 4, false, &mut prober, 100);
    bucket.insert(&rec(0xC0, 3), 4, false, &mut prober, 100);
    bucket.insert(&rec(0x40, 4), 4, false, &mut prober, 100);
    let (zeros, ones) = bucket.split(0);
    assert_eq!(zeros.len(), 2);
    assert_eq!(ones.len(), 2);
    assert_eq!(zeros.find_id_pos(&id1(0x01)), Some(0));
    assert_eq!(zeros.find_id_pos(&id1(0x40)), Some(1));
    assert_eq!(ones.find_id_pos(&id1(0x81)), Some(0));
    assert_eq!(ones.find_id_pos(&id1(0xC0)), Some(1));
}
