use kad_routing::bucket::{LivenessProber, Outcome, Reachability};
use kad_routing::id::NodeId;
use kad_routing::info::{NodeAddr, NodeInfo};
use kad_routing::table::{NodeInfoStore, TableError, BUCKET_SIZE};

struct ScriptProber {
    answers: Vec<Reachability>,
    next: usize,
    asked: usize,
}

impl ScriptProber {
    fn new(answers: Vec<Reachability>) -> ScriptProber {
        ScriptProber { answers, next: 0, asked: 0 }
    }
}

impl LivenessProber for ScriptProber {
    fn probe(&mut self, _address: &NodeAddr, _timeout_ms: u64) -> Reachability {
        self.asked += 1;
        let a = if self.next < self.answers.len() {
            self.answers[self.next]
        } else {
            Reachability::Reachable
        };
        self.next += 1;
        a
    }
}

fn id1(b: u8) -> NodeId {
    NodeId::from_bytes_sized(&[b], 1).unwrap()
}

fn rec(b: u8, port: u16) -> NodeInfo {
    NodeInfo { id: id1(b), address: NodeAddr { ip: 0x7f00_0001, port } }
}

fn ids_of(v: &[NodeInfo]) -> Vec<u8> {
    v.iter().map(|r| r.id.byte(0)).collect()
}

#[test]
fn defaults_are_conventional() {
    let table = NodeInfoStore::new_default(NodeId::new_default());
    assert_eq!(table.bucket_size(), BUCKET_SIZE);
    assert_eq!(BUCKET_SIZE, 20);
}

#[test]
fn with_takes_capacity_and_width() {
    let table = NodeInfoStore::with(id1(0x01), 4, 8);
    assert_eq!(table.bucket_size(), 4);
}

#[test]
fn see_inserts_into_leaf_with_room() {
    let mut table = NodeInfoStore::new(id1(0x00), 2);
    let mut prober = ScriptProber::new(vec![]);
    let o = table.see(rec(0xF0, 1), &mut prober, 100);
    assert_eq!(o, Ok(Outcome::Inserted));
    let out = table.closest(&id1(0xF0), 10);
    assert_eq!(out.len(), 1);
    assert_eq!(out[0].id.byte(0), 0xF0);
    assert_eq!(prober.asked, 0);
}

#[test]
fn see_rejects_owner_identifier() {
    let mut table = NodeInfoStore::new(id1(0x00), 2);
    let mut prober = ScriptProber::new(vec![]);
    let o = table.see(rec(0x00, 1), &mut prober, 100);
    assert_eq!(o, Err(TableError::SelfReferential));
    assert_eq!(table.closest(&id1(0xFF), 10).len(), 0);
}

#[test]
fn see_rejects_wrong_width_identifier() {
    let mut table = NodeInfoStore::new(id1(0x00), 2);
    let mut prober = ScriptProber::new(vec![]);
    let wide = NodeInfo {
        id: NodeId::from_bytes_sized(&[1, 2], 2).unwrap(),
        address: NodeAddr { ip: 0, port: 1 },
    };
    let o = table.see(wide, &mut prober, 100);
    assert_eq!(o, Err(TableError::LengthMismatch));
    assert_eq!(table.closest(&id1(0xFF), 10).len(), 0);
}

#[test]
fn reseen_peer_updates_address_without_duplicating() {
    let mut table = NodeInfoStore::new(id1(0x00), 2);
    let mut prober = ScriptProber::new(vec![]);
    assert_eq!(table.see(rec(0xF0, 1), &mut prober, 100), Ok(Outcome::Inserted));
    let o = table.see(rec(0xF0, 9), &mut prober, 100);
    assert_eq!(o, Ok(Outcome::Updated));
    let out = table.closest(&id1(0xF0), 10);
    assert_eq!(out.len(), 1);
    assert_eq!(out[0].address.port, 9);
}

#[test]
fn full_unsplittable_leaf_with_dead_head_evicts() {
    // owner 0x00, capacity 2: peers with a set top bit land in the half
    // that does not cover the owner, so that leaf cannot split
    let mut table = NodeInfoStore::new(id1(0x00), 2);
    // first probe (root leaf, splittable): head alive; after the split the
    // child leaf is full and unsplittable, second probe: head dead
    let mut prober =
        ScriptProber::new(vec![Reachability::Reachable, Reachability::Unreachable]);
    assert_eq!(table.see(rec(0xF0, 1), &mut prober, 100), Ok(Outcome::Inserted));
    assert_eq!(table.see(rec(0xE0, 2), &mut prober, 100), Ok(Outcome::Inserted));
    let o = table.see(rec(0xD0, 3), &mut prober, 100);
    assert_eq!(o, Ok(Outcome::EvictedInserted));
    assert_eq!(prober.asked, 2);
    // the probed-dead head 0xE0 is gone, 0xD0 took its place; the live
    // peer 0xF0 was never evicted; length stays at 2
    let out = table.closest(&id1(0xFF), 10);
    assert_eq!(ids_of(&out), vec![0xF0, 0xD0]);
}

#[test]
fn full_splittable_leaf_with_live_head_splits_then_discards() {
    // the cascade: the root splits along the owner's path, the retried
    // insert lands in a full child that no longer covers the owner, and
    // that child's live head then causes a discard
    let mut table = NodeInfoStore::new(id1(0x00), 2);
    let mut prober =
        ScriptProber::new(vec![Reachability::Reachable, Reachability::Reachable]);
    assert_eq!(table.see(rec(0xF0, 1), &mut prober, 100), Ok(Outcome::Inserted));
    assert_eq!(table.see(rec(0xE0, 2), &mut prober, 100), Ok(Outcome::Inserted));
    let o = table.see(rec(0xD0, 3), &mut prober, 100);
    assert_eq!(o, Ok(Outcome::Discarded));
    assert_eq!(prober.asked, 2);
    // the total record count is preserved across the split
    let out = table.closest(&id1(0xFF), 10);
    assert_eq!(out.len(), 2);
    assert!(!ids_of(&out).contains(&0xD0));
}

#[test]
fn after_split_inserts_reach_the_owner_side_child() {
    // after the split the 0-side child covers the owner and has room:
    // a near peer is inserted there even though the far side is full
    let mut table = NodeInfoStore::new(id1(0x00), 2);
    let mut prober = ScriptProber::new(vec![Reachability::Reachable]);
    assert_eq!(table.see(rec(0xF0, 1), &mut prober, 100), Ok(Outcome::Inserted));
    assert_eq!(table.see(rec(0xE0, 2), &mut prober, 100), Ok(Outcome::Inserted));
    assert_eq!(table.see(rec(0xD0, 3), &mut prober, 100), Ok(Outcome::Discarded));
    let o = table.see(rec(0x10, 4), &mut prober, 100);
    assert_eq!(o, Ok(Outcome::Inserted));
    // both probes happened while seeing 0xD0; seeing 0x10 asked nothing
    assert_eq!(prober.asked, 2);
    let out = table.closest(&id1(0x00), 10);
    assert_eq!(out.len(), 3);
    assert_eq!(out[0].id.byte(0), 0x10);
}

#[test]
fn cascading_splits_follow_the_owner_path_across_bytes() {
    // owner 0x0000, capacity 1: two peers that agree with the owner on
    // their first fourteen bits force a split at every depth down to
    // where they diverge, crossing the byte boundary
    let owner = NodeId::from_bytes_sized(&[0x00, 0x00], 2).unwrap();
    let mut table = NodeInfoStore::new(owner, 1);
    let near1 = NodeInfo {
        id: NodeId::from_bytes_sized(&[0x00, 0x01], 2).unwrap(),
        address: NodeAddr { ip: 1, port: 1 },
    };
    let near2 = NodeInfo {
        id: NodeId::from_bytes_sized(&[0x00, 0x02], 2).unwrap(),
        address: NodeAddr { ip: 2, port: 2 },
    };
    let mut prober = ScriptProber::new(vec![]);
    assert_eq!(table.see(near1, &mut prober, 50), Ok(Outcome::Inserted));
    assert_eq!(table.see(near2, &mut prober, 50), Ok(Outcome::Inserted));
    // one live-head probe per split, at depths 0 through 14
    assert_eq!(prober.asked, 15);
    let target = NodeId::from_bytes_sized(&[0x00, 0x02], 2).unwrap();
    let out = table.closest(&target, 5);
    assert_eq!(out.len(), 2);
    assert_eq!(out[0].id.byte(1), 0x02);
    assert_eq!(out[1].id.byte(1), 0x01);
}

#[test]
fn closest_sorts_by_xor_distance_and_caps_length() {
    let mut table = NodeInfoStore::new(id1(0x00), 4);
    let mut prober = ScriptProber::new(vec![]);
    for b in [0x90u8, 0xF0, 0x30, 0xC0] {
        assert_eq!(table.see(rec(b, 1), &mut prober, 100), Ok(Outcome::Inserted));
    }
    // distances to 0xF0: 0xF0->0x00, 0xC0->0x30, 0x90->0x60, 0x30->0xC0
    let out = table.closest(&id1(0xF0), 10);
    assert_eq!(ids_of(&out), vec![0xF0, 0xC0, 0x90, 0x30]);
    let capped = table.closest(&id1(0xF0), 2);
    assert_eq!(ids_of(&capped), vec![0xF0, 0xC0]);
    let none = table.closest(&id1(0xF0), 0);
    assert_eq!(none.len(), 0);
}

#[test]
fn closest_never_includes_the_owner() {
    let mut table = NodeInfoStore::new(id1(0x55), 4);
    let mut prober = ScriptProber::new(vec![]);
    assert_eq!(table.see(rec(0x54, 1), &mut prober, 100), Ok(Outcome::Inserted));
    assert_eq!(
        table.see(rec(0x55, 2), &mut prober, 100),
        Err(TableError::SelfReferential)
    );
    let out = table.closest(&id1(0x55), 10);
    assert_eq!(ids_of(&out), vec![0x54]);
}

#[test]
fn remove_forgets_a_peer() {
    let mut table = NodeInfoStore::new(id1(0x00), 4);
    let mut prober = ScriptProber::new(vec![]);
    assert_eq!(table.see(rec(0xF0, 1), &mut prober, 100), Ok(Outcome::Inserted));
    assert_eq!(table.see(rec(0xE0, 2), &mut prober, 100), Ok(Outcome::Inserted));
    assert!(table.remove(&id1(0xF0)));
    assert!(!table.remove(&id1(0xF0)));
    assert!(!table.remove(&id1(0x77)));
    let out = table.closest(&id1(0xFF), 10);
    assert_eq!(ids_of(&out), vec![0xE0]);
}

#[test]
fn capacity_holds_under_many_sees() {
    // keep seeing distant peers: the far leaf never grows past capacity,
    // however many are offered
    let mut table = NodeInfoStore::new(id1(0x00), 2);
    for b in 0x80u8..0xA0 {
        let mut prober = ScriptProber::new(vec![Reachability::Reachable]);
        let o = table.see(rec(b, 1), &mut prober, 100).unwrap();
        assert!(o == Outcome::Inserted || o == Outcome::Discarded);
    }
    let out = table.closest(&id1(0x80), 32);
    assert!(out.len() <= 4);
}
