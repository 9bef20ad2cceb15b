use minkowski_kv::dag::SpacetimeDAG;
use minkowski_kv::event::{Event, EventHash, Operation};
use minkowski_kv::dag::DagError;
use minkowski_kv::spacetime::SpacetimeCoord;

fn coord(t: u128, x: f64, y: f64, z: f64) -> SpacetimeCoord {
    SpacetimeCoord { t, x_bits: x.to_bits(), y_bits: y.to_bits(), z_bits: z.to_bits() }
}

fn put(id: u8, parents: Vec<EventHash>, key: &str) -> Event {
    Event::with_id([id; 16], parents, coord(id as u128, 0.0, 0.0, 0.0), Operation::Put(key.to_string(), vec![id]))
}

fn sorted(mut hashes: Vec<EventHash>) -> Vec<EventHash> {
    hashes.sort();
    hashes
}

fn closure_hashes(dag: &SpacetimeDAG, h: &EventHash) -> Vec<EventHash> {
    sorted(dag.events_in_causal_closure(h).iter().map(|e| e.hash()).collect())
}

#[test]
fn concurrent_heads_are_tracked() {
    let mut dag = SpacetimeDAG::new();
    let genesis_hash = dag.heads()[0];

    let parents = vec![genesis_hash];

    let earth_event = Event::new(
        parents.clone(),
        coord(0, 0.0, 0.0, 0.0),
        Operation::Put("earth".to_string(), vec![1]),
    );

    let mars_event = Event::new(
        parents,
        coord(0, 5.4e10, 0.0, 0.0),
        Operation::Put("mars".to_string(), vec![2]),
    );

    dag.add_event(earth_event).expect("earth should attach to genesis");
    dag.add_event(mars_event).expect("mars should attach to genesis");

    assert_eq!(dag.heads().len(), 2, "Two concurrent heads expected");
}

#[test]
fn new_dag_holds_only_its_genesis() {
    let dag = SpacetimeDAG::new();
    let heads = dag.heads();
    assert_eq!(heads.len(), 1);
    let genesis = dag.get(&heads[0]).expect("genesis is resident");
    assert_eq!(genesis.hash(), heads[0]);
    assert!(genesis.parents().to_vec().is_empty());
    assert_eq!(genesis.coords(), SpacetimeCoord::origin());
    assert!(matches!(genesis.payload(), Operation::Genesis));
    assert_eq!(genesis.id()[6] >> 4, 4);
    assert_eq!(
        Event::compute_hash(&genesis.id(), genesis.parents(), &genesis.coords(), genesis.payload()),
        genesis.hash()
    );
    assert!(dag.contains(&heads[0]));
    assert!(!dag.contains(&[0u8; 32]));
    assert!(dag.get(&[0u8; 32]).is_none());
}

#[test]
fn genesis_is_a_function_of_its_identifier() {
    let a = SpacetimeDAG::with_genesis_id([9u8; 16]);
    let b = SpacetimeDAG::with_genesis_id([9u8; 16]);
    let c = SpacetimeDAG::with_genesis_id([8u8; 16]);
    assert_eq!(a.heads(), b.heads());
    assert_ne!(a.heads(), c.heads());
    let expected = Event::with_id([9u8; 16], Vec::new(), SpacetimeCoord::origin(), Operation::Genesis);
    assert_eq!(a.heads(), vec![expected.hash()]);
}

#[test]
fn concurrent_writes_yield_two_heads_in_order_of_admission() {
    let mut dag = SpacetimeDAG::with_genesis_id([0u8; 16]);
    let g = dag.heads()[0];
    let a = Event::with_id([1u8; 16], vec![g], coord(0, 0.0, 0.0, 0.0), Operation::Put("earth".to_string(), vec![1]));
    let b = Event::with_id([2u8; 16], vec![g], coord(0, 5.4e10, 0.0, 0.0), Operation::Put("mars".to_string(), vec![2]));
    let (ha, hb) = (a.hash(), b.hash());
    assert_eq!(dag.add_event(a), Ok(()));
    assert_eq!(dag.heads(), vec![ha]);
    assert_eq!(dag.add_event(b), Ok(()));
    assert_eq!(dag.heads(), vec![ha, hb]);
    assert!(dag.heads().contains(&ha) && dag.heads().contains(&hb));
}

#[test]
fn merge_collapses_heads() {
    let mut dag = SpacetimeDAG::with_genesis_id([0u8; 16]);
    let g = dag.heads()[0];
    let a = put(1, vec![g], "earth");
    let b = put(2, vec![g], "mars");
    let (ha, hb) = (a.hash(), b.hash());
    dag.add_event(a).unwrap();
    dag.add_event(b).unwrap();
    let c = Event::with_id([3u8; 16], vec![ha, hb], coord(1, 0.0, 0.0, 0.0), Operation::Merge);
    let hc = c.hash();
    assert_eq!(dag.add_event(c), Ok(()));
    assert_eq!(dag.heads(), vec![hc]);
}

#[test]
fn admission_order_of_concurrent_events_does_not_change_the_head_set() {
    let mut first = SpacetimeDAG::with_genesis_id([0u8; 16]);
    let mut second = SpacetimeDAG::with_genesis_id([0u8; 16]);
    let g = first.heads()[0];
    first.add_event(put(1, vec![g], "a")).unwrap();
    first.add_event(put(2, vec![g], "b")).unwrap();
    second.add_event(put(2, vec![g], "b")).unwrap();
    second.add_event(put(1, vec![g], "a")).unwrap();
    assert_eq!(sorted(first.heads()), sorted(second.heads()));
}

#[test]
fn missing_parent_is_rejected_and_nothing_changes() {
    let mut dag = SpacetimeDAG::with_genesis_id([0u8; 16]);
    let g = dag.heads()[0];
    let stranger = [0xabu8; 32];
    let orphan = put(1, vec![g, stranger], "orphan");
    let ho = orphan.hash();
    assert_eq!(dag.add_event(orphan), Err(DagError::MissingParent));
    assert_eq!(dag.heads(), vec![g]);
    assert!(!dag.contains(&ho));
    assert!(dag.get(&ho).is_none());
    assert!(!dag.contains(&stranger));
}

#[test]
fn readmission_is_a_duplicate_and_nothing_changes() {
    let mut dag = SpacetimeDAG::with_genesis_id([0u8; 16]);
    let g = dag.heads()[0];
    let a = put(1, vec![g], "a");
    let ha = a.hash();
    dag.add_event(a.clone()).unwrap();
    let b = put(2, vec![ha], "b");
    let hb = b.hash();
    dag.add_event(b).unwrap();
    assert_eq!(dag.heads(), vec![hb]);
    assert_eq!(dag.add_event(a), Err(DagError::Duplicate));
    assert_eq!(dag.heads(), vec![hb]);
    let genesis = dag.get(&g).unwrap().clone();
    assert_eq!(dag.add_event(genesis), Err(DagError::Duplicate));
    assert_eq!(dag.heads(), vec![hb]);
}

#[test]
fn resident_events_stay_as_they_were() {
    let mut dag = SpacetimeDAG::with_genesis_id([0u8; 16]);
    let g = dag.heads()[0];
    let a = put(1, vec![g], "a");
    let ha = a.hash();
    dag.add_event(a).unwrap();
    let mut tip = ha;
    for i in 2u8..40 {
        let e = put(i, vec![tip], "chain");
        tip = e.hash();
        dag.add_event(e).unwrap();
        let kept = dag.get(&ha).expect("an admitted event stays resident");
        assert_eq!(kept.id(), [1u8; 16]);
        assert_eq!(kept.parents().to_vec(), vec![g]);
        assert!(dag.contains(&g));
    }
    assert_eq!(dag.heads(), vec![tip]);
}

#[test]
fn a_parent_that_is_no_head_leaves_the_heads_alone() {
    let mut dag = SpacetimeDAG::with_genesis_id([0u8; 16]);
    let g = dag.heads()[0];
    let a = put(1, vec![g], "a");
    let ha = a.hash();
    dag.add_event(a).unwrap();
    let late = put(2, vec![g], "late");
    let hl = late.hash();
    dag.add_event(late).unwrap();
    assert_eq!(dag.heads(), vec![ha, hl]);
}

#[test]
fn an_event_without_parents_becomes_a_head_beside_the_others() {
    let mut dag = SpacetimeDAG::with_genesis_id([0u8; 16]);
    let g = dag.heads()[0];
    let root = put(1, Vec::new(), "root");
    let hr = root.hash();
    assert_eq!(dag.add_event(root), Ok(()));
    assert_eq!(dag.heads(), vec![g, hr]);
}

#[test]
fn causal_closure_of_a_diamond() {
    let mut dag = SpacetimeDAG::with_genesis_id([0u8; 16]);
    let g = dag.heads()[0];
    let a = put(1, vec![g], "a");
    let b = put(2, vec![g], "b");
    let (ha, hb) = (a.hash(), b.hash());
    dag.add_event(a).unwrap();
    dag.add_event(b).unwrap();
    let c = put(3, vec![ha, hb], "c");
    let hc = c.hash();
    dag.add_event(c).unwrap();
    let d = put(4, vec![hb], "d");
    let hd = d.hash();
    dag.add_event(d).unwrap();

    assert_eq!(closure_hashes(&dag, &g), vec![g]);
    assert_eq!(closure_hashes(&dag, &ha), sorted(vec![g, ha]));
    assert_eq!(closure_hashes(&dag, &hc), sorted(vec![g, ha, hb, hc]));
    assert_eq!(closure_hashes(&dag, &hd), sorted(vec![g, hb, hd]));
    assert!(dag.events_in_causal_closure(&[0x77u8; 32]).is_empty());

    let closure = dag.events_in_causal_closure(&hc);
    assert_eq!(closure.len(), 4);
    assert_eq!(closure[0].hash(), hc);
    for e in &closure {
        let resident = dag.get(&e.hash()).unwrap();
        assert_eq!(resident.id(), e.id());
        assert_eq!(resident.parents().to_vec(), e.parents().to_vec());
        assert!(!e.parents().to_vec().contains(&e.hash()));
    }
}

#[test]
fn no_event_is_its_own_ancestor() {
    let mut dag = SpacetimeDAG::with_genesis_id([0u8; 16]);
    let mut tips = dag.heads();
    let mut all = tips.clone();
    for i in 1u8..20 {
        let e = put(i, tips.clone(), "layer");
        let twin = put(i + 100, tips.clone(), "twin");
        tips = vec![e.hash(), twin.hash()];
        all.push(e.hash());
        all.push(twin.hash());
        dag.add_event(e).unwrap();
        dag.add_event(twin).unwrap();
    }
    for h in &all {
        let closure = dag.events_in_causal_closure(h);
        let own = closure.iter().filter(|e| e.hash() == *h).count();
        assert_eq!(own, 1);
        for e in &closure {
            for p in &e.parents().to_vec() {
                assert_ne!(p, h);
            }
        }
    }
}

#[test]
fn heads_are_the_events_without_children() {
    let mut dag = SpacetimeDAG::with_genesis_id([0u8; 16]);
    let g = dag.heads()[0];
    let mut events: Vec<Event> = Vec::new();
    let a = put(1, vec![g], "a");
    let b = put(2, vec![g], "b");
    let c = put(3, vec![a.hash()], "c");
    let d = put(4, vec![a.hash(), b.hash()], "d");
    let e = put(5, vec![c.hash()], "e");
    for ev in [a, b, c, d, e] {
        events.push(ev.clone());
        dag.add_event(ev).unwrap();
    }
    let mut childless: Vec<EventHash> = Vec::new();
    for ev in &events {
        if !events.iter().any(|other| other.parents().to_vec().contains(&ev.hash())) {
            childless.push(ev.hash());
        }
    }
    assert!(events.iter().any(|ev| ev.parents().to_vec().contains(&g)));
    assert_eq!(sorted(dag.heads()), sorted(childless));
    assert_eq!(dag.heads().len(), 2);
}

#[test]
fn verdict_says_what_offering_would_give() {
    let mut dag = SpacetimeDAG::with_genesis_id([0u8; 16]);
    let g = dag.heads()[0];
    let a = put(1, vec![g], "a");
    let b = put(2, vec![a.hash()], "b");
    assert_eq!(dag.verdict(&a), Ok(()));
    assert_eq!(dag.verdict(&b), Err(DagError::MissingParent));
    dag.add_event(a.clone()).unwrap();
    assert_eq!(dag.verdict(&a), Err(DagError::Duplicate));
    assert_eq!(dag.verdict(&b), Ok(()));
    assert_eq!(dag.heads(), vec![a.hash()]);
}

#[test]
fn errors_say_what_went_wrong() {
    assert_eq!(DagError::MissingParent.message(), "Missing parent event");
    assert_eq!(DagError::Duplicate.message(), "Duplicate event");
}
