use dataflow_union::data::{NodeId, Record, Value};
use dataflow_union::union_op::{RawProcessingResult, Union};

fn setup() -> (Union, NodeId, NodeId) {
    // ancestors: left with fields (l0, l1), right with fields (r0, r1, r2)
    let l = NodeId::Local(0);
    let r = NodeId::Local(1);
    let emits = vec![(l, vec![0, 1]), (r, vec![0, 2])];
    let u = Union::new(emits);
    (u, l, r)
}

fn pos_row(cells: Vec<Value>) -> Record {
    Record::Positive(cells)
}

fn one_row(u: &Union, from: NodeId, cells: Vec<Value>) -> Vec<Record> {
    u.on_input(from, vec![pos_row(cells)]).results
}

#[test]
fn it_describes() {
    let (u, l, r) = setup();
    assert_eq!(
        u.description(),
        format!("{}:[0, 1] ⋃ {}:[0, 2]", l.render(), r.render())
    );
}

#[test]
fn it_works() {
    let (u, l, r) = setup();

    // forward from left should emit original record
    let left = vec![Value::Int(1), Value::Text(String::from("a"))];
    assert_eq!(one_row(&u, l, left.clone()), vec![pos_row(left)]);

    // forward from right should emit subset record
    let right = vec![
        Value::Int(1),
        Value::Text(String::from("skipped")),
        Value::Text(String::from("x")),
    ];
    assert_eq!(
        one_row(&u, r, right),
        vec![pos_row(vec![Value::Int(1), Value::Text(String::from("x"))])]
    );
}

#[test]
fn it_suggests_indices() {
    let (u, _, _) = setup();
    let me = NodeId::Global(1);
    assert_eq!(u.suggest_indexes(me).len(), 0);
}

#[test]
fn it_resolves() {
    let (u, l, r) = setup();
    let r0 = u.resolve(0);
    assert!(r0.as_ref().unwrap().iter().any(|&(n, c)| n == l && c == 0));
    assert!(r0.as_ref().unwrap().iter().any(|&(n, c)| n == r && c == 0));
    let r1 = u.resolve(1);
    assert!(r1.as_ref().unwrap().iter().any(|&(n, c)| n == l && c == 1));
    assert!(r1.as_ref().unwrap().iter().any(|&(n, c)| n == r && c == 2));
}

#[test]
fn resolve_and_parent_columns_agree() {
    let (u, l, r) = setup();
    let res = u.resolve(1).unwrap();
    assert_eq!(res.len(), 2);
    assert!(res.contains(&(l, 1)));
    assert!(res.contains(&(r, 2)));
    let pc = u.parent_columns(1);
    assert_eq!(pc.len(), 2);
    assert!(pc.contains(&(l, Some(1))));
    assert!(pc.contains(&(r, Some(2))));
}

#[test]
fn rejects_reordering_at_construction() {
    let l = NodeId::Local(0);
    // a non-monotonic column list asks for reordering, which is unsupported
    assert!(Union::try_new(vec![(l, vec![1, 0])]).is_none());
}

#[test]
fn rejects_empty_and_duplicate_configurations() {
    assert!(Union::try_new(vec![]).is_none());
    let l = NodeId::Local(0);
    assert!(Union::try_new(vec![(l, vec![0]), (l, vec![1])]).is_none());
    assert!(Union::try_new(vec![(l, vec![0, 2])]).is_some());
}

#[test]
fn deshard_passes_batches_through_unchanged() {
    let parent = NodeId::Local(4);
    let mut u = Union::new_deshard(parent);
    let batch = vec![
        pos_row(vec![Value::Int(7), Value::Text(String::from("z"))]),
        Record::Negative(vec![Value::Int(8), Value::Null]),
    ];
    // whichever shard the batch claims to come from, it is re-emitted as is
    for shard in 0..3usize {
        let out = u.on_input_raw(NodeId::Local(shard), batch.clone(), None, 3);
        match out {
            RawProcessingResult::Regular(pr) => {
                assert_eq!(pr.results, batch);
                assert_eq!(pr.misses.len(), 0);
            }
            _ => panic!("ordinary batch must take the regular path"),
        }
    }
    assert_eq!(u.description(), "⊍");
    assert_eq!(u.ancestors(), vec![parent]);
}

#[test]
fn purity_identical_instances_agree() {
    let (u1, l, _) = setup();
    let (u2, _, _) = setup();
    let batch = vec![
        pos_row(vec![Value::Int(3), Value::Text(String::from("q"))]),
        Record::Negative(vec![Value::Int(4), Value::Null]),
    ];
    let a = u1.on_input(l, batch.clone()).results;
    let b = u2.on_input(l, batch).results;
    assert_eq!(a, b);
}

#[test]
fn replay_completes_on_last_ancestor() {
    let (mut u, l, r) = setup();
    let key = Value::Int(1);

    // first piece: buffered, nothing released
    let lpiece = vec![pos_row(vec![Value::Int(1), Value::Text(String::from("a"))])];
    match u.on_input_raw(l, lpiece, Some((0, key.clone())), 1) {
        RawProcessingResult::Captured => {}
        _ => panic!("an incomplete refill must be captured"),
    }

    // second (last) piece: the whole key is merged and released, transformed
    let rpiece = vec![pos_row(vec![
        Value::Int(1),
        Value::Text(String::from("skipped")),
        Value::Text(String::from("x")),
    ])];
    match u.on_input_raw(r, rpiece, Some((0, key.clone())), 1) {
        RawProcessingResult::ReplayPiece(out) => {
            assert_eq!(
                out,
                vec![
                    pos_row(vec![Value::Int(1), Value::Text(String::from("a"))]),
                    pos_row(vec![Value::Int(1), Value::Text(String::from("x"))]),
                ]
            );
        }
        _ => panic!("the last piece must release the replay"),
    }

    // the key's buffer is gone: ordinary traffic takes the fast path again
    let batch = vec![pos_row(vec![Value::Int(1), Value::Text(String::from("b"))])];
    match u.on_input_raw(l, batch.clone(), None, 1) {
        RawProcessingResult::Regular(pr) => assert_eq!(pr.results, batch),
        _ => panic!("ordinary batch must take the regular path"),
    }
}

#[test]
fn leak_forwarding_merges_and_forwards() {
    let (mut u, l, r) = setup();
    let key = Value::Int(1);

    // left's piece for key 1 is buffered
    let lpiece = vec![pos_row(vec![Value::Int(1), Value::Text(String::from("a"))])];
    match u.on_input_raw(l, lpiece, Some((0, key.clone())), 1) {
        RawProcessingResult::Captured => {}
        _ => panic!("an incomplete refill must be captured"),
    }

    // an ordinary record for key 1 from left arrives while right is pending:
    // it is forwarded immediately ...
    let late = pos_row(vec![Value::Int(1), Value::Text(String::from("late"))]);
    let noise = pos_row(vec![Value::Int(2), Value::Text(String::from("other"))]);
    match u.on_input_raw(l, vec![late.clone(), noise], None, 1) {
        RawProcessingResult::Regular(pr) => {
            assert_eq!(pr.results.len(), 2);
            assert_eq!(pr.results[0], late);
        }
        _ => panic!("ordinary batch must take the regular path"),
    }

    // ... and also merged into left's buffered piece, exactly once, while
    // the record for key 2 is not
    let rpiece = vec![pos_row(vec![
        Value::Int(1),
        Value::Text(String::from("skipped")),
        Value::Text(String::from("x")),
    ])];
    match u.on_input_raw(r, rpiece, Some((0, key)), 1) {
        RawProcessingResult::ReplayPiece(out) => {
            assert_eq!(
                out,
                vec![
                    pos_row(vec![Value::Int(1), Value::Text(String::from("a"))]),
                    late,
                    pos_row(vec![Value::Int(1), Value::Text(String::from("x"))]),
                ]
            );
        }
        _ => panic!("the last piece must release the replay"),
    }
}

#[test]
fn deshard_replay_completes_on_last_shard() {
    let parent = NodeId::Local(4);
    let mut u = Union::new_deshard(parent);
    let key = Value::Int(5);

    let piece0 = vec![pos_row(vec![Value::Int(5), Value::Text(String::from("s0"))])];
    match u.on_input_raw(NodeId::Local(0), piece0, Some((0, key.clone())), 2) {
        RawProcessingResult::Captured => {}
        _ => panic!("an incomplete refill must be captured"),
    }

    let piece1 = vec![pos_row(vec![Value::Int(5), Value::Text(String::from("s1"))])];
    match u.on_input_raw(NodeId::Local(1), piece1, Some((0, key)), 2) {
        RawProcessingResult::ReplayPiece(out) => {
            // shard batches are re-emitted unchanged, in buffer order
            assert_eq!(
                out,
                vec![
                    pos_row(vec![Value::Int(5), Value::Text(String::from("s0"))]),
                    pos_row(vec![Value::Int(5), Value::Text(String::from("s1"))]),
                ]
            );
        }
        _ => panic!("the last shard's piece must release the replay"),
    }
}

#[test]
fn take_resets_replay_state() {
    let (mut u, l, _) = setup();
    let key = Value::Int(1);
    let lpiece = vec![pos_row(vec![Value::Int(1), Value::Text(String::from("a"))])];
    match u.on_input_raw(l, lpiece, Some((0, key)), 1) {
        RawProcessingResult::Captured => {}
        _ => panic!("an incomplete refill must be captured"),
    }

    // the handed-over copy starts with empty replay state but the same policy
    let mut fresh = u.take();
    assert_eq!(fresh.description(), u.description());
    let batch = vec![pos_row(vec![Value::Int(1), Value::Text(String::from("b"))])];
    match fresh.on_input_raw(l, batch.clone(), None, 1) {
        RawProcessingResult::Regular(pr) => assert_eq!(pr.results, batch),
        _ => panic!("ordinary batch must take the regular path"),
    }
}

#[test]
fn remaps_identifiers_without_collision() {
    let (mut u, l, r) = setup();
    let l2 = NodeId::Local(5);
    let r2 = NodeId::Local(7);
    u.on_commit(NodeId::Local(9), &vec![(l, l2), (r, r2)]);
    let a = u.ancestors();
    assert_eq!(a.len(), 2);
    assert!(a.contains(&l2));
    assert!(a.contains(&r2));
    assert_eq!(
        u.description(),
        format!("{}:[0, 1] ⋃ {}:[0, 2]", l2.render(), r2.render())
    );

    let mut d = Union::new_deshard(NodeId::Local(3));
    d.on_commit(NodeId::Local(9), &vec![(NodeId::Local(3), NodeId::Local(6))]);
    assert_eq!(d.ancestors(), vec![NodeId::Local(6)]);
}

#[test]
fn connection_caches_field_counts() {
    let (mut u, l, r) = setup();
    // field counts as the schema lookup reports them
    u.on_connected(&vec![(l, 2), (r, 3)]);
    // the cache is diagnostic only: behaviour is unchanged
    let left = vec![Value::Int(1), Value::Text(String::from("a"))];
    assert_eq!(one_row(&u, l, left.clone()), vec![pos_row(left)]);
}

#[test]
fn never_materializes_or_queries() {
    let (u, _, _) = setup();
    assert!(!u.should_materialize());
    assert!(!u.will_query(true));
    assert!(!u.will_query(false));
}

#[test]
fn renders_multi_digit_identifiers_and_columns() {
    assert_eq!(NodeId::Local(12).render(), "l12");
    assert_eq!(NodeId::Global(0).render(), "g0");
    let u = Union::new(vec![(NodeId::Local(12), vec![0, 10, 25])]);
    assert_eq!(u.description(), "l12:[0, 10, 25]");
}

#[test]
fn description_sorts_ancestors() {
    // the table lists the higher identifier first; the rendering sorts
    let a = NodeId::Local(3);
    let b = NodeId::Local(1);
    let u = Union::new(vec![(a, vec![0]), (b, vec![1])]);
    assert_eq!(
        u.description(),
        format!("{}:[1] ⋃ {}:[0]", b.render(), a.render())
    );
}

#[test]
fn signs_are_preserved() {
    let (u, l, _) = setup();
    let batch = vec![
        Record::Negative(vec![Value::Int(9), Value::Text(String::from("n"))]),
        pos_row(vec![Value::Int(9), Value::Text(String::from("p"))]),
    ];
    let out = u.on_input(l, batch).results;
    assert_eq!(
        out,
        vec![
            Record::Negative(vec![Value::Int(9), Value::Text(String::from("n"))]),
            pos_row(vec![Value::Int(9), Value::Text(String::from("p"))]),
        ]
    );
}
