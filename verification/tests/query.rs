use kad::kbucket::key::Key;
use kad::query::{QueryConfig, QueryId, QueryPool, QueryPoolState};
use std::time::{Duration, Instant};

fn key(b: u8) -> Key {
    Key::new(vec![b; 8])
}

#[test]
fn pool_drives_a_fixed_query_to_completion() {
    let mut pool = QueryPool::new(QueryConfig::default());
    assert!(matches!(pool.poll(Instant::now()), QueryPoolState::Idle));
    let id = pool.add_fixed(vec![key(1), key(2)], "inner");
    assert_eq!(id, QueryId(0));
    assert_eq!(pool.iter().len(), 1);

    let now = Instant::now();
    let first = match pool.poll(now) {
        QueryPoolState::Waiting(Some((q, peer))) => {
            assert_eq!(q.id(), id);
            peer
        }
        _ => panic!("expected a request"),
    };
    assert_eq!(first, vec![1u8; 8]);
    let second = match pool.poll(now) {
        QueryPoolState::Waiting(Some((_, peer))) => peer,
        _ => panic!("expected a request"),
    };
    assert_eq!(second, vec![2u8; 8]);
    assert!(matches!(pool.poll(now), QueryPoolState::Waiting(None)));

    assert!(pool.get(&id).unwrap().is_waiting(&first));
    assert!(pool.get(&QueryId(7)).is_none());
}

#[test]
fn pool_times_out_waiting_queries() {
    let config = QueryConfig { timeout: Duration::from_secs(0), replication_factor: 1 };
    let mut pool = QueryPool::new(config);
    let id = pool.add_fixed(vec![key(1), key(2)], ());
    let now = Instant::now();
    match pool.poll(now) {
        QueryPoolState::Waiting(Some((q, _))) => assert_eq!(q.id(), id),
        _ => panic!("expected a request"),
    }
    // At capacity and past the timeout.
    match pool.poll(now) {
        QueryPoolState::Timeout(q) => assert_eq!(q.id(), id),
        _ => panic!("expected a timeout"),
    }
    assert!(pool.iter().is_empty());
}

#[test]
fn pool_reports_finished_queries_with_their_results() {
    let mut pool = QueryPool::new(QueryConfig::default());
    let id = pool.add_iter_closest(key(0).into_key_bytes(), vec![], 5u32);
    assert_eq!(id, QueryId(0));
    match pool.poll(Instant::now()) {
        QueryPoolState::Finished(q) => {
            assert_eq!(q.id(), id);
            let result = q.into_result();
            assert_eq!(result.inner, 5);
            assert!(result.peers.is_empty());
        }
        _ => panic!("expected the empty query to finish"),
    }
    assert!(matches!(pool.poll(Instant::now()), QueryPoolState::Idle));
    // Identifiers keep counting.
    assert_eq!(pool.add_fixed(vec![], 6u32), QueryId(1));
}

#[test]
fn query_results_follow_successes() {
    let mut pool = QueryPool::new(QueryConfig::default());
    let id = pool.add_fixed(vec![key(1), key(2)], ());
    let now = Instant::now();
    let mut asked = vec![];
    while let QueryPoolState::Waiting(Some((_, peer))) = pool.poll(now) {
        asked.push(peer);
    }
    assert_eq!(asked.len(), 2);
    pool.on_success(&id, &asked[0], vec![]);
    pool.on_failure(&id, &asked[1]);
    // Results for other queries change nothing.
    pool.on_success(&QueryId(9), &asked[1], vec![]);
    assert!(!pool.get(&id).unwrap().is_waiting(&asked[0]));
    match pool.poll(now) {
        QueryPoolState::Waiting(None) => {}
        _ => panic!("the failed peer keeps its slot"),
    }
    pool.finish(&id);
    match pool.poll(now) {
        QueryPoolState::Finished(q) => {
            assert_eq!(q.into_result().peers, vec![asked[0].clone()]);
        }
        _ => panic!("expected the finished query"),
    }
    let _ = pool.config();
}
