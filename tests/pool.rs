use kokoros::pool::{
    calculate_optimal_threads, is_cpu_execution_provider, session_config, threads_per_instance,
    Backend, InstancePool, SessionConfig,
};
use kokoros::reorder::Resequencer;

#[test]
fn threads_are_shared_evenly_with_a_floor_of_two() {
    assert_eq!(threads_per_instance(16, 4), 4);
    assert_eq!(threads_per_instance(10, 3), 3);
    assert_eq!(threads_per_instance(8, 4), 2);
    assert_eq!(threads_per_instance(3, 4), 2);
    assert_eq!(threads_per_instance(1, 1), 2);
    let (threads, cores) = calculate_optimal_threads(1);
    assert!(cores >= 1);
    assert_eq!(threads, threads_per_instance(cores, 1));
    assert!(threads >= 2);
    assert_eq!(session_config(Backend::Accelerated, 0, 8).inter_threads, Some(1));
}

#[test]
fn backend_configuration() {
    assert!(is_cpu_execution_provider(Backend::Cpu));
    assert!(!is_cpu_execution_provider(Backend::Accelerated));
    assert_eq!(
        session_config(Backend::Cpu, 2, 12),
        SessionConfig { use_mimalloc: true, intra_threads: Some(6), inter_threads: None }
    );
    assert_eq!(
        session_config(Backend::Accelerated, 2, 12),
        SessionConfig { use_mimalloc: false, intra_threads: None, inter_threads: Some(1) }
    );
}

#[test]
fn four_instances_serve_eight_requests() {
    let mut pool = InstancePool::new(4);
    let requests: Vec<String> = (0..8).map(|i| format!("request {i}")).collect();
    let mut running: Vec<(usize, usize)> = Vec::new();
    let mut waiting: Vec<usize> = (0..8).collect();
    let mut results: Vec<Option<(usize, String)>> = vec![None; 8];
    while !waiting.is_empty() || !running.is_empty() {
        while let Some(&r) = waiting.first() {
            match pool.acquire() {
                Some(inst) => {
                    assert!(running.iter().all(|&(i, _)| i != inst));
                    running.push((inst, r));
                    waiting.remove(0);
                }
                None => break,
            }
        }
        assert!(running.len() <= 4);
        let (inst, r) = running.remove(0);
        results[r] = Some((inst, requests[r].to_uppercase()));
        pool.release(inst);
    }
    for (r, res) in results.iter().enumerate() {
        assert_eq!(res.as_ref().unwrap().1, format!("REQUEST {r}"));
    }
}

#[test]
fn acquire_fails_when_all_busy_and_rotates() {
    let mut pool = InstancePool::new(2);
    assert_eq!(pool.acquire(), Some(0));
    assert_eq!(pool.acquire(), Some(1));
    assert_eq!(pool.acquire(), None);
    pool.release(0);
    assert_eq!(pool.acquire(), Some(0));
    pool.release(1);
    pool.release(0);
    assert_eq!(pool.acquire(), Some(1));
}

#[test]
fn results_come_out_in_submission_order() {
    let mut r: Resequencer<&str> = Resequencer::new();
    let mut out = Vec::new();
    r.push(2, "third");
    assert_eq!(r.pop_ready(), None);
    r.push(0, "first");
    while let Some(x) = r.pop_ready() {
        out.push(x);
    }
    r.push(1, "second");
    while let Some(x) = r.pop_ready() {
        out.push(x);
    }
    assert_eq!(out, vec!["first", "second", "third"]);
}
