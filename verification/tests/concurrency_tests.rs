use rustycache::rustycache::Rustycache;
use rustycache::strategy::CacheStrategy;
use std::sync::Arc;
use std::time::Duration;
use tokio::sync::Barrier;

fn run_concurrency_test<S>(cache: Arc<Rustycache<String, S>>)
where
    S: CacheStrategy<String> + Send + Sync + 'static,
{
    let runtime = tokio::runtime::Builder::new_current_thread()
        .enable_all()
        .build()
        .expect("a tokio runtime");
    runtime.block_on(async move {
        let num_threads = 10;
        let ops_per_thread = 1000;
        let barrier = Arc::new(Barrier::new(num_threads));
        let mut handles = vec![];

        for t in 0..num_threads {
            let cache_clone = Arc::clone(&cache);
            let barrier_clone = Arc::clone(&barrier);

            let handle = tokio::spawn(async move {
                barrier_clone.wait().await;
                for i in 0..ops_per_thread {
                    let key = (i % 200).to_string();
                    let val = format!("thread-{}-val-{}", t, i);

                    if i % 2 == 0 {
                        cache_clone.put(key, val);
                    } else {
                        cache_clone.get(&key);
                    }
                }
            });
            handles.push(handle);
        }

        for handle in handles {
            handle.await.unwrap();
        }
    });
}

#[test]
fn test_concurrent_put_get_lru() {
    let capacity = 100;
    let cache = Arc::new(Rustycache::lru_sync(8, capacity, Duration::from_secs(10)));
    run_concurrency_test(Arc::clone(&cache));
    assert!(cache.len() <= capacity);
}

#[test]
fn test_concurrent_put_get_fifo() {
    let capacity = 100;
    let cache = Arc::new(Rustycache::fifo_sync(8, capacity, Duration::from_secs(10)));
    run_concurrency_test(Arc::clone(&cache));
    assert!(cache.len() <= capacity);
}

#[test]
fn test_concurrent_put_get_lfu() {
    let capacity = 100;
    let cache = Arc::new(Rustycache::lfu_sync(8, capacity, Duration::from_secs(10)));
    run_concurrency_test(Arc::clone(&cache));
    assert!(cache.len() <= capacity);
}

#[test]
fn test_sync_basics() {
    let cache = Rustycache::lru_sync(1, 10, Duration::from_secs(60));
    cache.put("a".to_string(), "b".to_string());
    assert_eq!(cache.get(&"a".to_string()), Some("b".to_string()));
}
