use std::sync::Mutex;

use openclaw_cache::Cache;

#[test]
fn concurrent_set_get_on_disjoint_keys() {
    let store = Mutex::new(Cache::new());
    rayon::scope(|s| {
        for i in 0..8u32 {
            let store = &store;
            s.spawn(move |_| {
                let key = format!("key-{}", i);
                for round in 0..50u32 {
                    let value = format!("value-{}-{}", i, round);
                    store.lock().unwrap().set(&key, value.clone(), None);
                    let got = store.lock().unwrap().get(&key);
                    assert_eq!(got, Some(value));
                }
            });
        }
    });
    let mut guard = store.lock().unwrap();
    assert_eq!(guard.size(), 8);
    for i in 0..8u32 {
        let got = guard.get(&format!("key-{}", i));
        assert_eq!(got, Some(format!("value-{}-49", i)));
    }
}
