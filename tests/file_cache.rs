use synapse_cache::cache::FileCache;
use synapse_cache::range::{allocation_target, creates_file, mapped_range, narrow_access, NarrowAccess, SCRATCH_LEN};

/// Brings `path` into the cache the way a disk worker does, with an
/// in-memory buffer standing for the mapped file.
fn touch(cache: &mut FileCache<Vec<u8>>, path: &str, declared: Option<u64>) -> Option<String> {
    let path = path.to_string();
    let mut evicted = None;
    if !cache.contains(&path) {
        if let Some(e) = cache.make_room_for(&path) {
            evicted = Some(e.path);
        }
        assert!(creates_file(declared));
        let mut buf = Vec::new();
        if let Some(len) = allocation_target(declared, 0) {
            buf.resize(len as usize, 0u8);
        }
        cache.insert(path.clone(), buf);
    }
    assert!(cache.get_file_range(&path).is_some());
    evicted
}

fn write(cache: &mut FileCache<Vec<u8>>, path: &str, offset: u64, data: &[u8]) {
    let i = cache.get_file_range(&path.to_string()).unwrap();
    let map = cache.handle_mut(i);
    let (s, e) = mapped_range(map.len(), offset, data.len()).unwrap();
    map[s..e].copy_from_slice(data);
}

fn read(cache: &mut FileCache<Vec<u8>>, path: &str, offset: u64, len: usize) -> Vec<u8> {
    let i = cache.get_file_range(&path.to_string()).unwrap();
    let map = cache.handle_mut(i);
    let (s, e) = mapped_range(map.len(), offset, len).unwrap();
    map[s..e].to_vec()
}

fn held(cache: &FileCache<Vec<u8>>, path: &str) -> bool {
    cache.contains(&path.to_string())
}

#[test]
fn write_then_read() {
    let mut cache = FileCache::new(4);
    touch(&mut cache, "/t/a", Some(1024));
    write(&mut cache, "/t/a", 0, &[1, 2, 3, 4, 5, 6, 7, 8]);
    touch(&mut cache, "/t/a", None);
    assert_eq!(read(&mut cache, "/t/a", 0, 8), vec![1, 2, 3, 4, 5, 6, 7, 8]);
    assert_eq!(cache.flush_file(&"/t/a".to_string()).unwrap().len(), 1024);
}

#[test]
fn full_cache_of_used_entries_goes_one_over() {
    let mut cache = FileCache::new(2);
    assert_eq!(touch(&mut cache, "/t/a", Some(16)), None);
    assert_eq!(touch(&mut cache, "/t/b", Some(16)), None);
    assert_eq!(touch(&mut cache, "/t/c", Some(16)), None);
    assert!(held(&cache, "/t/c"));
    assert_eq!(cache.len(), 3);
    assert_eq!(cache.is_used(&"/t/a".to_string()), Some(false));
    assert_eq!(cache.is_used(&"/t/b".to_string()), Some(false));
    assert_eq!(cache.is_used(&"/t/c".to_string()), Some(true));
}

#[test]
fn next_admission_evicts_a_cold_entry() {
    let mut cache = FileCache::new(2);
    touch(&mut cache, "/t/a", Some(16));
    touch(&mut cache, "/t/b", Some(16));
    touch(&mut cache, "/t/c", Some(16));
    // The hand now starts at b: b, c, a are visited and a is the last cold one.
    assert_eq!(touch(&mut cache, "/t/d", Some(16)), Some("/t/a".to_string()));
    assert_eq!(cache.len(), 3);
    assert!(held(&cache, "/t/b") && held(&cache, "/t/c") && held(&cache, "/t/d"));
}

#[test]
fn second_chance_keeps_refreshed_entry() {
    let mut cache = FileCache::new(2);
    touch(&mut cache, "/t/a", Some(16));
    touch(&mut cache, "/t/b", Some(16));
    touch(&mut cache, "/t/a", Some(16));
    touch(&mut cache, "/t/c", Some(16));
    assert!(held(&cache, "/t/a"));
    assert!(held(&cache, "/t/c"));
}

#[test]
fn touched_entry_survives_sweep_over_cold_one() {
    let mut cache = FileCache::new(2);
    touch(&mut cache, "/t/a", Some(16));
    touch(&mut cache, "/t/b", Some(16));
    touch(&mut cache, "/t/c", Some(16));
    // a and b are cold now; refresh b only.
    touch(&mut cache, "/t/b", None);
    assert_eq!(touch(&mut cache, "/t/d", Some(16)), Some("/t/a".to_string()));
    assert!(held(&cache, "/t/b"));
}

#[test]
fn offset_within_mapping() {
    let mut cache = FileCache::new(1);
    touch(&mut cache, "/t/a", Some(4096));
    write(&mut cache, "/t/a", 1024, &[0xAA; 32]);
    assert_eq!(read(&mut cache, "/t/a", 1024, 32), vec![0xAA; 32]);
    assert_eq!(read(&mut cache, "/t/a", 0, 32), vec![0u8; 32]);
}

#[test]
fn remove_releases_slot() {
    let mut cache = FileCache::new(1);
    touch(&mut cache, "/t/a", Some(16));
    assert_eq!(cache.remove_file(&"/t/a".to_string()).map(|h| h.len()), Some(16));
    assert!(cache.make_room_for(&"/t/b".to_string()).is_none());
    touch(&mut cache, "/t/b", Some(16));
    assert_eq!(cache.len(), 1);
    assert!(held(&cache, "/t/b"));
    assert!(!held(&cache, "/t/a"));
}

#[test]
fn remove_and_flush_of_unknown_path_do_nothing() {
    let mut cache = FileCache::new(2);
    touch(&mut cache, "/t/a", Some(16));
    assert!(cache.remove_file(&"/t/x".to_string()).is_none());
    assert!(cache.flush_file(&"/t/x".to_string()).is_none());
    assert_eq!(cache.len(), 1);
    assert_eq!(cache.is_used(&"/t/a".to_string()), Some(true));
}

#[test]
fn remove_twice_is_remove_once() {
    let mut cache = FileCache::new(2);
    touch(&mut cache, "/t/a", Some(16));
    touch(&mut cache, "/t/b", Some(16));
    assert!(cache.remove_file(&"/t/a".to_string()).is_some());
    assert!(cache.remove_file(&"/t/a".to_string()).is_none());
    assert_eq!(cache.len(), 1);
    assert!(held(&cache, "/t/b"));
}

#[test]
fn admissions_stay_within_one_over_capacity() {
    let mut cache = FileCache::new(2);
    for i in 0..20 {
        touch(&mut cache, &format!("/t/{}", i), Some(8));
        assert!(cache.len() <= cache.max_open_files() + 1);
    }
}

#[test]
fn write_round_trip_at_end_of_mapping() {
    let mut cache = FileCache::new(2);
    touch(&mut cache, "/t/a", Some(64));
    let pattern: Vec<u8> = (0..16).collect();
    write(&mut cache, "/t/a", 48, &pattern);
    assert_eq!(read(&mut cache, "/t/a", 48, 16), pattern);
}

#[test]
fn mapped_range_bounds() {
    assert_eq!(mapped_range(64, 48, 16), Some((48, 64)));
    assert_eq!(mapped_range(64, 49, 16), None);
    assert_eq!(mapped_range(64, 65, 0), None);
    assert_eq!(mapped_range(64, 64, 0), Some((64, 64)));
    assert_eq!(mapped_range(0, u64::MAX, 1), None);
}

#[test]
fn declared_length_is_a_floor() {
    assert_eq!(allocation_target(Some(1024), 0), Some(1024));
    assert_eq!(allocation_target(Some(512), 1024), None);
    assert_eq!(allocation_target(Some(1024), 1024), None);
    assert_eq!(allocation_target(None, 7), None);
    assert!(creates_file(Some(0)));
    assert!(!creates_file(None));
}

#[test]
fn narrow_access_paths() {
    assert!(matches!(narrow_access(4096, 32, true), NarrowAccess::Window { offset: 4096, len: 32 }));
    assert!(matches!(
        narrow_access(u64::MAX, 32, true),
        NarrowAccess::Spill { pre_read: true, write_back: false }
    ));
    assert!(matches!(
        narrow_access(u64::MAX, 32, false),
        NarrowAccess::Spill { pre_read: false, write_back: true }
    ));
    assert!(matches!(narrow_access(u64::MAX, SCRATCH_LEN + 1, false), NarrowAccess::OutOfRange));
}

#[test]
fn drain_hands_back_everything() {
    let mut cache = FileCache::new(3);
    touch(&mut cache, "/t/a", Some(4));
    touch(&mut cache, "/t/b", Some(8));
    let all = cache.drain();
    assert_eq!(all.len(), 2);
    assert_eq!(all[0].path, "/t/a");
    assert_eq!(all[1].handle.len(), 8);
    assert_eq!(cache.len(), 0);
}
