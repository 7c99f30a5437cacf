use markxiv::disk_cache::{
    entry_relative_path, CorruptEntry, fnv1a64, plan_sweep, sanitize_filename, DiskCache, DiskCacheConfig,
    FileStat,
};
use markxiv::memory_cache::MkCache;

#[test]
fn test_cache_basic() {
    let mut c = MkCache::new(2);
    c.put("a".into(), "1".into());
    c.put("b".into(), "2".into());
    assert_eq!(c.get("a").as_deref(), Some("1"));
    c.put("c".into(), "3".into()); // evicts least-recently used (b) after accessing a
    assert!(c.get("b").is_none());
    assert_eq!(c.len(), 2);
}

#[test]
fn memory_put_then_get_returns_value() {
    let mut c = MkCache::new(0);
    c.put("k".into(), "v1".into());
    c.put("k".into(), "v2".into());
    assert_eq!(c.get("k").as_deref(), Some("v2"));
    c.put("j".into(), "w".into());
    assert!(c.get("k").is_none());
    assert_eq!(c.get("j").as_deref(), Some("w"));
    assert_eq!(c.len(), 1);
}

fn disk(cap: u64) -> DiskCache {
    DiskCache::new(
        DiskCacheConfig { root: "/tmp/cache".to_string(), cap_bytes: cap, sweep_interval_secs: 3600 },
        0,
    )
}

#[test]
fn disk_put_then_get_roundtrip() {
    let dc = disk(10_000_000);
    let (path, bytes) = dc.put("1234.5678", "hello world");
    assert_eq!(path, dc.path_for("1234.5678"));
    assert_ne!(bytes, b"hello world".to_vec());
    assert_eq!(&bytes[..2], &[0x1f, 0x8b]);
    assert_eq!(dc.get(Some(bytes.as_slice())), Ok(Some("hello world".to_string())));
    assert_eq!(dc.get(None), Ok(None));
    assert_eq!(dc.get(Some(&b"not gzip"[..])), Err(CorruptEntry));
}

#[test]
fn fnv_matches_known_values() {
    assert_eq!(fnv1a64(b""), 0xcbf29ce484222325);
    assert_eq!(fnv1a64(b"a"), 0xaf63dc4c8601ec8c);
}

#[test]
fn filenames_are_sanitized() {
    assert_eq!(sanitize_filename("a b/c?d:é"), "a_b/c_d:_");
}

#[test]
fn entry_path_is_sharded_by_hash() {
    let h = fnv1a64("1234.5678".as_bytes());
    let expected = format!("{:02x}/{:02x}/1234.5678.md.gz", (h >> 56) & 0xff, (h >> 48) & 0xff);
    assert_eq!(entry_relative_path("1234.5678"), expected);
    assert_eq!(disk(1).path_for("1234.5678"), expected);
}

#[test]
fn leading_slashes_leave_the_file_name() {
    let p = entry_relative_path("/abs/1234.5678");
    assert!(p.ends_with("/abs/1234.5678.md.gz"));
    assert_eq!(p.len(), 6 + "abs/1234.5678.md.gz".len());
    assert!(entry_relative_path("//").ends_with("/_.md.gz"));
}

#[test]
fn sweep_removes_oldest_until_under_cap() {
    let files = vec![
        FileStat { mtime: 30, len: 50 },
        FileStat { mtime: 10, len: 50 },
        FileStat { mtime: 20, len: 50 },
        FileStat { mtime: 40, len: 50 },
    ];
    let (order, after) = plan_sweep(&files, 100);
    assert_eq!(order, vec![1, 2]);
    assert_eq!(after, 100);
}

#[test]
fn sweep_with_zero_cap_does_nothing() {
    let files = vec![FileStat { mtime: 1, len: 5 }];
    assert_eq!(plan_sweep(&files, 0), (vec![], 5));
}

#[test]
fn sweep_under_cap_does_nothing() {
    let files = vec![FileStat { mtime: 1, len: 5 }];
    assert_eq!(plan_sweep(&files, 100), (vec![], 5));
}

#[test]
fn sweep_can_exhaust_the_files() {
    let files = vec![FileStat { mtime: 2, len: 10 }, FileStat { mtime: 1, len: 10 }];
    assert_eq!(plan_sweep(&files, 5), (vec![1, 0], 0));
}

#[test]
fn disk_state_counts_writes_and_sweeps() {
    let mut dc = disk(200);
    assert!(dc.is_enabled());
    for _ in 0..20 {
        dc.record_write(50);
    }
    assert!(dc.needs_sweep());
    let files: Vec<FileStat> = (0..20).map(|i| FileStat { mtime: 100 - i, len: 50 }).collect();
    let removed = dc.sweep(&files);
    assert_eq!(removed.len(), 16);
    assert_eq!(removed[0], 19);
    assert!(dc.size_bytes <= 200);
    assert!(!dc.needs_sweep());
    assert!(!disk(0).is_enabled());
}

#[test]
fn sweep_corrects_an_overcounted_size() {
    let mut dc = disk(100);
    dc.record_write(1000);
    let files = vec![FileStat { mtime: 1, len: 40 }, FileStat { mtime: 2, len: 40 }];
    assert!(dc.needs_sweep());
    assert!(dc.sweep(&files).is_empty());
    assert_eq!(dc.size_bytes, 80);
}

#[test]
fn sweep_corrects_an_undercounted_size() {
    let mut dc = disk(100);
    dc.record_write(150);
    let files = vec![
        FileStat { mtime: 1, len: 60 },
        FileStat { mtime: 2, len: 60 },
        FileStat { mtime: 3, len: 60 },
    ];
    assert_eq!(dc.sweep(&files), vec![0, 1]);
    assert_eq!(dc.size_bytes, 60);
}
