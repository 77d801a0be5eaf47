use spacemap::bounded_heap::BoundedMinHeap;
use spacemap::categorize::{AgeCategorizer, Categorizer, SizeCategorizer, TypeCategorizer};
use spacemap::categorize::days_since_modified;
use spacemap::checkpoint::CheckpointStats;
use spacemap::cli::Cli;
use spacemap::collector::SinglePassCollector;
use spacemap::config::{
    ColorResolver, CustomCategory, DisplayConfig, ExtensionRemap, SpacemapConfig,
};
use spacemap::duplicates::{ContentHasher, DuplicateFinder, hash_groups};
use spacemap::parallel_scanner::ParallelScanner;
use spacemap::scanner::{ScanStats, Scanner};
use spacemap::sharded_collector::ShardedCollector;
use spacemap::text::{contains_sub, parent_dir, parse_bucket_list, u64_to_string};
use spacemap::types::{Bucket, FileMetadata, Warning};
use std::collections::HashMap;

fn meta(path: &str, size: u64, ext: Option<&str>) -> FileMetadata {
    FileMetadata {
        path: String::from(path),
        size,
        extension: ext.map(String::from),
        age_days: None,
    }
}

/// Capacity 3, pushes [5, 2, 8, 10, 1]: the drain order is [10, 8, 5].
#[test]
fn test_selector_drain_order() {
    let mut heap: BoundedMinHeap<u64> = BoundedMinHeap::new(3);
    heap.push(5);
    heap.push(2);
    heap.push(8);
    heap.push(10);
    heap.push(1);
    assert_eq!(heap.into_sorted_vec(), vec![10, 8, 5]);
}

#[test]
fn test_selector_zero_capacity_discards_everything() {
    let mut heap: BoundedMinHeap<u64> = BoundedMinHeap::new(0);
    heap.push(7);
    heap.push(9);
    assert_eq!(heap.len(), 0);
    assert_eq!(heap.into_sorted_vec(), Vec::<u64>::new());
}

/// Bucket bytes sum to the total processed bytes, across any worker split.
#[test]
fn test_bucket_bytes_sum_across_workers() {
    let mut sharded = ShardedCollector::new(3, &TypeCategorizer::new(), 5, true);
    let files = [
        ("/a/x.rs", 10u64, Some("rs")),
        ("/a/y.png", 20, Some("png")),
        ("/b/z.mp3", 30, Some("mp3")),
        ("/b/w.rs", 40, Some("rs")),
        ("/c/v.unknownext", 50, None),
    ];
    let mut total = 0u64;
    for (i, (p, s, e)) in files.iter().enumerate() {
        sharded.process_file(i % 3, meta(p, *s, *e));
        total += *s;
    }
    let results = sharded.finalize(total);
    let sum: u64 = results.buckets.iter().map(|b| b.bytes).sum();
    assert_eq!(sum, total);
    let count: u64 = results.buckets.iter().map(|b| b.file_count).sum();
    assert_eq!(count, 5);
}

/// Merging two shards and finalizing matches one collector over the
/// concatenation of both inputs.
#[test]
fn test_merge_matches_concatenation() {
    let first = [
        ("/a/one.rs", 100u64, Some("rs")),
        ("/a/two.png", 250, Some("png")),
        ("/a/three.rs", 50, Some("rs")),
    ];
    let second = [
        ("/b/four.png", 75u64, Some("png")),
        ("/b/five.mp3", 125, Some("mp3")),
    ];

    let mut left = SinglePassCollector::new(TypeCategorizer::new(), 4, true);
    for (p, s, e) in first.iter() {
        left.process_file(meta(p, *s, *e));
    }
    let mut right = SinglePassCollector::new(TypeCategorizer::new(), 4, true);
    for (p, s, e) in second.iter() {
        right.process_file(meta(p, *s, *e));
    }
    left.merge(right);
    let merged = left.finalize(600);

    let mut single = SinglePassCollector::new(TypeCategorizer::new(), 4, true);
    for (p, s, e) in first.iter().chain(second.iter()) {
        single.process_file(meta(p, *s, *e));
    }
    let straight = single.finalize(600);

    let mut merged_stats: Vec<(String, u64, u64)> = merged
        .buckets
        .iter()
        .map(|b| (b.key.clone(), b.bytes, b.file_count))
        .collect();
    let mut straight_stats: Vec<(String, u64, u64)> = straight
        .buckets
        .iter()
        .map(|b| (b.key.clone(), b.bytes, b.file_count))
        .collect();
    merged_stats.sort();
    straight_stats.sort();
    assert_eq!(merged_stats, straight_stats);
}

/// After a parallel merge the top-N file list equals the true global top-N,
/// checked against a brute-force sort: 100 files over 4 shards, capacity 10.
#[test]
fn test_parallel_top_n_matches_brute_force() {
    let mut sharded = ShardedCollector::new(4, &TypeCategorizer::new(), 10, true);
    let mut sizes: Vec<u64> = Vec::new();
    let mut total = 0u64;
    for i in 0..100u64 {
        // Scatter sizes so the order of arrival is not the order of size.
        let size = (i * 37) % 101 + 1;
        sizes.push(size);
        let path = format!("/data/file{}.bin", i);
        sharded.process_file((i % 4) as usize, meta(&path, size, Some("bin")));
        total += size;
    }
    let results = sharded.finalize(total);

    sizes.sort_by(|a, b| b.cmp(a));
    let expected: Vec<u64> = sizes.into_iter().take(10).collect();
    let got: Vec<u64> = results.top_files.iter().map(|f| f.bytes).collect();
    assert_eq!(got, expected);
}

/// With tops disabled the buckets are still produced, the top lists empty.
#[test]
fn test_tops_disabled_keeps_buckets() {
    let mut sharded = ShardedCollector::new(2, &TypeCategorizer::new(), 10, false);
    for i in 0..20u64 {
        let path = format!("/data/file{}.txt", i);
        sharded.process_file((i % 2) as usize, meta(&path, 10, Some("txt")));
    }
    let results = sharded.finalize(200);
    assert!(!results.buckets.is_empty());
    assert_eq!(results.top_files.len(), 0);
    assert_eq!(results.top_dirs.len(), 0);
}

/// Directory totals follow the parent of each file's path.
#[test]
fn test_directory_accumulation() {
    let mut collector = SinglePassCollector::new(TypeCategorizer::new(), 5, true);
    collector.process_file(meta("/top/sub/a.txt", 100, Some("txt")));
    collector.process_file(meta("/top/sub/b.txt", 50, Some("txt")));
    collector.process_file(meta("/top/c.txt", 25, Some("txt")));
    let results = collector.finalize(175);
    assert_eq!(results.top_dirs.len(), 2);
    assert_eq!(results.top_dirs[0].path, "/top/sub");
    assert_eq!(results.top_dirs[0].bytes, 150);
    assert_eq!(results.top_dirs[1].path, "/top");
    assert_eq!(results.top_dirs[1].bytes, 25);
}

struct MemoryHasher {
    contents: HashMap<String, Vec<u8>>,
}

impl ContentHasher for MemoryHasher {
    fn read_prefix(&self, path: &String, limit: usize) -> Option<Vec<u8>> {
        self.contents.get(path).map(|data| {
            let n = data.len().min(limit);
            data[..n].to_vec()
        })
    }

    fn full_hash(&self, path: &String) -> Option<String> {
        self.contents
            .get(path)
            .map(|data| spacemap::duplicates::quick_hash(&data.clone()))
    }
}

/// Five files of sizes [10, 10, 10, 5, 5], the first three sharing one
/// content and the last two another: exactly two groups, wasted 20 and 5,
/// the larger first.
#[test]
fn test_duplicate_groups_scenario() {
    let mut finder = DuplicateFinder::new();
    let mut contents = HashMap::new();
    for (name, body) in [
        ("/d/a", &b"0123456789"[..]),
        ("/d/b", &b"0123456789"[..]),
        ("/d/c", &b"0123456789"[..]),
        ("/d/d", &b"54321"[..]),
        ("/d/e", &b"54321"[..]),
    ] {
        contents.insert(String::from(name), body.to_vec());
        finder.add_file(String::from(name), body.len() as u64);
    }
    let hasher = MemoryHasher { contents };
    let groups = finder.find_duplicates(&hasher);

    assert_eq!(groups.len(), 2);
    assert_eq!(groups[0].size, 10);
    assert_eq!(groups[0].paths.len(), 3);
    assert_eq!(groups[0].wasted_space, 20);
    assert_eq!(groups[1].size, 5);
    assert_eq!(groups[1].paths.len(), 2);
    assert_eq!(groups[1].wasted_space, 5);
}

/// Two files of equal size but different content never share a group. The
/// check would fail if the quick hash ignored its input.
#[test]
fn test_equal_size_different_content_never_grouped() {
    let mut finder = DuplicateFinder::new();
    let mut contents = HashMap::new();
    contents.insert(String::from("/d/a"), b"abcdefgh".to_vec());
    contents.insert(String::from("/d/b"), b"12345678".to_vec());
    finder.add_file(String::from("/d/a"), 8);
    finder.add_file(String::from("/d/b"), 8);
    // An adversarial full stage that cannot tell files apart: only the
    // quick stage separates them.
    struct ConstantFull {
        inner: MemoryHasher,
    }
    impl ContentHasher for ConstantFull {
        fn read_prefix(&self, path: &String, limit: usize) -> Option<Vec<u8>> {
            self.inner.read_prefix(path, limit)
        }
        fn full_hash(&self, _path: &String) -> Option<String> {
            Some(String::from("same"))
        }
    }
    let hasher = ConstantFull { inner: MemoryHasher { contents } };
    let groups = finder.find_duplicates(&hasher);
    assert_eq!(groups.len(), 0);
}

/// An unreadable file is dropped from its group without failing the scan.
#[test]
fn test_unreadable_file_dropped() {
    let mut finder = DuplicateFinder::new();
    let mut contents = HashMap::new();
    contents.insert(String::from("/d/a"), b"twin".to_vec());
    contents.insert(String::from("/d/b"), b"twin".to_vec());
    // "/d/c" has no content: every read of it fails.
    finder.add_file(String::from("/d/a"), 4);
    finder.add_file(String::from("/d/b"), 4);
    finder.add_file(String::from("/d/c"), 4);
    let hasher = MemoryHasher { contents };
    let groups = finder.find_duplicates(&hasher);
    assert_eq!(groups.len(), 1);
    assert_eq!(groups[0].paths.len(), 2);
    assert!(!groups[0].paths.contains(&String::from("/d/c")));
}

#[test]
fn test_hash_groups_by_value() {
    let pairs = vec![
        (String::from("p1"), String::from("h1")),
        (String::from("p2"), String::from("h2")),
        (String::from("p3"), String::from("h1")),
        (String::from("p4"), String::from("h1")),
    ];
    let groups = hash_groups(&pairs);
    assert_eq!(groups.len(), 1);
    assert_eq!(groups[0].hash, "h1");
    assert_eq!(groups[0].paths, vec!["p1", "p3", "p4"]);
}

#[test]
fn test_parse_bucket_list_values() {
    assert_eq!(parse_bucket_list("1024, 2048,4096"), Some(vec![1024, 2048, 4096]));
    assert_eq!(parse_bucket_list(" +7 "), Some(vec![7]));
    assert_eq!(parse_bucket_list("18446744073709551615"), Some(vec![u64::MAX]));
    assert_eq!(parse_bucket_list("18446744073709551616"), None);
    assert_eq!(parse_bucket_list("12,abc"), None);
    assert_eq!(parse_bucket_list(""), None);
    assert_eq!(parse_bucket_list("5,,6"), None);
}

#[test]
fn test_decimal_rendering() {
    assert_eq!(u64_to_string(0), "0");
    assert_eq!(u64_to_string(7), "7");
    assert_eq!(u64_to_string(10500), "10500");
    assert_eq!(u64_to_string(u64::MAX), "18446744073709551615");
}

#[test]
fn test_type_categorizer_table() {
    let c = TypeCategorizer::new();
    assert_eq!(c.categorize(&meta("/x/a.rs", 1, Some("rs"))), "Code");
    assert_eq!(c.categorize(&meta("/x/a.jpg", 1, Some("jpg"))), "Images");
    assert_eq!(c.categorize(&meta("/x/a.log", 1, Some("log"))), "Logs");
    assert_eq!(c.categorize(&meta("/x/a.zzz", 1, Some("zzz"))), "Other");
    assert_eq!(c.categorize(&meta("/x/noext", 1, None)), "Other");
}

#[test]
fn test_type_categorizer_with_config_overrides() {
    let mut config = SpacemapConfig::default();
    config.categories.push(CustomCategory {
        name: String::from("Notebooks"),
        extensions: vec![String::from("IPYNB")],
        color: None,
    });
    config.remaps.push(ExtensionRemap {
        extensions: vec![String::from("rs")],
        category: String::from("Sources"),
    });
    let c = TypeCategorizer::with_config(Some(&config));
    assert_eq!(c.categorize(&meta("/x/a.ipynb", 1, Some("ipynb"))), "Notebooks");
    assert_eq!(c.categorize(&meta("/x/a.rs", 1, Some("rs"))), "Sources");
    assert_eq!(c.categorize(&meta("/x/a.png", 1, Some("png"))), "Images");
}

#[test]
fn test_size_categorizer_buckets() {
    let c = SizeCategorizer::new(None);
    assert_eq!(c.categorize(&meta("/x", 100, None)), "0-1 KiB");
    assert_eq!(c.categorize(&meta("/x", 2048, None)), "1-10 KiB");
    assert_eq!(c.categorize(&meta("/x", 1073741824, None)), "1+ GiB");

    let custom = SizeCategorizer::new(Some(vec![100, 10, 100]));
    assert_eq!(custom.categorize(&meta("/x", 5, None)), "10+ bytes");
    assert_eq!(custom.categorize(&meta("/x", 50, None)), "10+ bytes");
    assert_eq!(custom.categorize(&meta("/x", 500, None)), "100+ bytes");
}

#[test]
fn test_age_categorizer_buckets() {
    let c = AgeCategorizer::new(None);
    let mut young = meta("/x", 1, None);
    young.age_days = Some(3);
    let mut old = meta("/x", 1, None);
    old.age_days = Some(400);
    assert_eq!(c.categorize(&young), "0-7 days");
    assert_eq!(c.categorize(&old), "1+ years");
    assert_eq!(c.categorize(&meta("/x", 1, None)), "Unknown");

    assert_eq!(days_since_modified(86400 * 10, 86400 * 3), 7);
    assert_eq!(days_since_modified(100, 200), 0);
}

#[test]
fn test_parent_derivation() {
    assert_eq!(parent_dir("/a/b/c.txt"), Some(String::from("/a/b")));
    assert_eq!(parent_dir("/x"), Some(String::from("/")));
    assert_eq!(parent_dir("plain"), None);
    assert_eq!(parent_dir("rel/file"), Some(String::from("rel")));
}

#[test]
fn test_substring_search() {
    assert!(contains_sub("/home/user/node_modules/x", "node_modules"));
    assert!(!contains_sub("/home/user/src", "node_modules"));
    assert!(contains_sub("abc", ""));
    assert!(!contains_sub("ab", "abc"));
}

#[test]
fn test_scanner_exclusion() {
    let scanner = Scanner::new(
        false,
        None,
        vec![String::from(".git"), String::from("target")],
        false,
    );
    assert!(scanner.should_exclude(&String::from("/repo/.git/config")));
    assert!(scanner.should_exclude(&String::from("/repo/target/debug")));
    assert!(!scanner.should_exclude(&String::from("/repo/src/main.rs")));
}

#[test]
fn test_scan_stats_absorb() {
    let mut a = ScanStats::new();
    a.record_file(100);
    a.record_dir();
    a.record_warning(Warning { path: String::from("/p"), error: String::from("denied") });
    let mut b = ScanStats::new();
    b.record_file(50);
    b.record_file(25);
    a.absorb(b);
    assert_eq!(a.total_bytes, 175);
    assert_eq!(a.file_count, 3);
    assert_eq!(a.dir_count, 1);
    assert_eq!(a.warnings.len(), 1);
}

#[test]
fn test_parallel_scanner_thread_count() {
    let auto = ParallelScanner::new(0, false, None, Vec::new(), false);
    assert!(auto.num_threads >= 1);
    let fixed = ParallelScanner::new(6, false, None, Vec::new(), false);
    assert_eq!(fixed.num_threads, 6);
}

fn base_cli() -> Cli {
    Cli {
        path: None,
        by: String::from("type"),
        verbose: false,
        top: 10,
        max_depth: None,
        exclude: Vec::new(),
        follow_symlinks: false,
        no_color: false,
        json: false,
        output: None,
        size_buckets: None,
        age_buckets: None,
        progress: false,
        parallel: false,
        threads: 0,
        find_duplicates: false,
        compare: None,
        cached: false,
        cache_dir: None,
        checkpoint: None,
        resume: None,
        checkpoint_interval: 300,
    }
}

#[test]
fn test_cli_validation_and_defaults() {
    let mut cli = base_cli();
    assert!(cli.validate().is_ok());
    cli.by = String::from("size");
    assert!(cli.validate().is_ok());
    cli.by = String::from("weight");
    let err = cli.validate().unwrap_err();
    assert_eq!(err, "Invalid --by mode: weight. Must be type, size, or age");
    assert_eq!(cli.get_path(), ".");
    cli.path = Some(String::from("/data"));
    assert_eq!(cli.get_path(), "/data");
    assert!(!cli.should_output_json());
    cli.output = Some(String::from("out.json"));
    assert!(cli.should_output_json());
}

#[test]
fn test_color_resolution_priorities() {
    let mut config = SpacemapConfig::default();
    config.extension_colors.push((String::from("rs"), String::from("orange")));
    config.category_colors.push((String::from("Code"), String::from("blue")));
    config.categories.push(CustomCategory {
        name: String::from("Media"),
        extensions: vec![String::from("mp4")],
        color: Some(String::from("purple")),
    });
    let resolver = ColorResolver::new(config);
    let bucket = |key: &str, ph: u64| Bucket {
        key: String::from(key),
        label: String::from(key),
        bytes: 0,
        percent_hundredths: ph,
        file_count: 0,
        color: None,
        representative_extension: None,
    };
    let ext = String::from("rs");
    assert_eq!(
        resolver.resolve_bucket_color(&bucket("Code", 0), Some(&ext)),
        Some(String::from("orange"))
    );
    assert_eq!(
        resolver.resolve_bucket_color(&bucket("Code", 0), None),
        Some(String::from("blue"))
    );
    assert_eq!(
        resolver.resolve_bucket_color(&bucket("Media", 0), None),
        Some(String::from("purple"))
    );
    assert_eq!(
        resolver.resolve_bucket_color(&bucket("Other", 5100), None),
        Some(String::from("red"))
    );
    assert_eq!(
        resolver.resolve_bucket_color(&bucket("Other", 2100), None),
        Some(String::from("yellow"))
    );
    assert_eq!(
        resolver.resolve_bucket_color(&bucket("Other", 100), None),
        Some(String::from("white"))
    );

    let mut plain = SpacemapConfig::default();
    plain.display = DisplayConfig { use_percentage_colors: false };
    let muted = ColorResolver::new(plain);
    assert_eq!(muted.resolve_bucket_color(&bucket("Other", 9000), None), None);
}

#[test]
fn test_percent_and_labels_in_buckets() {
    let mut collector = SinglePassCollector::new(TypeCategorizer::new(), 3, false);
    collector.process_file(meta("/x/a.rs", 250, Some("rs")));
    collector.process_file(meta("/x/b.png", 750, Some("png")));
    let results = collector.finalize(1000);
    assert_eq!(results.buckets.len(), 2);
    assert_eq!(results.buckets[0].key, "Images");
    assert_eq!(results.buckets[0].percent_hundredths, 7500);
    assert_eq!(results.buckets[0].label, "Images");
    assert_eq!(results.buckets[1].key, "Code");
    assert_eq!(results.buckets[1].percent_hundredths, 2500);
}

#[test]
fn test_checkpoint_stats_update() {
    let mut stats = ScanStats::new();
    stats.record_file(42);
    stats.record_dir();
    let mut ckpt = CheckpointStats::new();
    ckpt.update_from_stats(&stats);
    assert_eq!(ckpt.total_bytes, 42);
    assert_eq!(ckpt.file_count, 1);
    assert_eq!(ckpt.dir_count, 1);
}
