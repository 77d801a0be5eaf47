use spacemap::bounded_heap::BoundedMinHeap;
use spacemap::categorize::TypeCategorizer;
use spacemap::collector::SinglePassCollector;
use spacemap::duplicates::{ContentHasher, DuplicateFinder};
use spacemap::path_pool::PathPool;
use spacemap::sharded_collector::ShardedCollector;
use spacemap::types::FileMetadata;
use std::collections::HashMap;

#[test]
fn test_bounded_heap_basic() {
    let mut heap: BoundedMinHeap<u64> = BoundedMinHeap::new(3);

    heap.push(5);
    heap.push(2);
    heap.push(8);

    let sorted = heap.into_sorted_vec();
    assert_eq!(sorted, vec![8, 5, 2]);
}

#[test]
fn test_bounded_heap_eviction() {
    let mut heap: BoundedMinHeap<u64> = BoundedMinHeap::new(3);

    // Fill heap with [5, 2, 8]
    heap.push(5);
    heap.push(2);
    heap.push(8);

    // Push 10 - should evict 2 (smallest)
    heap.push(10);

    let sorted = heap.into_sorted_vec();
    assert_eq!(sorted, vec![10, 8, 5]);
}

#[test]
fn test_bounded_heap_no_eviction_if_smaller() {
    let mut heap: BoundedMinHeap<u64> = BoundedMinHeap::new(3);

    heap.push(5);
    heap.push(8);
    heap.push(10);

    // Push 1 - should be ignored (smaller than min)
    heap.push(1);

    let sorted = heap.into_sorted_vec();
    assert_eq!(sorted, vec![10, 8, 5]);
}

#[test]
fn test_bounded_heap_capacity() {
    let mut heap: BoundedMinHeap<u64> = BoundedMinHeap::new(5);

    for i in 0..100 {
        heap.push(i);
    }

    assert_eq!(heap.len(), 5);

    let sorted = heap.into_sorted_vec();
    assert_eq!(sorted, vec![99, 98, 97, 96, 95]);
}

#[test]
fn test_bounded_heap_empty() {
    let heap: BoundedMinHeap<u64> = BoundedMinHeap::new(10);
    assert!(heap.is_empty());
    assert_eq!(heap.len(), 0);

    let sorted = heap.into_sorted_vec();
    assert_eq!(sorted, Vec::<u64>::new());
}

#[test]
fn test_bounded_heap_single_item() {
    let mut heap: BoundedMinHeap<u64> = BoundedMinHeap::new(5);
    heap.push(42);

    assert_eq!(heap.len(), 1);

    let sorted = heap.into_sorted_vec();
    assert_eq!(sorted, vec![42]);
}

#[test]
fn test_path_pool_basic() {
    let mut pool = PathPool::new();

    let path1 = String::from("/home/user/dir1");
    let path2 = String::from("/home/user/dir2");

    let id1 = pool.intern(&path1);
    let id2 = pool.intern(&path2);

    assert_eq!(id1, 0);
    assert_eq!(id2, 1);
    assert_eq!(pool.len(), 2);

    assert_eq!(pool.get(id1), Some(&path1));
    assert_eq!(pool.get(id2), Some(&path2));
}

#[test]
fn test_path_pool_deduplication() {
    let mut pool = PathPool::new();

    let path = String::from("/home/user/dir");

    let id1 = pool.intern(&path);
    let id2 = pool.intern(&path);

    // Same path should get same ID
    assert_eq!(id1, id2);
    // Should only store path once
    assert_eq!(pool.len(), 1);
}

#[test]
fn test_path_pool_memory_efficiency() {
    let mut pool = PathPool::new();

    // Simulate deep directory tree with shared prefixes
    let base = String::from("/very/long/path/prefix");

    for i in 0..100 {
        let path = format!("{}/subdir{}", base, i);
        pool.intern(&path);
    }

    assert_eq!(pool.len(), 100);

    // Verify all paths are retrievable
    for i in 0..100u32 {
        let expected = format!("{}/subdir{}", base, i);
        assert_eq!(pool.get(i), Some(&expected));
    }
}

fn create_test_metadata(path: &str, size: u64, ext: Option<&str>) -> FileMetadata {
    FileMetadata {
        path: String::from(path),
        size,
        extension: ext.map(String::from),
        age_days: None,
    }
}

#[test]
fn test_single_pass_collector_basic() {
    let categorizer = TypeCategorizer::new();
    let mut collector = SinglePassCollector::new(categorizer, 3, true);

    collector.process_file(create_test_metadata("/test/file1.rs", 100, Some("rs")));
    collector.process_file(create_test_metadata("/test/file2.py", 200, Some("py")));
    collector.process_file(create_test_metadata("/test/file3.rs", 150, Some("rs")));

    let results = collector.finalize(450);

    // Should have categorized into "Code"
    assert_eq!(results.buckets.len(), 1);
    assert_eq!(results.buckets[0].key, "Code");
    assert_eq!(results.buckets[0].bytes, 450);
    assert_eq!(results.buckets[0].file_count, 3);

    // Top files should be in descending order
    assert_eq!(results.top_files.len(), 3);
    assert_eq!(results.top_files[0].bytes, 200);
    assert_eq!(results.top_files[1].bytes, 150);
    assert_eq!(results.top_files[2].bytes, 100);
}

#[test]
fn test_single_pass_collector_bounded_top_files() {
    let categorizer = TypeCategorizer::new();
    let mut collector = SinglePassCollector::new(categorizer, 2, true);

    // Add 5 files, but only top 2 should be kept
    collector.process_file(create_test_metadata("/test/file1.txt", 100, Some("txt")));
    collector.process_file(create_test_metadata("/test/file2.txt", 500, Some("txt")));
    collector.process_file(create_test_metadata("/test/file3.txt", 200, Some("txt")));
    collector.process_file(create_test_metadata("/test/file4.txt", 50, Some("txt")));
    collector.process_file(create_test_metadata("/test/file5.txt", 300, Some("txt")));

    let results = collector.finalize(1150);

    // Should only have top 2 files
    assert_eq!(results.top_files.len(), 2);
    assert_eq!(results.top_files[0].bytes, 500);
    assert_eq!(results.top_files[1].bytes, 300);
}

#[test]
fn test_single_pass_collector_skip_tops() {
    let categorizer = TypeCategorizer::new();
    let mut collector = SinglePassCollector::new(categorizer, 10, false);

    collector.process_file(create_test_metadata("/test/file1.txt", 100, Some("txt")));
    collector.process_file(create_test_metadata("/test/file2.txt", 200, Some("txt")));

    let results = collector.finalize(300);

    // Buckets should still be created
    assert_eq!(results.buckets.len(), 1);
    assert_eq!(results.buckets[0].file_count, 2);

    // But top files/dirs should be empty
    assert_eq!(results.top_files.len(), 0);
    assert_eq!(results.top_dirs.len(), 0);
}

/// Serves file contents from memory; the full hash is the same digest the
/// quick stage uses, taken over the whole content.
struct MapHasher {
    contents: HashMap<String, Vec<u8>>,
}

impl ContentHasher for MapHasher {
    fn read_prefix(&self, path: &String, limit: usize) -> Option<Vec<u8>> {
        self.contents.get(path).map(|data| {
            let n = data.len().min(limit);
            data[..n].to_vec()
        })
    }

    fn full_hash(&self, path: &String) -> Option<String> {
        self.contents
            .get(path)
            .map(|data| spacemap::duplicates::quick_hash(&data.clone()))
    }
}

#[test]
fn test_duplicate_finder_no_duplicates() {
    let mut finder = DuplicateFinder::new();
    let mut contents = HashMap::new();

    contents.insert(String::from("/tmp/file1"), b"content1".to_vec());
    contents.insert(String::from("/tmp/file2"), b"content2".to_vec());

    finder.add_file(String::from("/tmp/file1"), 8);
    finder.add_file(String::from("/tmp/file2"), 8);

    let hasher = MapHasher { contents };
    let duplicates = finder.find_duplicates(&hasher);
    assert_eq!(duplicates.len(), 0);
}

#[test]
fn test_duplicate_finder_with_duplicates() {
    let mut finder = DuplicateFinder::new();
    let mut contents = HashMap::new();

    contents.insert(String::from("/tmp/file1"), b"same content".to_vec());
    contents.insert(String::from("/tmp/file2"), b"same content".to_vec());

    finder.add_file(String::from("/tmp/file1"), 12);
    finder.add_file(String::from("/tmp/file2"), 12);

    let hasher = MapHasher { contents };
    let duplicates = finder.find_duplicates(&hasher);
    assert_eq!(duplicates.len(), 1);
    assert_eq!(duplicates[0].paths.len(), 2);
    assert_eq!(duplicates[0].wasted_space, 12);
}

#[test]
fn test_sharded_collector_creation() {
    let prototype = TypeCategorizer::new();
    let collector = ShardedCollector::new(4, &prototype, 10, true);

    assert_eq!(collector.num_shards(), 4);
}
