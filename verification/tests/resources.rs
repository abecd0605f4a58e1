use astra::resources::ResourceManager;

#[test]
fn test_allocate_returns_unique_ids() {
    let mut rm = ResourceManager::new();
    let id1 = rm.allocate("http://example.com", vec![0u8; 100]);
    let id2 = rm.allocate("http://example.com", vec![0u8; 100]);
    assert_ne!(id1, id2);
}

#[test]
fn test_page_count_tracks_allocations() {
    let mut rm = ResourceManager::new();
    assert_eq!(rm.page_count(), 0);
    let id = rm.allocate("http://a.com", vec![1, 2, 3]);
    assert_eq!(rm.page_count(), 1);
    rm.release(&id);
    assert_eq!(rm.page_count(), 0);
}

#[test]
fn test_total_memory_bytes() {
    let mut rm = ResourceManager::new();
    rm.allocate("http://a.com", vec![0u8; 200]);
    rm.allocate("http://b.com", vec![0u8; 300]);
    assert_eq!(rm.total_memory_bytes(), 500);
}

#[test]
fn test_release_all_clears_resources() {
    let mut rm = ResourceManager::new();
    rm.allocate("http://a.com", vec![0u8; 100]);
    rm.allocate("http://b.com", vec![0u8; 100]);
    rm.release_all();
    assert_eq!(rm.page_count(), 0);
    assert_eq!(rm.total_memory_bytes(), 0);
}

#[test]
fn test_get_returns_correct_resources() {
    let mut rm = ResourceManager::new();
    let id = rm.allocate("http://example.com", vec![1, 2, 3]);
    let res = rm.get(&id).unwrap();
    assert_eq!(res.url, "http://example.com");
    assert_eq!(res.pixel_buffer, vec![1, 2, 3]);
}

#[test]
fn test_get_unknown_id_returns_none() {
    let rm = ResourceManager::new();
    assert!(rm.get("nonexistent").is_none());
}

#[test]
fn test_resource_isolation() {
    let mut rm = ResourceManager::new();
    let id1 = rm.allocate("http://a.com", vec![1, 2, 3]);
    let id2 = rm.allocate("http://b.com", vec![4, 5, 6]);
    assert_eq!(rm.get(&id1).unwrap().pixel_buffer, vec![1, 2, 3]);
    assert_eq!(rm.get(&id2).unwrap().pixel_buffer, vec![4, 5, 6]);
    rm.release(&id1);
    assert!(rm.get(&id1).is_none());
    assert!(rm.get(&id2).is_some());
}

#[test]
fn ids_are_url_dash_counter() {
    let mut rm = ResourceManager::new();
    assert_eq!(rm.allocate("page", vec![]), "page-0");
    assert_eq!(rm.allocate("page", vec![]), "page-1");
    for _ in 0..8 {
        rm.allocate("x", vec![]);
    }
    assert_eq!(rm.allocate("a-1", vec![]), "a-1-10");
    assert_eq!(rm.page_count(), 11);
}

#[test]
fn release_takes_pixels_off_the_total() {
    let mut rm = ResourceManager::new();
    let a = rm.allocate("a", vec![0u8; 7]);
    rm.allocate("b", vec![0u8; 5]);
    rm.release(&a);
    assert_eq!(rm.total_memory_bytes(), 5);
    rm.release("missing");
    assert_eq!(rm.page_count(), 1);
}
