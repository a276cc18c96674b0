use generational_arena::Index;
use ivy_core::resources::{Error, Handle, ResourceCache};

#[test]
fn a_stored_resource_is_read_back_through_its_handle() {
    let mut cache: ResourceCache<String> = ResourceCache::new();
    let a = cache.insert("first".to_string());
    let b = cache.insert("second".to_string());
    assert_eq!(cache.get(a).unwrap(), "first");
    assert_eq!(cache.get(b).unwrap(), "second");
}

#[test]
fn a_resource_is_changed_in_place() {
    let mut cache: ResourceCache<u32> = ResourceCache::new();
    let a = cache.insert(1);
    let b = cache.insert(2);
    *cache.get_mut(a).unwrap() += 10;
    assert_eq!(*cache.get(a).unwrap(), 11);
    assert_eq!(*cache.get(b).unwrap(), 2);
}

#[test]
fn a_foreign_handle_is_invalid() {
    let mut cache: ResourceCache<u32> = ResourceCache::new();
    let _ = cache.insert(5);
    let foreign: Handle<u32> = Handle::from_index(Index::from_raw_parts(7, 0));
    assert!(matches!(cache.get(foreign), Err(Error::InvalidHandle)));
    assert!(matches!(cache.get_mut(foreign), Err(Error::InvalidHandle)));
}

#[test]
fn an_empty_cache_has_no_resource() {
    let cache: ResourceCache<u8> = ResourceCache::new();
    let handle: Handle<u8> = Handle::from_index(Index::from_raw_parts(0, 0));
    assert!(matches!(cache.get(handle), Err(Error::InvalidHandle)));
}

#[test]
fn handles_convert_to_and_from_indices() {
    let idx = Index::from_raw_parts(3, 4);
    let handle: Handle<u8> = Handle::from_index(idx);
    let copy = handle;
    assert_eq!(copy.into_index(), idx);
    assert_eq!(handle.clone().into_index(), idx);
}

#[test]
fn handles_compare_by_index() {
    let mut cache: ResourceCache<u8> = ResourceCache::new();
    let a = cache.insert(1);
    let b = cache.insert(2);
    assert!(a != b);
    assert!(a == a.clone());
    let again: Handle<u8> = Handle::from(a.into_index());
    assert!(again == a);
    assert_eq!(*cache.get(again).unwrap(), 1);
}
