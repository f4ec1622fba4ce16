use atc::registry::SocketRegistry;

#[test]
fn registrations_add_replace_and_remove() {
    let mut r: SocketRegistry<u32> = SocketRegistry::new();
    assert!(r.channel_ids().is_empty());
    r.register("b".into(), Some(1));
    r.register("a".into(), Some(2));
    assert_eq!(r.channel_ids(), vec!["a".to_string(), "b".to_string()]);
    assert_eq!(r.get(&"b".to_string()), Some(&1));
    r.register("b".into(), Some(3));
    assert_eq!(r.get(&"b".to_string()), Some(&3));
    r.register("a".into(), None);
    assert_eq!(r.get(&"a".to_string()), None);
    assert_eq!(r.channel_ids(), vec!["b".to_string()]);
    // removing an id that is not there changes nothing
    r.register("zz".into(), None);
    assert_eq!(r.channel_ids(), vec!["b".to_string()]);
}
