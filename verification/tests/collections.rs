use machinegen::string_map::StringMap;
use machinegen::string_set::StringSet;

fn s(text: &str) -> String {
    text.to_string()
}

#[test]
fn new_set_is_empty() {
    let set = StringSet::new();
    assert_eq!(set.len(), 0);
    assert!(!set.contains(&s("a")));
}

#[test]
fn set_insert_reports_fresh_members_and_keeps_each_once() {
    let mut set = StringSet::new();
    assert!(set.insert(s("b")));
    assert!(set.insert(s("a")));
    assert!(!set.insert(s("b")));
    assert_eq!(set.len(), 2);
    assert!(set.contains(&s("a")));
    assert!(set.contains(&s("b")));
    assert!(!set.contains(&s("c")));
}

#[test]
fn set_keeps_the_order_of_arrival() {
    let mut set = StringSet::new();
    set.insert(s("zeta"));
    set.insert(s("alpha"));
    set.insert(s("zeta"));
    set.insert(s("mid"));
    assert_eq!(set.nth(0), "zeta");
    assert_eq!(set.nth(1), "alpha");
    assert_eq!(set.nth(2), "mid");
}

#[test]
fn new_map_is_empty() {
    let map: StringMap<u32> = StringMap::new();
    assert_eq!(map.len(), 0);
    assert!(!map.contains_key(&s("a")));
    assert_eq!(map.get(&s("a")), None);
    assert_eq!(map.find(&s("a")), None);
}

#[test]
fn map_insert_adds_a_new_key_at_the_end() {
    let mut map: StringMap<u32> = StringMap::new();
    assert_eq!(map.insert(s("one"), 1), None);
    assert_eq!(map.insert(s("two"), 2), None);
    assert_eq!(map.len(), 2);
    assert_eq!(map.key_at(0), "one");
    assert_eq!(map.key_at(1), "two");
    assert_eq!(*map.value_at(0), 1);
    assert_eq!(*map.value_at(1), 2);
    assert_eq!(map.find(&s("two")), Some(1));
    assert_eq!(map.get(&s("one")), Some(&1));
    assert_eq!(*map.at(&s("two")), 2);
    assert!(map.contains_key(&s("one")));
    assert!(!map.contains_key(&s("three")));
}

#[test]
fn map_insert_replaces_in_place_and_hands_back_the_old_value() {
    let mut map: StringMap<u32> = StringMap::new();
    map.insert(s("one"), 1);
    map.insert(s("two"), 2);
    assert_eq!(map.insert(s("one"), 10), Some(1));
    assert_eq!(map.len(), 2);
    assert_eq!(map.key_at(0), "one");
    assert_eq!(map.get(&s("one")), Some(&10));
    assert_eq!(map.get(&s("two")), Some(&2));
}

#[test]
fn add_member_creates_the_group_then_extends_it() {
    let mut groups: StringMap<StringSet> = StringMap::new();
    groups.add_member(&s("net"), s("dns"));
    groups.add_member(&s("disk"), s("size"));
    groups.add_member(&s("net"), s("gateway"));
    groups.add_member(&s("net"), s("dns"));
    assert_eq!(groups.len(), 2);
    assert_eq!(groups.key_at(0), "net");
    assert_eq!(groups.key_at(1), "disk");
    let net = groups.get(&s("net")).unwrap();
    assert_eq!(net.len(), 2);
    assert_eq!(net.nth(0), "dns");
    assert_eq!(net.nth(1), "gateway");
    let disk = groups.get(&s("disk")).unwrap();
    assert_eq!(disk.len(), 1);
    assert!(disk.contains(&s("size")));
}
