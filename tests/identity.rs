use xline_core::identity::{
    calc_cluster_id, calc_member_id, derive_identity, IdentityError, MemberMap,
};
use xline_core::order::{bytes_le, insert_sorted};
use xline_core::server::XlineServer;

fn two_members(first_a: bool) -> MemberMap {
    let mut m = MemberMap::new();
    if first_a {
        m.insert("A".to_string(), "addr1".to_string());
        m.insert("B".to_string(), "addr2".to_string());
    } else {
        m.insert("B".to_string(), "addr2".to_string());
        m.insert("A".to_string(), "addr1".to_string());
    }
    m
}

#[test]
fn identity_known_member_succeeds() {
    let m = two_members(true);
    let r = derive_identity(&"A".to_string(), &m, 1_700_000_000);
    let id = r.expect("A is a member");
    assert_eq!(id.member_id, calc_member_id("addr1", "", 1_700_000_000));
    assert_eq!(id.cluster_id, calc_cluster_id(&["addr1", "addr2"], ""));
}

#[test]
fn identity_unknown_member_fails() {
    let m = two_members(true);
    let r = derive_identity(&"C".to_string(), &m, 1_700_000_000);
    assert_eq!(r, Err(IdentityError::UnknownMember));
}

#[test]
fn identity_is_deterministic() {
    let m = two_members(true);
    let a = derive_identity(&"B".to_string(), &m, 42).unwrap();
    let b = derive_identity(&"B".to_string(), &m, 42).unwrap();
    assert_eq!(a, b);
}

#[test]
fn identity_changes_with_time() {
    let m = two_members(true);
    let a = derive_identity(&"A".to_string(), &m, 1).unwrap();
    let b = derive_identity(&"A".to_string(), &m, 2).unwrap();
    assert_ne!(a.member_id, b.member_id);
    assert_eq!(a.cluster_id, b.cluster_id);
}

#[test]
fn cluster_id_ignores_member_order() {
    let a = derive_identity(&"A".to_string(), &two_members(true), 7).unwrap();
    let b = derive_identity(&"A".to_string(), &two_members(false), 7).unwrap();
    assert_eq!(a.cluster_id, b.cluster_id);
    assert_eq!(
        calc_cluster_id(&["x", "y", "z"], ""),
        calc_cluster_id(&["z", "x", "y"], "")
    );
}

#[test]
fn cluster_id_depends_on_urls() {
    assert_ne!(calc_cluster_id(&["addr1", "addr2"], ""), calc_cluster_id(&["addr1", "addr3"], ""));
    assert_ne!(calc_cluster_id(&["addr1"], ""), calc_cluster_id(&["addr1"], "salt"));
}

#[test]
fn member_id_depends_on_url_and_name() {
    assert_ne!(calc_member_id("addr1", "", 5), calc_member_id("addr2", "", 5));
    assert_ne!(calc_member_id("addr1", "", 5), calc_member_id("addr1", "c", 5));
}

#[test]
fn member_map_insert_replaces() {
    let mut m = two_members(true);
    m.insert("A".to_string(), "addr9".to_string());
    assert_eq!(m.len(), 2);
    assert_eq!(m.get(&"A".to_string()), Some(&"addr9".to_string()));
    assert_eq!(m.get(&"B".to_string()), Some(&"addr2".to_string()));
    assert_eq!(m.get(&"C".to_string()), None);
}

#[test]
fn member_map_without_removes_one() {
    let m = two_members(true);
    let w = m.without(&"A".to_string());
    assert_eq!(w.len(), 1);
    assert_eq!(w.get(&"A".to_string()), None);
    assert_eq!(w.get(&"B".to_string()), Some(&"addr2".to_string()));
    assert_eq!(m.url_list(), vec!["addr1", "addr2"]);
}

#[test]
fn server_new_and_peers() {
    let s = XlineServer::new("A".to_string(), two_members(true), true, 150_000_000, 5, 9).unwrap();
    assert_eq!(s.id(), &"A".to_string());
    assert!(s.is_leader());
    assert_eq!(s.min_ttl_secs(), 2);
    assert_eq!(s.address(), &"addr1".to_string());
    assert_eq!(s.identity(), derive_identity(&"A".to_string(), &two_members(true), 9).unwrap());
    assert_eq!(s.all_members().len(), 2);
    let peers = s.peers();
    assert_eq!(peers.len(), 1);
    assert_eq!(peers.get(&"B".to_string()), Some(&"addr2".to_string()));
    assert_eq!(peers.get(&"A".to_string()), None);
}

#[test]
fn server_new_unknown_member() {
    let r = XlineServer::new("C".to_string(), two_members(true), false, 150_000_000, 5, 9);
    assert!(matches!(r, Err(IdentityError::UnknownMember)));
}

#[test]
fn byte_order_and_insertion() {
    assert!(bytes_le(b"", b""));
    assert!(bytes_le(b"ab", b"abc"));
    assert!(!bytes_le(b"abc", b"ab"));
    assert!(bytes_le(b"abd", b"abe"));
    assert!(!bytes_le(b"b", b"abc"));
    let mut v: Vec<Vec<u8>> = Vec::new();
    for s in [b"m".to_vec(), b"a".to_vec(), b"z".to_vec(), b"a".to_vec(), b"ma".to_vec()] {
        insert_sorted(&mut v, s);
    }
    assert_eq!(v, vec![b"a".to_vec(), b"a".to_vec(), b"m".to_vec(), b"ma".to_vec(), b"z".to_vec()]);
}
