use std::collections::hash_map::DefaultHasher;
use std::hash::Hasher;
use vstd::prelude::*;
use vstd::slice::slice_to_vec;
use vstd::std_specs::hash::DefaultHasherAdditionalSpecFns;
use vstd::utf8::encode_utf8;

use crate::order::{
    insert_sorted, lemma_lex_total_ordering, lemma_sorted_is_sort_by, lex_le, lex_order,
    sorted_lex, views,
};

verus! {

broadcast use vstd::seq_lib::group_to_multiset_ensures;

/// One cluster member: its name and the URL it advertises.
pub struct Member {
    pub name: String,
    pub url: String,
}

/// The cluster's members, keyed by name.
pub struct MemberMap {
    entries: Vec<Member>,
}

/// The URL registered under `name`, if any. Names are unique in a
/// well-formed map, so the entry chosen is the only one.
pub open spec fn lookup(s: Seq<(Seq<char>, Seq<char>)>, name: Seq<char>) -> Option<Seq<char>> {
    if exists|k: int| 0 <= k < s.len() && s[k].0 == name {
        Some(s[choose|k: int| 0 <= k < s.len() && s[k].0 == name].1)
    } else {
        None
    }
}

/// No two entries share a name.
pub open spec fn names_unique(s: Seq<(Seq<char>, Seq<char>)>) -> bool {
    forall|i: int, j: int| 0 <= i < s.len() && 0 <= j < s.len() && i != j ==> s[i].0 != s[j].0
}

impl View for MemberMap {
    type V = Seq<(Seq<char>, Seq<char>)>;

    closed spec fn view(&self) -> Seq<(Seq<char>, Seq<char>)> {
        Seq::new(self.entries@.len(), |i: int| (self.entries@[i].name@, self.entries@[i].url@))
    }
}

impl MemberMap {
    pub open spec fn wf(&self) -> bool {
        names_unique(self@)
    }

    /// An empty member map.
    pub fn new() -> (r: MemberMap)
        ensures
            r.wf(),
            r@ == Seq::<(Seq<char>, Seq<char>)>::empty(),
    {
        let r = MemberMap { entries: Vec::new() };
        assert(r@ =~= Seq::<(Seq<char>, Seq<char>)>::empty());
        r
    }

    /// Number of members.
    pub fn len(&self) -> (r: usize)
        ensures
            r == self@.len(),
    {
        self.entries.len()
    }

    /// The URLs of all members, in map order.
    pub fn url_list(&self) -> (r: Vec<&str>)
        ensures
            url_bytes(r@) == member_url_bytes(self@),
    {
        let mut out: Vec<&str> = Vec::new();
        let mut i: usize = 0;
        while i < self.entries.len()
            invariant
                i <= self@.len(),
                out@.len() == i,
                forall|k: int| 0 <= k < i ==> #[trigger] out@[k]@ == self@[k].1,
            decreases self@.len() - i,
        {
            out.push(self.entries[i].url.as_str());
            i = i + 1;
        }
        assert(url_bytes(out@) =~= member_url_bytes(self@));
        out
    }

    /// The same members without the one named `name`.
    pub fn without(&self, name: &String) -> (r: MemberMap)
        requires
            self.wf(),
        ensures
            r.wf(),
            lookup(r@, name@) is None,
            forall|n: Seq<char>| n != name@ ==> lookup(r@, n) == lookup(self@, n),
    {
        let mut r = MemberMap::new();
        let mut i: usize = 0;
        assert(self@.take(0) =~= Seq::<(Seq<char>, Seq<char>)>::empty());
        while i < self.entries.len()
            invariant
                i <= self@.len(),
                self.wf(),
                r.wf(),
                lookup(r@, name@) is None,
                forall|n: Seq<char>| n != name@ ==> lookup(r@, n) == lookup(self@.take(i as int), n),
            decreases self@.len() - i,
        {
            let ghost pre = self@.take(i as int);
            let ghost e = self@[i as int];
            proof {
                assert(self@.take(i + 1) =~= pre.push(e));
                assert(names_unique(pre.push(e)));
                assert forall|n: Seq<char>| lookup(self@.take(i + 1), n)
                    == if e.0 == n { Some(e.1) } else { lookup(pre, n) } by {
                    lemma_lookup_push(pre, e, n);
                }
            }
            if !self.entries[i].name.eq(name) {
                r.insert(self.entries[i].name.clone(), self.entries[i].url.clone());
            }
            i = i + 1;
        }
        assert(self@.take(i as int) =~= self@);
        r
    }

    /// Position of the entry named `name`, if there is one.
    fn position(&self, name: &String) -> (r: Option<usize>)
        ensures
            match r {
                Some(i) => i < self@.len() && self@[i as int].0 == name@,
                None => forall|k: int| 0 <= k < self@.len() ==> self@[k].0 != name@,
            },
    {
        let mut i: usize = 0;
        while i < self.entries.len()
            invariant
                i <= self@.len(),
                forall|k: int| 0 <= k < i ==> self@[k].0 != name@,
            decreases self@.len() - i,
        {
            if self.entries[i].name.eq(name) {
                return Some(i);
            }
            i = i + 1;
        }
        None
    }

    /// The URL of the member named `name`.
    pub fn get(&self, name: &String) -> (r: Option<&String>)
        requires
            self.wf(),
        ensures
            match r {
                Some(u) => lookup(self@, name@) == Some(u@),
                None => lookup(self@, name@) is None,
            },
    {
        match self.position(name) {
            Some(i) => {
                assert(exists|k: int| 0 <= k < self@.len() && self@[k].0 == name@);
                Some(&self.entries[i].url)
            },
            None => None,
        }
    }

    /// Sets the URL of the member `name`, adding the member if it is new.
    pub fn insert(&mut self, name: String, url: String)
        requires
            old(self).wf(),
        ensures
            final(self).wf(),
            lookup(final(self)@, name@) == Some(url@),
            forall|n: Seq<char>| n != name@ ==> lookup(final(self)@, n) == lookup(old(self)@, n),
    {
        let ghost s = self@;
        let ghost nv = name@;
        let ghost uv = url@;
        match self.position(&name) {
            Some(i) => {
                self.entries.set(i, Member { name, url });
                assert(self@ =~= s.update(i as int, (nv, uv)));
                assert(self@[i as int].0 == nv);
            },
            None => {
                self.entries.push(Member { name, url });
                assert(self@ =~= s.push((nv, uv)));
                assert(self@[s.len() as int].0 == nv);
            },
        }
        let ghost t = self@;
        assert(exists|k: int| 0 <= k < t.len() && t[k].0 == nv);
        assert forall|n: Seq<char>| n != nv implies lookup(t, n) == lookup(s, n) by {
            if exists|k: int| 0 <= k < s.len() && s[k].0 == n {
                let k = choose|k: int| 0 <= k < s.len() && s[k].0 == n;
                assert(t[k] == s[k]);
            }
            if exists|k: int| 0 <= k < t.len() && t[k].0 == n {
                let k = choose|k: int| 0 <= k < t.len() && t[k].0 == n;
                assert(s[k] == t[k]);
            }
        }
    }
}

/// Looking up in a map with one more entry at the end.
pub proof fn lemma_lookup_push(s: Seq<(Seq<char>, Seq<char>)>, e: (Seq<char>, Seq<char>), n: Seq<char>)
    requires
        names_unique(s.push(e)),
    ensures
        lookup(s.push(e), n) == if e.0 == n { Some(e.1) } else { lookup(s, n) },
{
    let t = s.push(e);
    if e.0 == n {
        assert(t[s.len() as int].0 == n);
        let k = choose|k: int| 0 <= k < t.len() && t[k].0 == n;
        assert(k == s.len());
        assert(lookup(t, n) == Some(t[k].1));
    } else {
        if exists|k: int| 0 <= k < s.len() && s[k].0 == n {
            let j = choose|k: int| 0 <= k < s.len() && s[k].0 == n;
            assert(t[j] == s[j]);
            let k = choose|k: int| 0 <= k < t.len() && t[k].0 == n;
            assert(k == j);
            assert(lookup(t, n) == Some(t[k].1));
            assert forall|k: int| 0 <= k < s.len() && #[trigger] s[k].0 == n implies k == j by {
                assert(t[k] == s[k]);
            }
            assert(lookup(s, n) == Some(s[j].1));
        }
        if exists|k: int| 0 <= k < t.len() && t[k].0 == n {
            let k = choose|k: int| 0 <= k < t.len() && t[k].0 == n;
            assert(k < s.len());
            assert(s[k] == t[k]);
        }
    }
}

/// Little-endian bytes of `n`, `k` of them.
pub open spec fn le_bytes(n: nat, k: nat) -> Seq<u8>
    decreases k,
{
    if k == 0 {
        Seq::empty()
    } else {
        seq![(n % 256) as u8] + le_bytes(n / 256, (k - 1) as nat)
    }
}

/// What the member id hashes: the URL, the cluster name and the time, in
/// that order.
pub open spec fn member_hash_input(url: Seq<char>, cluster_name: Seq<char>, now: u64) -> Seq<Seq<u8>> {
    seq![encode_utf8(url), encode_utf8(cluster_name), le_bytes(now as nat, 8)]
}

pub open spec fn member_id_spec(url: Seq<char>, cluster_name: Seq<char>, now: u64) -> u64 {
    DefaultHasher::spec_finish(member_hash_input(url, cluster_name, now))
}

/// What the cluster id hashes: the member URLs in lexicographic byte order,
/// then the cluster name.
pub open spec fn cluster_hash_input(urls: Seq<Seq<u8>>, cluster_name: Seq<char>) -> Seq<Seq<u8>> {
    urls.sort_by(lex_order()).push(encode_utf8(cluster_name))
}

pub open spec fn cluster_id_spec(urls: Seq<Seq<u8>>, cluster_name: Seq<char>) -> u64 {
    DefaultHasher::spec_finish(cluster_hash_input(urls, cluster_name))
}

/// The UTF-8 bytes of each URL.
pub open spec fn url_bytes(urls: Seq<&str>) -> Seq<Seq<u8>> {
    Seq::new(urls.len(), |i: int| encode_utf8(urls[i]@))
}

/// The UTF-8 bytes of each member's URL, in map order.
pub open spec fn member_url_bytes(s: Seq<(Seq<char>, Seq<char>)>) -> Seq<Seq<u8>> {
    Seq::new(s.len(), |i: int| encode_utf8(s[i].1))
}

/// Eight little-endian bytes of `n`.
fn u64_le_bytes(n: u64) -> (r: Vec<u8>)
    ensures
        r@ == le_bytes(n as nat, 8),
{
    let mut out: Vec<u8> = Vec::new();
    let mut x: u64 = n;
    let mut i: usize = 0;
    while i < 8
        invariant
            i <= 8,
            out@ + le_bytes(x as nat, (8 - i) as nat) == le_bytes(n as nat, 8),
        decreases 8 - i,
    {
        let ghost before = out@;
        let b: u8 = (x % 256) as u8;
        assert(le_bytes(x as nat, (8 - i) as nat) == seq![b] + le_bytes((x / 256) as nat, (8 - i - 1) as nat));
        out.push(b);
        assert(before + (seq![b] + le_bytes((x / 256) as nat, (8 - i - 1) as nat))
            =~= out@ + le_bytes((x / 256) as nat, (8 - i - 1) as nat));
        x = x / 256;
        i = i + 1;
    }
    assert(out@ + le_bytes(x as nat, 0) =~= out@);
    out
}

/// Member id: a hash of the member's URL, the cluster name and a time stamp.
pub fn calc_member_id(peer_url: &str, cluster_name: &str, now: u64) -> (r: u64)
    ensures
        r == member_id_spec(peer_url@, cluster_name@, now),
{
    let mut hasher = DefaultHasher::new();
    hasher.write(peer_url.as_bytes());
    hasher.write(cluster_name.as_bytes());
    let stamp = u64_le_bytes(now);
    hasher.write(stamp.as_slice());
    assert(hasher@ =~= member_hash_input(peer_url@, cluster_name@, now));
    hasher.finish()
}

/// Cluster id: a hash of every member URL, taken in lexicographic byte
/// order so that the order in which members are listed does not matter,
/// followed by the cluster name.
pub fn calc_cluster_id(member_urls: &[&str], cluster_name: &str) -> (r: u64)
    ensures
        r == cluster_id_spec(url_bytes(member_urls@), cluster_name@),
{
    let ghost all = url_bytes(member_urls@);
    let mut sorted: Vec<Vec<u8>> = Vec::new();
    let mut i: usize = 0;
    assert(views(sorted@).to_multiset() =~= all.subrange(0, 0).to_multiset());
    while i < member_urls.len()
        invariant
            i <= member_urls@.len(),
            all == url_bytes(member_urls@),
            sorted_lex(views(sorted@)),
            views(sorted@).to_multiset() == all.subrange(0, i as int).to_multiset(),
        decreases member_urls@.len() - i,
    {
        let b = slice_to_vec(member_urls[i].as_bytes());
        insert_sorted(&mut sorted, b);
        assert(all.subrange(0, i + 1) =~= all.subrange(0, i as int).push(all[i as int]));
        i = i + 1;
    }
    assert(all.subrange(0, i as int) =~= all);
    proof {
        lemma_sorted_is_sort_by(views(sorted@), all);
    }
    let mut hasher = DefaultHasher::new();
    let mut j: usize = 0;
    while j < sorted.len()
        invariant
            j <= sorted@.len(),
            hasher@ == views(sorted@).subrange(0, j as int),
        decreases sorted@.len() - j,
    {
        hasher.write(sorted[j].as_slice());
        assert(views(sorted@).subrange(0, j + 1) =~= views(sorted@).subrange(0, j as int).push(sorted@[j as int]@));
        j = j + 1;
    }
    hasher.write(cluster_name.as_bytes());
    assert(hasher@ =~= cluster_hash_input(all, cluster_name@));
    hasher.finish()
}

/// The identity of a node: its own id and the id of its cluster.
#[derive(Clone, Copy, Debug, PartialEq, Eq, Structural)]
pub struct NodeIdentity {
    pub member_id: u64,
    pub cluster_id: u64,
}

/// Why a node identity cannot be derived.
#[derive(Clone, Copy, Debug, PartialEq, Eq, Structural)]
pub enum IdentityError {
    /// The node's own name is not in the member map, so its address is unknown.
    UnknownMember,
}

/// The identity of the node whose advertised URL is `url`, in the cluster
/// whose members are `members`, stamped at `now`. The cluster name is empty.
pub open spec fn identity_spec(url: Seq<char>, members: Seq<(Seq<char>, Seq<char>)>, now: u64) -> NodeIdentity {
    NodeIdentity {
        member_id: member_id_spec(url, Seq::empty(), now),
        cluster_id: cluster_id_spec(member_url_bytes(members), Seq::empty()),
    }
}

/// The result of deriving the identity of the node `name`.
pub open spec fn derive_identity_spec(name: Seq<char>, members: Seq<(Seq<char>, Seq<char>)>, now: u64) -> Result<NodeIdentity, IdentityError> {
    match lookup(members, name) {
        Some(url) => Ok(identity_spec(url, members, now)),
        None => Err(IdentityError::UnknownMember),
    }
}

/// Derives the identity of the node `name` from the member map and the
/// time `now` (seconds since the Unix epoch). Fails when `name` has no
/// entry in the map.
pub fn derive_identity(name: &String, members: &MemberMap, now: u64) -> (r: Result<NodeIdentity, IdentityError>)
    requires
        members.wf(),
    ensures
        r == derive_identity_spec(name@, members@, now),
{
    let url = match members.get(name) {
        Some(u) => u,
        None => return Err(IdentityError::UnknownMember),
    };
    proof {
        reveal_strlit("");
    }
    let member_id = calc_member_id(url.as_str(), "", now);
    let urls = members.url_list();
    let cluster_id = calc_cluster_id(urls.as_slice(), "");
    Ok(NodeIdentity { member_id, cluster_id })
}

/// The cluster id depends on the multiset of member URLs alone, not on the
/// order in which they are listed.
pub proof fn lemma_cluster_id_order_free(u1: Seq<Seq<u8>>, u2: Seq<Seq<u8>>, cluster_name: Seq<char>)
    requires
        u1.to_multiset() == u2.to_multiset(),
    ensures
        cluster_id_spec(u1, cluster_name) == cluster_id_spec(u2, cluster_name),
{
    lemma_lex_total_ordering();
    u1.lemma_sort_by_ensures(lex_order());
    let s = u1.sort_by(lex_order());
    assert forall|i: int, j: int| 0 <= i < j < s.len() implies #[trigger] lex_le(s[i], s[j]) by {
        assert(lex_order()(s[i], s[j]));
    }
    lemma_sorted_is_sort_by(s, u2);
}

/// Reordering the entries of a member map keeps the multiset of its URLs.
pub proof fn lemma_member_urls_multiset(s1: Seq<(Seq<char>, Seq<char>)>, s2: Seq<(Seq<char>, Seq<char>)>)
    requires
        s1.to_multiset() == s2.to_multiset(),
    ensures
        member_url_bytes(s1).to_multiset() == member_url_bytes(s2).to_multiset(),
    decreases s1.len(),
{
    assert(s1.to_multiset().len() == s1.len());
    assert(s2.to_multiset().len() == s2.len());
    if s1.len() == 0 {
        assert(member_url_bytes(s1) =~= member_url_bytes(s2));
    } else {
        let x = s1.last();
        let r1 = s1.drop_last();
        assert(s1 =~= r1.push(x));
        assert(s1.to_multiset() =~= r1.to_multiset().insert(x));
        assert(s2.to_multiset().count(x) > 0);
        assert(s2.contains(x));
        let j = choose|j: int| 0 <= j < s2.len() && s2[j] == x;
        let r2 = s2.remove(j);
        assert(r2.to_multiset() =~= s2.to_multiset().remove(x));
        assert(r1.to_multiset() =~= r2.to_multiset());
        lemma_member_urls_multiset(r1, r2);
        let e = encode_utf8(x.1);
        assert(member_url_bytes(s1) =~= member_url_bytes(r1).push(e));
        assert(member_url_bytes(r2) =~= member_url_bytes(s2).remove(j));
        assert(member_url_bytes(s2)[j] == e);
        assert(member_url_bytes(r2).to_multiset() =~= member_url_bytes(s2).to_multiset().remove(e));
        assert(member_url_bytes(s2).to_multiset().count(e) > 0);
        assert(member_url_bytes(s1).to_multiset() =~= member_url_bytes(s2).to_multiset());
    }
}

/// Identity derivation depends only on the contents of the member map: two
/// maps that list the same entries in any order give the same result for
/// the same node name and time. In particular, the same inputs always give
/// the same identity.
pub proof fn lemma_identity_order_free(
    m1: Seq<(Seq<char>, Seq<char>)>,
    m2: Seq<(Seq<char>, Seq<char>)>,
    name: Seq<char>,
    now: u64,
)
    requires
        names_unique(m1),
        m1.to_multiset() == m2.to_multiset(),
    ensures
        derive_identity_spec(name, m1, now) == derive_identity_spec(name, m2, now),
{
    if exists|k: int| 0 <= k < m1.len() && m1[k].0 == name {
        let k = choose|k: int| 0 <= k < m1.len() && m1[k].0 == name;
        assert(m1.to_multiset().count(m1[k]) > 0);
        assert(m2.contains(m1[k]));
        let w = choose|w: int| 0 <= w < m2.len() && m2[w] == m1[k];
        assert(m2[w].0 == name);
        assert(exists|c: int| 0 <= c < m2.len() && m2[c].0 == name);
        assert forall|c: int| 0 <= c < m2.len() && #[trigger] m2[c].0 == name implies m2[c] == m1[k] by {
            assert(m2.to_multiset().count(m2[c]) > 0);
            assert(m1.contains(m2[c]));
            let d = choose|d: int| 0 <= d < m1.len() && m1[d] == m2[c];
            assert(d == k);
        }
        assert(lookup(m1, name) == Some(m1[k].1));
        assert(lookup(m2, name) == Some(m1[k].1));
    } else {
        if exists|c: int| 0 <= c < m2.len() && m2[c].0 == name {
            let c = choose|k: int| 0 <= k < m2.len() && m2[k].0 == name;
            assert(m2.to_multiset().count(m2[c]) > 0);
            assert(m1.contains(m2[c]));
        }
        assert(lookup(m1, name) == lookup(m2, name));
    }
    lemma_member_urls_multiset(m1, m2);
    lemma_cluster_id_order_free(member_url_bytes(m1), member_url_bytes(m2), Seq::empty());
}

/// `256` to the power `k`.
pub open spec fn pow256(k: nat) -> nat
    decreases k,
{
    if k == 0 {
        1
    } else {
        256 * pow256((k - 1) as nat)
    }
}

proof fn lemma_le_bytes_injective(a: nat, b: nat, k: nat)
    requires
        a < pow256(k),
        b < pow256(k),
        le_bytes(a, k) == le_bytes(b, k),
    ensures
        a == b,
    decreases k,
{
    if k > 0 {
        let p = pow256((k - 1) as nat);
        assert(le_bytes(a, k)[0] == (a % 256) as u8);
        assert(le_bytes(b, k)[0] == (b % 256) as u8);
        assert(a % 256 == b % 256);
        assert(le_bytes(a, k).drop_first() =~= le_bytes(a / 256, (k - 1) as nat));
        assert(le_bytes(b, k).drop_first() =~= le_bytes(b / 256, (k - 1) as nat));
        assert(a / 256 < p) by (nonlinear_arith)
            requires a < 256 * p;
        assert(b / 256 < p) by (nonlinear_arith)
            requires b < 256 * p;
        lemma_le_bytes_injective(a / 256, b / 256, (k - 1) as nat);
        assert(a == 256 * (a / 256) + a % 256);
        assert(b == 256 * (b / 256) + b % 256);
    }
}

/// The time stamp reaches the member id: two different times give two
/// different hash inputs for the same URL and cluster name. (Whether the
/// hashes themselves differ is up to the hash function.)
pub proof fn lemma_member_input_depends_on_time(url: Seq<char>, cluster_name: Seq<char>, t1: u64, t2: u64)
    requires
        t1 != t2,
    ensures
        member_hash_input(url, cluster_name, t1) != member_hash_input(url, cluster_name, t2),
{
    assert(pow256(8) == 0x1_0000_0000_0000_0000) by {
        reveal_with_fuel(pow256, 9);
    }
    if member_hash_input(url, cluster_name, t1) == member_hash_input(url, cluster_name, t2) {
        assert(member_hash_input(url, cluster_name, t1)[2] == le_bytes(t1 as nat, 8));
        assert(member_hash_input(url, cluster_name, t2)[2] == le_bytes(t2 as nat, 8));
        lemma_le_bytes_injective(t1 as nat, t2 as nat, 8);
    }
}

} // verus!
