//! The link-state registry: two independent directional maps from peer
//! identifiers to opaque link configurations.

use vstd::prelude::*;

verus! {

/// One key/value setting inside a link configuration.
#[derive(Debug)]
pub struct ConfigEntry {
    pub key: String,
    pub value: String,
}

/// The mapping a run of configuration entries denotes; a later entry for
/// the same key wins.
pub open spec fn config_map(s: Seq<ConfigEntry>) -> Map<Seq<char>, Seq<char>>
    decreases s.len(),
{
    if s.len() == 0 {
        Map::empty()
    } else {
        config_map(s.drop_last()).insert(s.last().key@, s.last().value@)
    }
}

/// An opaque set of string-keyed, string-valued settings attached to one
/// link. Values are stored and surfaced, never interpreted.
#[derive(Debug)]
pub struct LinkConfig {
    pub entries: Vec<ConfigEntry>,
}

impl View for LinkConfig {
    type V = Map<Seq<char>, Seq<char>>;

    open spec fn view(&self) -> Map<Seq<char>, Seq<char>> {
        config_map(self.entries@)
    }
}

/// No two entries of the run share a key.
pub open spec fn config_keys_unique(s: Seq<ConfigEntry>) -> bool {
    forall|i: int, j: int| 0 <= i < j < s.len() ==> s[i].key@ != s[j].key@
}

impl LinkConfig {
    /// Well-formed: no two entries share a key.
    pub open spec fn wf(&self) -> bool {
        config_keys_unique(self.entries@)
    }

    /// An empty configuration.
    pub fn new() -> (r: Self)
        ensures
            r.wf(),
            r@ == Map::<Seq<char>, Seq<char>>::empty(),
    {
        LinkConfig { entries: Vec::new() }
    }

    /// Insert or replace one setting.
    pub fn set(&mut self, key: String, value: String)
        requires
            old(self).wf(),
        ensures
            final(self).wf(),
            final(self)@ == old(self)@.insert(key@, value@),
    {
        let idx = find_config_key(&self.entries, &key);
        match idx {
            Some(i) => {
                let ghost oldseq = self.entries@;
                self.entries[i] = ConfigEntry { key, value };
                proof {
                    let e = self.entries@[i as int];
                    lemma_config_map_update(oldseq, i as int, e);
                    assert(forall|p: int|
                        0 <= p < self.entries@.len() ==> self.entries@[p].key@ == oldseq[p].key@);
                }
            }
            None => {
                let ghost oldseq = self.entries@;
                self.entries.push(ConfigEntry { key, value });
                proof {
                    assert(self.entries@.drop_last() =~= oldseq);
                    assert(forall|p: int| 0 <= p < oldseq.len() ==> self.entries@[p] == oldseq[p]);
                }
            }
        }
    }

    /// A deep copy that denotes the same mapping.
    pub fn duplicate(&self) -> (r: Self)
        ensures
            r.entries@ == self.entries@,
            r@ == self@,
            r.wf() <==> self.wf(),
    {
        let mut out: Vec<ConfigEntry> = Vec::new();
        let mut i: usize = 0;
        while i < self.entries.len()
            invariant
                i <= self.entries@.len(),
                out@ == self.entries@.take(i as int),
            decreases self.entries@.len() - i,
        {
            let e = &self.entries[i];
            out.push(ConfigEntry { key: e.key.clone(), value: e.value.clone() });
            proof {
                assert(self.entries@[i as int] == ConfigEntry {
                    key: self.entries@[i as int].key,
                    value: self.entries@[i as int].value,
                });
                assert(out@ =~= self.entries@.take(i + 1 as int));
            }
            i = i + 1;
        }
        proof {
            assert(self.entries@.take(self.entries@.len() as int) =~= self.entries@);
        }
        LinkConfig { entries: out }
    }

    /// Look one setting up.
    pub fn get(&self, key: &String) -> (r: Option<&String>)
        requires
            self.wf(),
        ensures
            match r {
                Some(v) => self@.dom().contains(key@) && v@ == self@[key@],
                None => !self@.dom().contains(key@),
            },
    {
        proof {
            lemma_config_map_dom(self.entries@, key@);
        }
        let idx = find_config_key(&self.entries, key);
        match idx {
            Some(i) => {
                proof {
                    lemma_config_map_get(self.entries@, i as int);
                }
                Some(&self.entries[i].value)
            }
            None => None,
        }
    }
}

/// The index of the entry holding `key`, if any.
fn find_config_key(entries: &Vec<ConfigEntry>, key: &String) -> (r: Option<usize>)
    ensures
        match r {
            Some(i) => i < entries@.len() && entries@[i as int].key@ == key@,
            None => forall|i: int| 0 <= i < entries@.len() ==> entries@[i].key@ != key@,
        },
{
    let mut i: usize = 0;
    while i < entries.len()
        invariant
            i <= entries@.len(),
            forall|j: int| 0 <= j < i ==> entries@[j].key@ != key@,
        decreases entries@.len() - i,
    {
        if entries[i].key == *key {
            return Some(i);
        }
        i = i + 1;
    }
    None
}

/// A key is in the denoted mapping exactly when some entry holds it.
pub proof fn lemma_config_map_dom(s: Seq<ConfigEntry>, k: Seq<char>)
    ensures
        config_map(s).dom().contains(k) <==> (exists|i: int| 0 <= i < s.len() && s[i].key@ == k),
    decreases s.len(),
{
    if s.len() > 0 {
        lemma_config_map_dom(s.drop_last(), k);
        if s.last().key@ == k {
            assert(s[s.len() - 1].key@ == k);
        } else {
            if config_map(s.drop_last()).dom().contains(k) {
                let i = choose|i: int| 0 <= i < s.drop_last().len() && s.drop_last()[i].key@ == k;
                assert(s[i].key@ == k);
            }
            if exists|i: int| 0 <= i < s.len() && s[i].key@ == k {
                let i = choose|i: int| 0 <= i < s.len() && s[i].key@ == k;
                assert(s.drop_last()[i].key@ == k);
            }
        }
    }
}

/// With unique keys, the entry holding a key gives its value in the
/// denoted mapping.
pub proof fn lemma_config_map_get(s: Seq<ConfigEntry>, i: int)
    requires
        0 <= i < s.len(),
        forall|p: int, q: int| 0 <= p < q < s.len() ==> s[p].key@ != s[q].key@,
    ensures
        config_map(s).dom().contains(s[i].key@),
        config_map(s)[s[i].key@] == s[i].value@,
    decreases s.len(),
{
    if i < s.len() - 1 {
        lemma_config_map_get(s.drop_last(), i);
    }
}

/// With unique keys, replacing the entry that holds a key replaces exactly
/// that key's value in the denoted mapping.
pub proof fn lemma_config_map_update(s: Seq<ConfigEntry>, i: int, e: ConfigEntry)
    requires
        0 <= i < s.len(),
        e.key@ == s[i].key@,
        forall|p: int, q: int| 0 <= p < q < s.len() ==> s[p].key@ != s[q].key@,
    ensures
        config_map(s.update(i, e)) =~= config_map(s).insert(e.key@, e.value@),
    decreases s.len(),
{
    if i == s.len() - 1 {
        assert(s.update(i, e).drop_last() =~= s.drop_last());
        assert(s.update(i, e).last() == e);
    } else {
        assert(s.update(i, e).drop_last() =~= s.drop_last().update(i, e));
        assert(s.update(i, e).last() == s.last());
        lemma_config_map_update(s.drop_last(), i, e);
        assert(e.key@ != s.last().key@);
    }
}

/// One link: a peer identifier and the configuration it was linked with.
#[derive(Debug)]
pub struct LinkEntry {
    pub peer_id: String,
    pub config: LinkConfig,
}

/// The peer identifiers of a run of links, in iteration order.
pub open spec fn peer_ids_of(s: Seq<LinkEntry>) -> Seq<Seq<char>> {
    s.map(|i: int, e: LinkEntry| e.peer_id@)
}

/// The mapping a run of links denotes; a later entry for the same peer
/// wins.
pub open spec fn table_map(s: Seq<LinkEntry>) -> Map<Seq<char>, Map<Seq<char>, Seq<char>>>
    decreases s.len(),
{
    if s.len() == 0 {
        Map::empty()
    } else {
        table_map(s.drop_last()).insert(s.last().peer_id@, s.last().config@)
    }
}

/// A peer is in the denoted mapping exactly when some link holds it.
pub proof fn lemma_table_map_dom(s: Seq<LinkEntry>, k: Seq<char>)
    ensures
        table_map(s).dom().contains(k) <==> (exists|i: int| 0 <= i < s.len() && s[i].peer_id@ == k),
    decreases s.len(),
{
    if s.len() > 0 {
        lemma_table_map_dom(s.drop_last(), k);
        if s.last().peer_id@ == k {
            assert(s[s.len() - 1].peer_id@ == k);
        } else {
            if table_map(s.drop_last()).dom().contains(k) {
                let i = choose|i: int| 0 <= i < s.drop_last().len() && s.drop_last()[i].peer_id@ == k;
                assert(s[i].peer_id@ == k);
            }
            if exists|i: int| 0 <= i < s.len() && s[i].peer_id@ == k {
                let i = choose|i: int| 0 <= i < s.len() && s[i].peer_id@ == k;
                assert(s.drop_last()[i].peer_id@ == k);
            }
        }
    }
}

/// With unique peers, the link holding a peer gives its configuration in
/// the denoted mapping.
pub proof fn lemma_table_map_get(s: Seq<LinkEntry>, i: int)
    requires
        0 <= i < s.len(),
        forall|p: int, q: int| 0 <= p < q < s.len() ==> s[p].peer_id@ != s[q].peer_id@,
    ensures
        table_map(s).dom().contains(s[i].peer_id@),
        table_map(s)[s[i].peer_id@] == s[i].config@,
    decreases s.len(),
{
    if i < s.len() - 1 {
        lemma_table_map_get(s.drop_last(), i);
    }
}

/// With unique peers, replacing the link that holds a peer replaces
/// exactly that peer's configuration in the denoted mapping.
pub proof fn lemma_table_map_update(s: Seq<LinkEntry>, i: int, e: LinkEntry)
    requires
        0 <= i < s.len(),
        e.peer_id@ == s[i].peer_id@,
        forall|p: int, q: int| 0 <= p < q < s.len() ==> s[p].peer_id@ != s[q].peer_id@,
    ensures
        table_map(s.update(i, e)) =~= table_map(s).insert(e.peer_id@, e.config@),
    decreases s.len(),
{
    if i == s.len() - 1 {
        assert(s.update(i, e).drop_last() =~= s.drop_last());
        assert(s.update(i, e).last() == e);
    } else {
        assert(s.update(i, e).drop_last() =~= s.drop_last().update(i, e));
        assert(s.update(i, e).last() == s.last());
        lemma_table_map_update(s.drop_last(), i, e);
        assert(e.peer_id@ != s.last().peer_id@);
    }
}

/// With unique peers, deleting the link that holds a peer deletes exactly
/// that peer from the denoted mapping.
pub proof fn lemma_table_map_remove(s: Seq<LinkEntry>, i: int)
    requires
        0 <= i < s.len(),
        forall|p: int, q: int| 0 <= p < q < s.len() ==> s[p].peer_id@ != s[q].peer_id@,
    ensures
        table_map(s.remove(i)) =~= table_map(s).remove(s[i].peer_id@),
    decreases s.len(),
{
    if i == s.len() - 1 {
        assert(s.remove(i) =~= s.drop_last());
        lemma_table_map_dom(s.drop_last(), s[i].peer_id@);
        assert(forall|p: int|
            0 <= p < s.drop_last().len() ==> s.drop_last()[p].peer_id@ != s[i].peer_id@);
    } else {
        assert(s.remove(i).last() == s.last());
        assert(s.remove(i).drop_last() =~= s.drop_last().remove(i));
        lemma_table_map_remove(s.drop_last(), i);
        assert(s[i].peer_id@ != s.last().peer_id@);
        assert(table_map(s.remove(i)) == table_map(s.drop_last().remove(i)).insert(
            s.last().peer_id@,
            s.last().config@,
        ));
    }
}

/// Two link runs with the same identifiers and the same configuration
/// mappings, position by position, denote the same map.
pub proof fn lemma_table_map_congruence(s1: Seq<LinkEntry>, s2: Seq<LinkEntry>)
    requires
        s1.len() == s2.len(),
        forall|i: int|
            0 <= i < s1.len() ==> s1[i].peer_id@ == s2[i].peer_id@ && s1[i].config@
                == s2[i].config@,
    ensures
        table_map(s1) == table_map(s2),
    decreases s1.len(),
{
    if s1.len() > 0 {
        lemma_table_map_congruence(s1.drop_last(), s2.drop_last());
        assert(s1.last().peer_id@ == s2.last().peer_id@ && s1.last().config@ == s2.last().config@);
    }
}

/// One direction's worth of links: a mapping from peer identifier to link
/// configuration, kept in a fixed iteration order.
#[derive(Debug)]
pub struct PeerTable {
    pub entries: Vec<LinkEntry>,
}

impl View for PeerTable {
    type V = Map<Seq<char>, Map<Seq<char>, Seq<char>>>;

    open spec fn view(&self) -> Map<Seq<char>, Map<Seq<char>, Seq<char>>> {
        table_map(self.entries@)
    }
}

/// No two links of the run share a peer identifier, and every held
/// configuration is itself well-formed.
pub open spec fn links_wf(s: Seq<LinkEntry>) -> bool {
    &&& forall|i: int, j: int| 0 <= i < j < s.len() ==> s[i].peer_id@ != s[j].peer_id@
    &&& forall|i: int| 0 <= i < s.len() ==> (#[trigger] s[i]).config.wf()
}

impl PeerTable {
    /// Well-formed: no two links share a peer identifier, and every held
    /// configuration is itself well-formed.
    pub open spec fn wf(&self) -> bool {
        links_wf(self.entries@)
    }

    /// The peer identifiers, in iteration order.
    pub open spec fn peer_seq(&self) -> Seq<Seq<char>> {
        peer_ids_of(self.entries@)
    }

    /// An empty table.
    pub fn new() -> (r: Self)
        ensures
            r.wf(),
            r@ == Map::<Seq<char>, Map<Seq<char>, Seq<char>>>::empty(),
            r.peer_seq() == Seq::<Seq<char>>::empty(),
    {
        proof {
            assert(peer_ids_of(Seq::<LinkEntry>::empty()) =~= Seq::<Seq<char>>::empty());
        }
        PeerTable { entries: Vec::new() }
    }

    /// How many peers are linked.
    pub fn len(&self) -> (r: usize)
        ensures
            r == self.peer_seq().len(),
    {
        self.entries.len()
    }

    /// The identifier of the peer at one position of the iteration order.
    pub fn peer_at(&self, i: usize) -> (r: &String)
        requires
            i < self.peer_seq().len(),
        ensures
            r@ == self.peer_seq()[i as int],
    {
        &self.entries[i].peer_id
    }

    /// The configuration of the peer at one position of the iteration
    /// order.
    pub fn config_at(&self, i: usize) -> (r: &LinkConfig)
        requires
            self.wf(),
            i < self.peer_seq().len(),
        ensures
            r@ == self@[self.peer_seq()[i as int]],
            r.wf(),
    {
        proof {
            lemma_table_map_get(self.entries@, i as int);
        }
        &self.entries[i].config
    }

    /// Whether a peer is linked.
    pub fn contains(&self, peer_id: &String) -> (r: bool)
        ensures
            r == self@.dom().contains(peer_id@),
    {
        proof {
            lemma_table_map_dom(self.entries@, peer_id@);
        }
        let idx = find_peer(&self.entries, peer_id);
        idx.is_some()
    }

    /// Look one peer's configuration up.
    pub fn get(&self, peer_id: &String) -> (r: Option<&LinkConfig>)
        requires
            self.wf(),
        ensures
            match r {
                Some(c) => self@.dom().contains(peer_id@) && c@ == self@[peer_id@] && c.wf(),
                None => !self@.dom().contains(peer_id@),
            },
    {
        proof {
            lemma_table_map_dom(self.entries@, peer_id@);
        }
        let idx = find_peer(&self.entries, peer_id);
        match idx {
            Some(i) => {
                proof {
                    lemma_table_map_get(self.entries@, i as int);
                }
                Some(&self.entries[i].config)
            }
            None => None,
        }
    }

    /// Insert or replace one link. A new peer joins at the end of the
    /// iteration order; a re-linked peer keeps its position.
    pub fn insert(&mut self, peer_id: String, config: LinkConfig)
        requires
            old(self).wf(),
            config.wf(),
        ensures
            final(self).wf(),
            final(self)@ == old(self)@.insert(peer_id@, config@),
            old(self)@.dom().contains(peer_id@) ==> final(self).peer_seq() == old(
                self,
            ).peer_seq(),
            !old(self)@.dom().contains(peer_id@) ==> final(self).peer_seq() == old(
                self,
            ).peer_seq().push(peer_id@),
    {
        proof {
            lemma_table_map_dom(self.entries@, peer_id@);
        }
        let idx = find_peer(&self.entries, &peer_id);
        match idx {
            Some(i) => {
                let ghost oldseq = self.entries@;
                self.entries[i] = LinkEntry { peer_id, config };
                proof {
                    let e = self.entries@[i as int];
                    lemma_table_map_update(oldseq, i as int, e);
                    assert(forall|p: int|
                        0 <= p < self.entries@.len() ==> (#[trigger] self.entries@[p]).peer_id@
                            == oldseq[p].peer_id@);
                    assert(self.peer_seq() =~= peer_ids_of(oldseq));
                }
            }
            None => {
                let ghost oldseq = self.entries@;
                self.entries.push(LinkEntry { peer_id, config });
                proof {
                    assert(self.entries@.drop_last() =~= oldseq);
                    assert(forall|p: int|
                        0 <= p < oldseq.len() ==> #[trigger] self.entries@[p] == oldseq[p]);
                    assert(self.peer_seq() =~= peer_ids_of(oldseq).push(peer_id@));
                }
            }
        }
    }

    /// Delete one link; a no-op when the peer is not linked.
    pub fn remove(&mut self, peer_id: &String)
        requires
            old(self).wf(),
        ensures
            final(self).wf(),
            final(self)@ == old(self)@.remove(peer_id@),
            !final(self).peer_seq().contains(peer_id@),
    {
        proof {
            lemma_table_map_dom(self.entries@, peer_id@);
        }
        let idx = find_peer(&self.entries, peer_id);
        match idx {
            Some(i) => {
                let ghost oldseq = self.entries@;
                proof {
                    lemma_table_map_remove(oldseq, i as int);
                }
                self.entries.remove(i);
                proof {
                    assert(forall|p: int|
                        0 <= p < self.entries@.len() ==> #[trigger] self.entries@[p] == (if p
                            < i as int {
                            oldseq[p]
                        } else {
                            oldseq[p + 1]
                        }));
                    lemma_table_map_dom(self.entries@, peer_id@);
                    lemma_peer_order_matches_dom(*self, peer_id@);
                }
            }
            None => {
                proof {
                    assert(self@ =~= self@.remove(peer_id@));
                    lemma_peer_order_matches_dom(*self, peer_id@);
                }
            }
        }
    }

    /// A deep copy: the same peers, the same configurations, the same
    /// iteration order.
    pub fn duplicate(&self) -> (r: Self)
        ensures
            r@ == self@,
            r.peer_seq() == self.peer_seq(),
            r.wf() <==> self.wf(),
    {
        let mut out: Vec<LinkEntry> = Vec::new();
        let mut i: usize = 0;
        while i < self.entries.len()
            invariant
                i <= self.entries@.len(),
                out@.len() == i,
                forall|j: int|
                    0 <= j < i ==> (#[trigger] out@[j]).peer_id == self.entries@[j].peer_id
                        && out@[j].config@ == self.entries@[j].config@ && (out@[j].config.wf()
                        <==> self.entries@[j].config.wf()),
            decreases self.entries@.len() - i,
        {
            let e = &self.entries[i];
            out.push(LinkEntry { peer_id: e.peer_id.clone(), config: e.config.duplicate() });
            i = i + 1;
        }
        let r = PeerTable { entries: out };
        proof {
            lemma_table_map_congruence(r.entries@, self.entries@);
            assert(r.peer_seq() =~= self.peer_seq());
            if self.wf() {
                assert forall|p: int, q: int|
                    0 <= p < q < r.entries@.len() implies r.entries@[p].peer_id@
                    != r.entries@[q].peer_id@ by {
                    assert(self.entries@[p].peer_id@ != self.entries@[q].peer_id@);
                }
                assert forall|p: int|
                    0 <= p < r.entries@.len() implies (#[trigger] r.entries@[p]).config.wf() by {
                    assert(self.entries@[p].config.wf());
                }
                assert(r.wf());
            }
            if r.wf() {
                assert forall|p: int, q: int|
                    0 <= p < q < self.entries@.len() implies self.entries@[p].peer_id@
                    != self.entries@[q].peer_id@ by {
                    assert(r.entries@[p].peer_id@ != r.entries@[q].peer_id@);
                }
                assert forall|p: int|
                    0 <= p < self.entries@.len() implies (#[trigger] self.entries@[p]).config.wf() by {
                    assert(r.entries@[p].config.wf());
                }
                assert(self.wf());
            }
        }
        r
    }

    /// The peer identifiers, in iteration order, as owned values.
    pub fn peer_ids(&self) -> (r: Vec<String>)
        ensures
            r@.len() == self.peer_seq().len(),
            forall|i: int| 0 <= i < r@.len() ==> (#[trigger] r@[i])@ == self.peer_seq()[i],
    {
        let mut out: Vec<String> = Vec::new();
        let mut i: usize = 0;
        while i < self.entries.len()
            invariant
                i <= self.entries@.len(),
                out@.len() == i,
                forall|j: int| 0 <= j < i ==> (#[trigger] out@[j])@ == self.entries@[j].peer_id@,
            decreases self.entries@.len() - i,
        {
            out.push(self.entries[i].peer_id.clone());
            i = i + 1;
        }
        out
    }
}

/// The index of the link holding `peer_id`, if any.
fn find_peer(entries: &Vec<LinkEntry>, peer_id: &String) -> (r: Option<usize>)
    ensures
        match r {
            Some(i) => i < entries@.len() && entries@[i as int].peer_id@ == peer_id@,
            None => forall|i: int| 0 <= i < entries@.len() ==> entries@[i].peer_id@ != peer_id@,
        },
{
    let mut i: usize = 0;
    while i < entries.len()
        invariant
            i <= entries@.len(),
            forall|j: int| 0 <= j < i ==> entries@[j].peer_id@ != peer_id@,
        decreases entries@.len() - i,
    {
        if entries[i].peer_id == *peer_id {
            return Some(i);
        }
        i = i + 1;
    }
    None
}

/// A table's denoted domain and its iteration order hold exactly the same
/// peers.
pub proof fn lemma_peer_order_matches_dom(t: PeerTable, k: Seq<char>)
    ensures
        t@.dom().contains(k) <==> t.peer_seq().contains(k),
{
    lemma_table_map_dom(t.entries@, k);
    if exists|i: int| 0 <= i < t.entries@.len() && t.entries@[i].peer_id@ == k {
        let i = choose|i: int| 0 <= i < t.entries@.len() && t.entries@[i].peer_id@ == k;
        assert(t.peer_seq()[i] == k);
    }
    if t.peer_seq().contains(k) {
        let i = choose|i: int| 0 <= i < t.peer_seq().len() && t.peer_seq()[i] == k;
        assert(t.entries@[i].peer_id@ == k);
    }
}

/// Law: a peer that holds no link in a table never appears in the table's
/// iteration order — once unlinked, it is never contacted by a dispatch
/// round over any later snapshot.
pub proof fn lemma_unlinked_peer_not_targeted(t: PeerTable, peer: Seq<char>)
    requires
        !t@.dom().contains(peer),
    ensures
        !t.peer_seq().contains(peer),
{
    lemma_peer_order_matches_dom(t, peer);
}

/// A link is directional: peers that linked themselves to this node, and
/// peers this node dispatches commands to.
#[derive(Clone, Copy, PartialEq, Eq, Structural, Debug)]
pub enum LinkDirection {
    FromPeer,
    ToPeer,
}

/// The other direction.
pub open spec fn opposite(d: LinkDirection) -> LinkDirection {
    match d {
        LinkDirection::FromPeer => LinkDirection::ToPeer,
        LinkDirection::ToPeer => LinkDirection::FromPeer,
    }
}

/// The link-state registry: two independent directional maps from peer
/// identifier to link configuration. Directions are never merged or
/// cross-read; a peer may appear in either, both, or neither.
#[derive(Debug)]
pub struct LinkRegistry {
    pub linked_from: PeerTable,
    pub linked_to: PeerTable,
}

impl LinkRegistry {
    /// The table kept for one direction.
    pub open spec fn table(&self, d: LinkDirection) -> PeerTable {
        match d {
            LinkDirection::FromPeer => self.linked_from,
            LinkDirection::ToPeer => self.linked_to,
        }
    }

    /// The mapping one direction denotes.
    pub open spec fn links(&self, d: LinkDirection) -> Map<Seq<char>, Map<Seq<char>, Seq<char>>> {
        self.table(d)@
    }

    /// One direction's iteration order over its peers.
    pub open spec fn order(&self, d: LinkDirection) -> Seq<Seq<char>> {
        self.table(d).peer_seq()
    }

    /// Well-formed: both directional tables are.
    pub open spec fn wf(&self) -> bool {
        self.linked_from.wf() && self.linked_to.wf()
    }

    /// A fresh registry: empty in both directions.
    pub fn new() -> (r: Self)
        ensures
            r.wf(),
            r.links(LinkDirection::FromPeer) == Map::<Seq<char>, Map<Seq<char>, Seq<char>>>::empty(),
            r.links(LinkDirection::ToPeer) == Map::<Seq<char>, Map<Seq<char>, Seq<char>>>::empty(),
            r.order(LinkDirection::FromPeer) == Seq::<Seq<char>>::empty(),
            r.order(LinkDirection::ToPeer) == Seq::<Seq<char>>::empty(),
    {
        LinkRegistry { linked_from: PeerTable::new(), linked_to: PeerTable::new() }
    }

    /// Insert or replace the link for a peer under one direction; the
    /// other direction is untouched.
    pub fn put_link(&mut self, direction: LinkDirection, peer_id: String, config: LinkConfig)
        requires
            old(self).wf(),
            config.wf(),
        ensures
            final(self).wf(),
            final(self).links(direction) == old(self).links(direction).insert(peer_id@, config@),
            final(self).links(opposite(direction)) == old(self).links(opposite(direction)),
            final(self).order(opposite(direction)) == old(self).order(opposite(direction)),
            old(self).links(direction).dom().contains(peer_id@) ==> final(self).order(direction)
                == old(self).order(direction),
            !old(self).links(direction).dom().contains(peer_id@) ==> final(self).order(direction)
                == old(self).order(direction).push(peer_id@),
    {
        match direction {
            LinkDirection::FromPeer => self.linked_from.insert(peer_id, config),
            LinkDirection::ToPeer => self.linked_to.insert(peer_id, config),
        }
    }

    /// Delete the link for a peer under one direction, if present; a
    /// no-op when it is not. The other direction is untouched.
    pub fn remove_link(&mut self, direction: LinkDirection, peer_id: &String)
        requires
            old(self).wf(),
        ensures
            final(self).wf(),
            final(self).links(direction) == old(self).links(direction).remove(peer_id@),
            final(self).links(opposite(direction)) == old(self).links(opposite(direction)),
            final(self).order(opposite(direction)) == old(self).order(opposite(direction)),
            !final(self).order(direction).contains(peer_id@),
    {
        match direction {
            LinkDirection::FromPeer => self.linked_from.remove(peer_id),
            LinkDirection::ToPeer => self.linked_to.remove(peer_id),
        }
    }

    /// An immutable point-in-time copy of one direction's links: the
    /// mapping and the iteration order the registry holds at the instant
    /// of the call, owned by the caller and untouched by later writes.
    pub fn snapshot(&self, direction: LinkDirection) -> (r: PeerTable)
        requires
            self.wf(),
        ensures
            r.wf(),
            r@ == self.links(direction),
            r.peer_seq() == self.order(direction),
    {
        match direction {
            LinkDirection::FromPeer => self.linked_from.duplicate(),
            LinkDirection::ToPeer => self.linked_to.duplicate(),
        }
    }
}

/// Law: linking the same peer twice in one direction keeps only the
/// second configuration — the put replaces, it does not merge. The two
/// `requires` are exactly what two consecutive `put_link` calls for the
/// same peer ensure.
pub proof fn lemma_relink_replaces(
    r0: LinkRegistry,
    r1: LinkRegistry,
    r2: LinkRegistry,
    d: LinkDirection,
    peer: Seq<char>,
    c1: Map<Seq<char>, Seq<char>>,
    c2: Map<Seq<char>, Seq<char>>,
)
    requires
        r1.links(d) == r0.links(d).insert(peer, c1),
        r2.links(d) == r1.links(d).insert(peer, c2),
    ensures
        r2.links(d) =~= r0.links(d).insert(peer, c2),
        r2.links(d).dom().contains(peer),
        r2.links(d)[peer] == c2,
{
}


/// One registry call, as a serialization records it.
pub enum RegistryCall {
    Put(LinkDirection, Seq<char>, Map<Seq<char>, Seq<char>>),
    Remove(LinkDirection, Seq<char>),
}

/// The mapping one direction holds after a serialization of calls,
/// starting from an empty registry.
pub open spec fn links_after(calls: Seq<RegistryCall>, d: LinkDirection) -> Map<
    Seq<char>,
    Map<Seq<char>, Seq<char>>,
>
    decreases calls.len(),
{
    if calls.len() == 0 {
        Map::empty()
    } else {
        let prior = links_after(calls.drop_last(), d);
        match calls.last() {
            RegistryCall::Put(cd, peer, cfg) => if cd == d {
                prior.insert(peer, cfg)
            } else {
                prior
            },
            RegistryCall::Remove(cd, peer) => if cd == d {
                prior.remove(peer)
            } else {
                prior
            },
        }
    }
}

/// One call's effect on the registry: exactly what `put_link` and
/// `remove_link` ensure of the states before and after the call.
pub open spec fn call_step(r1: LinkRegistry, r2: LinkRegistry, call: RegistryCall) -> bool {
    match call {
        RegistryCall::Put(d, peer, cfg) => r2.links(d) == r1.links(d).insert(peer, cfg)
            && r2.links(opposite(d)) == r1.links(opposite(d)),
        RegistryCall::Remove(d, peer) => r2.links(d) == r1.links(d).remove(peer) && r2.links(
            opposite(d),
        ) == r1.links(opposite(d)),
    }
}

/// Law: what a registry holds is consistent with the serialization of the
/// calls that reached it. A run of registry states that starts empty and
/// steps by `put_link`/`remove_link` contracts ends in exactly the
/// mapping that folding the serialized calls denotes — so a snapshot,
/// which shows the mapping at the instant of the call, shows some
/// serialization of the calls before it, never a torn state.
pub proof fn lemma_state_matches_serialization(
    calls: Seq<RegistryCall>,
    regs: Seq<LinkRegistry>,
    d: LinkDirection,
)
    requires
        regs.len() == calls.len() + 1,
        regs[0].links(d) == Map::<Seq<char>, Map<Seq<char>, Seq<char>>>::empty(),
        forall|i: int| 0 <= i < calls.len() ==> call_step(regs[i], regs[i + 1], calls[i]),
    ensures
        regs.last().links(d) == links_after(calls, d),
    decreases calls.len(),
{
    if calls.len() > 0 {
        let n = calls.len() as int;
        lemma_state_matches_serialization(calls.drop_last(), regs.drop_last(), d);
        assert(call_step(regs[n - 1], regs[n], calls[n - 1]));
        match calls.last() {
            RegistryCall::Put(cd, peer, cfg) => {
                if cd != d {
                    assert(d == opposite(cd));
                }
            }
            RegistryCall::Remove(cd, peer) => {
                if cd != d {
                    assert(d == opposite(cd));
                }
            }
        }
    }
}

} // verus!
