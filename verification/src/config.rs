use vstd::prelude::*;

use crate::strmap::{map_at, map_has, map_index, map_wf, lemma_map_index_unique, AssocMap};

verus! {

/// Pairwise-distinct sequence of strings.
pub open spec fn distinct_seq(s: Seq<Seq<char>>) -> bool {
    forall|i: int, j: int| 0 <= i < j < s.len() ==> s[i] != s[j]
}

/// A small set of rule-set ids, kept as a vector of pairwise-distinct strings.
pub struct IdSet {
    pub items: Vec<String>,
}

impl View for IdSet {
    type V = Seq<Seq<char>>;

    open spec fn view(&self) -> Seq<Seq<char>> {
        self.items@.map_values(|s: String| s@)
    }
}

impl IdSet {
    pub open spec fn wf(&self) -> bool {
        distinct_seq(self@)
    }

    pub fn new() -> (r: Self)
        ensures
            r@ =~= Seq::<Seq<char>>::empty(),
            r.wf(),
    {
        IdSet { items: Vec::new() }
    }

    pub fn len(&self) -> (r: usize)
        ensures
            r == self@.len(),
    {
        self.items.len()
    }

    pub fn at(&self, i: usize) -> (r: &String)
        requires
            i < self@.len(),
        ensures
            r@ == self@[i as int],
    {
        &self.items[i]
    }

    pub fn is_empty(&self) -> (r: bool)
        ensures
            r == (self@.len() == 0),
    {
        self.items.len() == 0
    }

    pub fn contains(&self, x: &String) -> (r: bool)
        ensures
            r == self@.contains(x@),
    {
        let n = self.items.len();
        let mut i: usize = 0;
        while i < n
            invariant
                n == self@.len(),
                i <= n,
                forall|j: int| 0 <= j < i ==> self@[j] != x@,
            decreases n - i,
        {
            if self.items[i] == *x {
                proof {
                    assert(self@[i as int] == x@);
                }
                return true;
            }
            i = i + 1;
        }
        false
    }

    /// Adds `x` unless it is already present.
    pub fn insert(&mut self, x: &String)
        requires
            old(self).wf(),
        ensures
            final(self).wf(),
            forall|r: Seq<char>| final(self)@.contains(r) <==> old(self)@.contains(r) || r
                == x@,
            final(self)@.len() > 0,
            old(self)@.contains(x@) ==> final(self)@ =~= old(self)@,
            !old(self)@.contains(x@) ==> final(self)@ =~= old(self)@.push(x@),
    {
        if !self.contains(x) {
            self.items.push(x.clone());
            proof {
                assert(self@ =~= old(self)@.push(x@));
                assert(self@.contains(x@)) by {
                    assert(self@[self@.len() - 1] == x@);
                }
                assert forall|a: int, b: int| 0 <= a < b < self@.len() implies self@[a]
                    != self@[b] by {
                    if b == self@.len() - 1 {
                        assert(old(self)@[a] == self@[a]);
                        assert(old(self)@.contains(old(self)@[a]));
                    }
                }
                assert forall|r: Seq<char>|
                    old(self)@.contains(r) implies self@.contains(r) by {
                    let w = choose|w: int| 0 <= w < old(self)@.len() && old(self)@[w] == r;
                    assert(self@[w] == r);
                }
            }
        }
    }

    /// Removes `x` if present.
    pub fn remove(&mut self, x: &String)
        requires
            old(self).wf(),
        ensures
            final(self).wf(),
            forall|r: Seq<char>| final(self)@.contains(r) <==> old(self)@.contains(r) && r
                != x@,
            old(self)@.contains(x@) ==> final(self)@.len() == old(self)@.len() - 1,
            !old(self)@.contains(x@) ==> final(self)@ =~= old(self)@,
    {
        let n = self.items.len();
        let mut i: usize = 0;
        while i < n
            invariant
                n == self@.len(),
                i <= n,
                *self == *old(self),
                old(self).wf(),
                forall|j: int| 0 <= j < i ==> self@[j] != x@,
            decreases n - i,
        {
            if self.items[i] == *x {
                proof {
                    assert(self@[i as int] == x@);
                }
                self.items.remove(i);
                proof {
                    assert(self@ =~= old(self)@.remove(i as int));
                    old(self)@.remove_ensures(i as int);
                    assert forall|a: int, b: int| 0 <= a < b < self@.len() implies self@[a]
                        != self@[b] by {
                        let a0: int = if a < i { a } else { a + 1 };
                        let b0: int = if b < i { b } else { b + 1 };
                        assert(self@[a] == old(self)@[a0]);
                        assert(self@[b] == old(self)@[b0]);
                        assert(old(self)@[a0] != old(self)@[b0]);
                    }
                    assert forall|r: Seq<char>| #[trigger] self@.contains(r) implies old(
                        self,
                    )@.contains(r) && r != x@ by {
                        let w = choose|w: int| 0 <= w < self@.len() && self@[w] == r;
                        let w0: int = if w < i { w } else { w + 1 };
                        assert(self@[w] == old(self)@[w0]);
                        assert(old(self)@[w0] == r);
                        if w0 != i {
                            if w0 < i {
                                assert(old(self)@[w0] != old(self)@[i as int]);
                            } else {
                                assert(old(self)@[i as int] != old(self)@[w0]);
                            }
                        }
                    }
                    assert forall|r: Seq<char>|
                        old(self)@.contains(r) && r != x@ implies self@.contains(r) by {
                        let w = choose|w: int| 0 <= w < old(self)@.len() && old(self)@[w]
                            == r;
                        if w < i {
                            assert(self@[w] == r);
                        } else {
                            assert(self@[w - 1] == r);
                        }
                    }
                }
                return ;
            }
            i = i + 1;
        }
        proof {
            assert(!old(self)@.contains(x@));
        }
    }
}

/// A cluster host: its name and its externally reachable address.
pub struct Node {
    pub hostname: String,
    pub ip: String,
}

pub ghost struct NodeV {
    pub hostname: Seq<char>,
    pub ip: Seq<char>,
}

impl View for Node {
    type V = NodeV;

    open spec fn view(&self) -> NodeV {
        NodeV { hostname: self.hostname@, ip: self.ip@ }
    }
}

impl Node {
    pub fn new(hostname: String, ip: String) -> (r: Self)
        ensures
            r@.hostname == hostname@,
            r@.ip == ip@,
    {
        Node { hostname, ip }
    }
}

/// A named group of hosts, keyed by hostname.
pub struct NodePool {
    pub nodes: AssocMap<Node>,
}

pub ghost struct PoolV {
    pub nodes: Seq<(Seq<char>, NodeV)>,
}

impl View for NodePool {
    type V = PoolV;

    open spec fn view(&self) -> PoolV {
        PoolV { nodes: self.nodes@ }
    }
}

impl NodePool {
    pub open spec fn wf(&self) -> bool {
        map_wf(self@.nodes)
    }

    pub fn new() -> (r: Self)
        ensures
            r@.nodes =~= Seq::<(Seq<char>, NodeV)>::empty(),
            r.wf(),
    {
        NodePool { nodes: AssocMap::new() }
    }

    /// Inserts or replaces the member stored under `hostname`.
    pub fn add_node(&mut self, hostname: String, node: Node)
        requires
            old(self).wf(),
        ensures
            final(self).wf(),
            map_has(final(self)@.nodes, hostname@),
            map_at(final(self)@.nodes, hostname@) == node@,
            forall|h: Seq<char>| h != hostname@ ==> (map_has(final(self)@.nodes, h)
                <==> map_has(old(self)@.nodes, h)),
            forall|h: Seq<char>| h != hostname@ && map_has(old(self)@.nodes, h) ==> map_at(
                final(self)@.nodes,
                h,
            ) == map_at(old(self)@.nodes, h),
    {
        let ghost pre = self@.nodes;
        self.nodes.insert(hostname, node);
        proof {
            lemma_insert_frame::<NodeV>(pre, self@.nodes, hostname@, node@);
        }
    }
}

/// After an `AssocMap` insert, the inserted key holds the new value and every
/// other key is untouched.
pub proof fn lemma_insert_frame<T>(
    pre: Seq<(Seq<char>, T)>,
    post: Seq<(Seq<char>, T)>,
    k: Seq<char>,
    v: T,
)
    requires
        map_wf(pre),
        map_wf(post),
        map_has(pre, k) ==> post =~= pre.update(map_index(pre, k), (k, v)),
        !map_has(pre, k) ==> post =~= pre.push((k, v)),
    ensures
        map_has(post, k),
        map_at(post, k) == v,
        forall|h: Seq<char>| h != k ==> (map_has(post, h) <==> map_has(pre, h)),
        forall|h: Seq<char>| h != k && map_has(pre, h) ==> map_at(post, h) == map_at(pre, h),
{
    if map_has(pre, k) {
        let i = map_index(pre, k);
        lemma_map_index_unique(pre, k, i);
        assert(post[i].0 == k);
        lemma_map_index_unique(post, k, i);
        assert(map_at(post, k) == v);
        assert forall|h: Seq<char>| h != k implies (map_has(post, h) <==> map_has(
            pre,
            h,
        )) by {
            if map_has(pre, h) {
                let w = map_index(pre, h);
                lemma_map_index_unique(pre, h, w);
                assert(post[w].0 == h);
            }
            if map_has(post, h) {
                let w = map_index(post, h);
                lemma_map_index_unique(post, h, w);
                assert(pre[w].0 == h);
            }
        }
        assert forall|h: Seq<char>| h != k && map_has(pre, h) implies map_at(post, h)
            == map_at(pre, h) by {
            let w = map_index(pre, h);
            lemma_map_index_unique(pre, h, w);
            assert(post[w].0 == h);
            lemma_map_index_unique(post, h, w);
        }
    } else {
        let i: int = pre.len() as int;
        assert(post[i].0 == k);
        lemma_map_index_unique(post, k, i);
        assert forall|h: Seq<char>| h != k implies (map_has(post, h) <==> map_has(
            pre,
            h,
        )) by {
            if map_has(pre, h) {
                let w = map_index(pre, h);
                lemma_map_index_unique(pre, h, w);
                assert(post[w].0 == h);
            }
            if map_has(post, h) {
                let w = map_index(post, h);
                lemma_map_index_unique(post, h, w);
                assert(w < pre.len());
                assert(pre[w].0 == h);
            }
        }
        assert forall|h: Seq<char>| h != k && map_has(pre, h) implies map_at(post, h)
            == map_at(pre, h) by {
            let w = map_index(pre, h);
            lemma_map_index_unique(pre, h, w);
            assert(post[w].0 == h);
            lemma_map_index_unique(post, h, w);
        }
    }
}

/// The transport protocol a rule applies to.
#[derive(Clone, Copy, PartialEq, Eq, Structural, Debug)]
pub enum RuleProtocol {
    TCP,
    UDP,
}

/// A single firewall port selector: one port or an inclusive range.
#[derive(Clone, Copy, PartialEq, Eq, Structural, Debug)]
pub enum RulePort {
    Range { start: u16, end: u16 },
    Single(u16),
}

impl RulePort {
    /// The low end of the selector.
    pub open spec fn spec_start(self) -> u16 {
        match self {
            RulePort::Range { start, end: _ } => start,
            RulePort::Single(p) => p,
        }
    }

    /// The high end of the selector (equal to the low end for a single port).
    pub open spec fn spec_end(self) -> u16 {
        match self {
            RulePort::Range { start: _, end } => end,
            RulePort::Single(p) => p,
        }
    }
}

/// Total order on port selectors: by start, then end, a single port before
/// the range with the same bounds.
pub open spec fn port_lt(a: RulePort, b: RulePort) -> bool {
    ||| a.spec_start() < b.spec_start()
    ||| (a.spec_start() == b.spec_start() && a.spec_end() < b.spec_end())
    ||| (a.spec_start() == b.spec_start() && a.spec_end() == b.spec_end() && a is Single
        && b is Range)
}

/// Whether `a` orders strictly before `b`.
pub fn port_before(a: RulePort, b: RulePort) -> (r: bool)
    ensures
        r == port_lt(a, b),
{
    let (sa, ea, ra) = match a {
        RulePort::Range { start, end } => (start, end, true),
        RulePort::Single(p) => (p, p, false),
    };
    let (sb, eb, rb) = match b {
        RulePort::Range { start, end } => (start, end, true),
        RulePort::Single(p) => (p, p, false),
    };
    sa < sb || (sa == sb && ea < eb) || (sa == sb && ea == eb && !ra && rb)
}

/// One firewall rule: a protocol, a sorted deduplicated set of port
/// selectors, and the node pools it is scoped to.
pub struct Rule {
    pub protocol: RuleProtocol,
    pub ports: Vec<RulePort>,
    pub nodepools: Vec<String>,
}

pub ghost struct RuleV {
    pub protocol: RuleProtocol,
    pub ports: Seq<RulePort>,
    pub nodepools: Seq<Seq<char>>,
}

impl View for Rule {
    type V = RuleV;

    open spec fn view(&self) -> RuleV {
        RuleV {
            protocol: self.protocol,
            ports: self.ports@,
            nodepools: self.nodepools@.map_values(|s: String| s@),
        }
    }
}

/// Ports strictly sorted by `port_lt` (which also makes them distinct).
pub open spec fn ports_sorted(s: Seq<RulePort>) -> bool {
    forall|i: int, j: int| 0 <= i < j < s.len() ==> port_lt(s[i], s[j])
}

impl Rule {
    pub open spec fn wf(&self) -> bool {
        ports_sorted(self@.ports) && distinct_seq(self@.nodepools)
    }

    /// Builds a rule, accepting the ports only if they are strictly sorted
    /// and the pool ids only if they are distinct.
    pub fn new(protocol: RuleProtocol, ports: Vec<RulePort>, nodepools: Vec<String>) -> (r:
        Option<Rule>)
        ensures
            match r {
                Some(rule) => rule@.protocol == protocol && rule@.ports == ports@
                    && rule@.nodepools == nodepools@.map_values(|s: String| s@)
                    && rule.wf(),
                None => !(ports_sorted(ports@) && distinct_seq(
                    nodepools@.map_values(|s: String| s@),
                )),
            },
    {
        if !ports_are_sorted(&ports) {
            return None;
        }
        if !ids_are_distinct(&nodepools) {
            return None;
        }
        Some(Rule { protocol, ports, nodepools })
    }
}

/// Checks that the selectors are strictly increasing under `port_lt`.
pub fn ports_are_sorted(v: &Vec<RulePort>) -> (r: bool)
    ensures
        r == ports_sorted(v@),
{
    let n = v.len();
    if n <= 1 {
        return true;
    }
    let mut i: usize = 1;
    while i < n
        invariant
            n == v@.len(),
            1 <= i <= n,
            forall|a: int, b: int| 0 <= a < b < i ==> port_lt(v@[a], v@[b]),
        decreases n - i,
    {
        if !port_before(v[i - 1], v[i]) {
            return false;
        }
        proof {
            assert forall|a: int| 0 <= a < i implies port_lt(v@[a], v@[i as int]) by {
                if a < i - 1 {
                    lemma_port_lt_trans(v@[a], v@[i - 1], v@[i as int]);
                }
            }
        }
        i = i + 1;
    }
    true
}

pub proof fn lemma_port_lt_trans(a: RulePort, b: RulePort, c: RulePort)
    requires
        port_lt(a, b),
        port_lt(b, c),
    ensures
        port_lt(a, c),
{
}

/// Checks that the strings are pairwise distinct.
pub fn ids_are_distinct(v: &Vec<String>) -> (r: bool)
    ensures
        r == distinct_seq(v@.map_values(|s: String| s@)),
{
    let ghost vw = v@.map_values(|s: String| s@);
    let n = v.len();
    if n <= 1 {
        return true;
    }
    let mut i: usize = 1;
    while i < n
        invariant
            vw == v@.map_values(|s: String| s@),
            n == v@.len(),
            1 <= i <= n,
            forall|a: int, b: int| 0 <= a < b < i ==> vw[a] != vw[b],
        decreases n - i,
    {
        let mut j: usize = 0;
        while j < i
            invariant
                vw == v@.map_values(|s: String| s@),
                n == v@.len(),
                j <= i < n,
                forall|a: int| 0 <= a < j ==> vw[a] != vw[i as int],
            decreases i - j,
        {
            if v[j] == v[i] {
                proof {
                    assert(vw[j as int] == vw[i as int]);
                }
                return false;
            }
            j = j + 1;
        }
        i = i + 1;
    }
    true
}

/// A named ordered collection of rules.
pub struct RuleSet {
    pub rules: Vec<Rule>,
}

pub ghost struct RuleSetV {
    pub rules: Seq<RuleV>,
}

impl View for RuleSet {
    type V = RuleSetV;

    open spec fn view(&self) -> RuleSetV {
        RuleSetV { rules: self.rules@.map_values(|r: Rule| r@) }
    }
}

impl RuleSet {
    pub open spec fn wf(&self) -> bool {
        forall|i: int| 0 <= i < self.rules@.len() ==> (#[trigger] self.rules@[i]).wf()
    }

    pub fn new(rules: Vec<Rule>) -> (r: RuleSet)
        ensures
            r@.rules == rules@.map_values(|x: Rule| x@),
            (forall|i: int| 0 <= i < rules@.len() ==> (#[trigger] rules@[i]).wf())
                ==> r.wf(),
    {
        RuleSet { rules }
    }
}

/// Whether some rule of `rs` lists the pool `p` in its scope.
pub open spec fn rs_refs(rs: RuleSetV, p: Seq<char>) -> bool {
    exists|i: int| 0 <= i < rs.rules.len() && (#[trigger] rs.rules[i]).nodepools.contains(p)
}

/// The dependency index holds `r` under `p`.
pub open spec fn tree_has(
    t: Seq<(Seq<char>, Seq<Seq<char>>)>,
    p: Seq<char>,
    r: Seq<char>,
) -> bool {
    map_has(t, p) && map_at(t, p).contains(r)
}

/// Index well-formedness: distinct pool keys, and each entry a non-empty
/// set of distinct rule-set ids.
pub open spec fn tree_wf(t: Seq<(Seq<char>, Seq<Seq<char>>)>) -> bool {
    map_wf(t) && forall|i: int| 0 <= i < t.len() ==> ((#[trigger] t[i].1).len() > 0
        && distinct_seq(t[i].1))
}

/// Records in the dependency index that rule set `ruleset` references pool
/// `nodepool`; a no-op when already recorded.
pub fn add_dependency(tree: &mut AssocMap<IdSet>, nodepool: &String, ruleset: &String)
    requires
        tree_wf(old(tree)@),
    ensures
        tree_wf(final(tree)@),
        forall|p: Seq<char>, r: Seq<char>| #[trigger] tree_has(final(tree)@, p, r)
            <==> tree_has(old(tree)@, p, r) || (p == nodepool@ && r == ruleset@),
{
    let ghost pre = tree@;
    match tree.index_of(nodepool) {
        Some(i) => {
            proof {
                lemma_map_index_unique(pre, nodepool@, i as int);
                assert(distinct_seq(pre[i as int].1));
            }
            let mut s = tree.take_val_at(i, IdSet::new());
            let ghost sv = s@;
            s.insert(ruleset);
            tree.set_val_at(i, s);
            proof {
                assert(tree@ =~= pre.update(i as int, (nodepool@, s@)));
                assert forall|a: int, b: int| 0 <= a < b < tree@.len() implies tree@[a].0
                    != tree@[b].0 by {
                    assert(tree@[a].0 == pre[a].0);
                    assert(tree@[b].0 == pre[b].0);
                }
                lemma_insert_frame::<Seq<Seq<char>>>(pre, tree@, nodepool@, s@);
                assert forall|p: Seq<char>, r: Seq<char>| #[trigger] tree_has(tree@, p, r)
                    <==> tree_has(pre, p, r) || (p == nodepool@ && r == ruleset@) by {
                    if p == nodepool@ {
                        assert(map_at(pre, p) == sv);
                        assert(map_at(tree@, p) == s@);
                    }
                }
                assert forall|j: int| 0 <= j < tree@.len() implies ((#[trigger] tree@[j].1).len()
                    > 0 && distinct_seq(tree@[j].1)) by {
                    if j != i {
                        assert(tree@[j] == pre[j]);
                    } else {
                        assert(tree@[j].1 == s@);
                    }
                }
            }
        },
        None => {
            let mut s = IdSet::new();
            s.insert(ruleset);
            tree.insert(nodepool.clone(), s);
            proof {
                lemma_insert_frame::<Seq<Seq<char>>>(pre, tree@, nodepool@, s@);
                assert forall|p: Seq<char>, r: Seq<char>| #[trigger] tree_has(tree@, p, r)
                    <==> tree_has(pre, p, r) || (p == nodepool@ && r == ruleset@) by {
                    if p == nodepool@ {
                        assert(!map_has(pre, p));
                    }
                }
                assert forall|j: int| 0 <= j < tree@.len() implies ((#[trigger] tree@[j].1).len()
                    > 0 && distinct_seq(tree@[j].1)) by {
                    if j < pre.len() {
                        assert(tree@[j] == pre[j]);
                    } else {
                        assert(tree@[j].1 == s@);
                    }
                }
            }
        },
    }
}

/// After removing entry `i` from an `AssocMap`, its key is gone and every
/// other key is untouched.
pub proof fn lemma_remove_frame<T>(pre: Seq<(Seq<char>, T)>, post: Seq<(Seq<char>, T)>, i: int)
    requires
        map_wf(pre),
        0 <= i < pre.len(),
        post =~= pre.remove(i),
    ensures
        map_wf(post),
        !map_has(post, pre[i].0),
        forall|h: Seq<char>| h != pre[i].0 ==> (map_has(post, h) <==> map_has(pre, h)),
        forall|h: Seq<char>| h != pre[i].0 && map_has(pre, h) ==> map_at(post, h) == map_at(
            pre,
            h,
        ),
    decreases i,
{
    pre.remove_ensures(i);
    assert forall|a: int, b: int| 0 <= a < b < post.len() implies post[a].0 != post[b].0 by {
        let a0: int = if a < i { a } else { a + 1 };
        let b0: int = if b < i { b } else { b + 1 };
        assert(post[a] == pre[a0]);
        assert(post[b] == pre[b0]);
    }
    assert forall|w: int| 0 <= w < post.len() implies post[w].0 != pre[i].0 by {
        let w0: int = if w < i { w } else { w + 1 };
        assert(post[w] == pre[w0]);
        if w0 < i {
            assert(pre[w0].0 != pre[i].0);
        } else {
            assert(pre[i].0 != pre[w0].0);
        }
    }
    assert forall|h: Seq<char>| h != pre[i].0 implies (map_has(post, h) <==> map_has(
        pre,
        h,
    )) by {
        if map_has(pre, h) {
            let w = map_index(pre, h);
            lemma_map_index_unique(pre, h, w);
            if w < i {
                assert(post[w].0 == h);
            } else {
                assert(post[w - 1] == pre[w]);
            }
        }
        if map_has(post, h) {
            let w = map_index(post, h);
            lemma_map_index_unique(post, h, w);
            let w0: int = if w < i { w } else { w + 1 };
            assert(pre[w0].0 == h);
        }
    }
    assert forall|h: Seq<char>| h != pre[i].0 && map_has(pre, h) implies map_at(post, h)
        == map_at(pre, h) by {
        let w = map_index(pre, h);
        lemma_map_index_unique(pre, h, w);
        let w1: int = if w < i { w } else { w - 1 };
        assert(post[w1] == pre[w]);
        lemma_map_index_unique(post, h, w1);
    }
}

/// Deletes from the dependency index the record that rule set `ruleset`
/// references pool `nodepool`, pruning the pool's entry when it empties;
/// a no-op when not recorded.
pub fn remove_dependency(tree: &mut AssocMap<IdSet>, nodepool: &String, ruleset: &String)
    requires
        tree_wf(old(tree)@),
    ensures
        tree_wf(final(tree)@),
        forall|p: Seq<char>, r: Seq<char>| #[trigger] tree_has(final(tree)@, p, r)
            <==> tree_has(old(tree)@, p, r) && !(p == nodepool@ && r == ruleset@),
{
    let ghost pre = tree@;
    match tree.index_of(nodepool) {
        Some(i) => {
            proof {
                lemma_map_index_unique(pre, nodepool@, i as int);
                assert(distinct_seq(pre[i as int].1));
            }
            let mut s = tree.take_val_at(i, IdSet::new());
            let ghost sv = s@;
            s.remove(ruleset);
            if s.is_empty() {
                let _entry = tree.remove_at(i);
                proof {
                    assert(tree@ =~= pre.remove(i as int)) by {
                        pre.remove_ensures(i as int);
                        let mid = pre.update(i as int, (nodepool@, Seq::<Seq<char>>::empty()));
                        mid.remove_ensures(i as int);
                        assert(tree@ =~= mid.remove(i as int));
                    }
                    lemma_remove_frame::<Seq<Seq<char>>>(pre, tree@, i as int);
                    assert forall|p: Seq<char>, r: Seq<char>| #[trigger] tree_has(tree@, p, r)
                        <==> tree_has(pre, p, r) && !(p == nodepool@ && r == ruleset@) by {
                        if p == nodepool@ {
                            assert(!map_has(tree@, p));
                            if tree_has(pre, p, r) && r != ruleset@ {
                                assert(map_at(pre, p) == sv);
                                assert(sv.contains(r) && r != ruleset@);
                                assert(s@.contains(r));
                            }
                        } else {
                            if map_has(pre, p) {
                                assert(map_at(tree@, p) == map_at(pre, p));
                            }
                        }
                    }
                    assert forall|j: int| 0 <= j < tree@.len() implies ((
                    #[trigger] tree@[j].1).len() > 0 && distinct_seq(tree@[j].1)) by {
                        pre.remove_ensures(i as int);
                        let j0: int = if j < i { j } else { j + 1 };
                        assert(tree@[j] == pre[j0]);
                    }
                }
            } else {
                tree.set_val_at(i, s);
                proof {
                    assert(tree@ =~= pre.update(i as int, (nodepool@, s@)));
                    assert forall|a: int, b: int| 0 <= a < b < tree@.len() implies tree@[a].0
                        != tree@[b].0 by {
                        assert(tree@[a].0 == pre[a].0);
                        assert(tree@[b].0 == pre[b].0);
                    }
                    lemma_insert_frame::<Seq<Seq<char>>>(pre, tree@, nodepool@, s@);
                    assert forall|p: Seq<char>, r: Seq<char>| #[trigger] tree_has(tree@, p, r)
                        <==> tree_has(pre, p, r) && !(p == nodepool@ && r == ruleset@) by {
                        if p == nodepool@ {
                            assert(map_at(pre, p) == sv);
                            assert(map_at(tree@, p) == s@);
                        }
                    }
                    assert forall|j: int| 0 <= j < tree@.len() implies ((
                    #[trigger] tree@[j].1).len() > 0 && distinct_seq(tree@[j].1)) by {
                        if j != i {
                            assert(tree@[j] == pre[j]);
                        } else {
                            assert(tree@[j].1 == s@);
                        }
                    }
                }
            }
        },
        None => {
            proof {
                assert forall|p: Seq<char>, r: Seq<char>| #[trigger] tree_has(tree@, p, r)
                    <==> tree_has(pre, p, r) && !(p == nodepool@ && r == ruleset@) by {
                    if p == nodepool@ {
                        assert(!map_has(pre, p));
                    }
                }
            }
        },
    }
}

/// Well-formedness of a rule set's view: every rule has sorted ports and
/// distinct pool ids.
pub open spec fn rsv_wf(rs: RuleSetV) -> bool {
    forall|i: int| 0 <= i < rs.rules.len() ==> (ports_sorted(
        (#[trigger] rs.rules[i]).ports,
    ) && distinct_seq(rs.rules[i].nodepools))
}

/// The scopes referenced by the first `ri` rules of `rs`, plus the first
/// `pi` pool ids of rule `ri`; reaches `rs_refs` once all rules are done.
pub open spec fn refs_upto(rs: RuleSetV, ri: int, pi: int, p: Seq<char>) -> bool {
    (exists|a: int| 0 <= a < ri && (#[trigger] rs.rules[a]).nodepools.contains(p)) || (0 <= ri
        < rs.rules.len() && exists|b: int| 0 <= b < pi && rs.rules[ri].nodepools[b] == p)
}

/// The authoritative policy model: node pools, rule sets, and the derived
/// dependency index from pool id to the rule sets that reference it.
pub struct ConfigState {
    pub nodepools: AssocMap<NodePool>,
    pub rulesets: AssocMap<RuleSet>,
    pub dependency_tree: AssocMap<IdSet>,
}

impl ConfigState {
    /// The dependency index holds exactly the pairs that the stored rule
    /// sets induce: `r` stands under `p` iff some rule of the stored rule
    /// set `r` lists `p` in its scope.
    pub open spec fn index_ok(self) -> bool {
        forall|p: Seq<char>, r: Seq<char>| #[trigger] tree_has(self.dependency_tree@, p, r)
            <==> (map_has(self.rulesets@, r) && rs_refs(map_at(self.rulesets@, r), p))
    }

    pub open spec fn wf(self) -> bool {
        &&& map_wf(self.nodepools@)
        &&& (forall|i: int| 0 <= i < self.nodepools@.len() ==> map_wf(
            (#[trigger] self.nodepools@[i]).1.nodes,
        ))
        &&& map_wf(self.rulesets@)
        &&& (forall|i: int| 0 <= i < self.rulesets@.len() ==> rsv_wf(
            (#[trigger] self.rulesets@[i]).1,
        ))
        &&& tree_wf(self.dependency_tree@)
        &&& self.index_ok()
    }

    pub fn new() -> (r: Self)
        ensures
            r.wf(),
            r.nodepools@ =~= Seq::<(Seq<char>, PoolV)>::empty(),
            r.rulesets@ =~= Seq::<(Seq<char>, RuleSetV)>::empty(),
            r.dependency_tree@ =~= Seq::<(Seq<char>, Seq<Seq<char>>)>::empty(),
    {
        let r = ConfigState {
            nodepools: AssocMap::new(),
            rulesets: AssocMap::new(),
            dependency_tree: AssocMap::new(),
        };
        proof {
            assert forall|p: Seq<char>, r2: Seq<char>| !(#[trigger] tree_has(
                r.dependency_tree@,
                p,
                r2,
            )) by {}
        }
        r
    }

    /// Inserts or replaces the pool stored under `id`; the rule sets and
    /// the dependency index are untouched.
    pub fn add_nodepool(&mut self, id: String, nodepool: NodePool)
        requires
            old(self).wf(),
            nodepool.wf(),
        ensures
            final(self).wf(),
            final(self).rulesets == old(self).rulesets,
            final(self).dependency_tree == old(self).dependency_tree,
            map_has(final(self).nodepools@, id@),
            map_at(final(self).nodepools@, id@) == nodepool@,
            forall|h: Seq<char>| h != id@ ==> (map_has(final(self).nodepools@, h)
                <==> map_has(old(self).nodepools@, h)),
            forall|h: Seq<char>| h != id@ && map_has(old(self).nodepools@, h) ==> map_at(
                final(self).nodepools@,
                h,
            ) == map_at(old(self).nodepools@, h),
            add_nodepool_rel(*old(self), *final(self), id@, nodepool@),
    {
        let ghost pre = self.nodepools@;
        self.nodepools.insert(id, nodepool);
        proof {
            lemma_insert_frame::<PoolV>(pre, self.nodepools@, id@, nodepool@);
            assert forall|i: int| 0 <= i < self.nodepools@.len() implies map_wf(
                (#[trigger] self.nodepools@[i]).1.nodes,
            ) by {
                if map_has(pre, id@) {
                    if i != map_index(pre, id@) {
                        assert(self.nodepools@[i] == pre[i]);
                    }
                } else {
                    if i < pre.len() {
                        assert(self.nodepools@[i] == pre[i]);
                    }
                }
            }
        }
    }

    /// Removes the pool stored under `id`, if any. Rule sets that still
    /// reference the pool keep their dangling reference; the dependency
    /// index is untouched.
    pub fn remove_nodepool(&mut self, id: &String)
        requires
            old(self).wf(),
        ensures
            final(self).wf(),
            final(self).rulesets == old(self).rulesets,
            final(self).dependency_tree == old(self).dependency_tree,
            !map_has(final(self).nodepools@, id@),
            !map_has(old(self).nodepools@, id@) ==> *final(self) == *old(self),
            forall|h: Seq<char>| h != id@ ==> (map_has(final(self).nodepools@, h)
                <==> map_has(old(self).nodepools@, h)),
            forall|h: Seq<char>| h != id@ && map_has(old(self).nodepools@, h) ==> map_at(
                final(self).nodepools@,
                h,
            ) == map_at(old(self).nodepools@, h),
            remove_nodepool_rel(*old(self), *final(self), id@),
    {
        let ghost pre = self.nodepools@;
        self.nodepools.remove(id);
        proof {
            if map_has(pre, id@) {
                let i = map_index(pre, id@);
                lemma_remove_frame::<PoolV>(pre, self.nodepools@, i);
                pre.remove_ensures(i);
                assert forall|j: int| 0 <= j < self.nodepools@.len() implies map_wf(
                    (#[trigger] self.nodepools@[j]).1.nodes,
                ) by {
                    let j0: int = if j < i { j } else { j + 1 };
                    assert(self.nodepools@[j] == pre[j0]);
                }
            }
        }
    }

    /// Removes the rule set stored under `id`, first erasing its
    /// contributions to the dependency index; a no-op when `id` is absent.
    pub fn remove_ruleset(&mut self, id: &String)
        requires
            old(self).wf(),
        ensures
            final(self).wf(),
            final(self).nodepools == old(self).nodepools,
            !map_has(old(self).rulesets@, id@) ==> *final(self) == *old(self),
            map_has(old(self).rulesets@, id@) ==> final(self).rulesets@ =~= old(
                self,
            ).rulesets@.remove(map_index(old(self).rulesets@, id@)),
            !map_has(final(self).rulesets@, id@),
            forall|p: Seq<char>, r: Seq<char>| #[trigger] tree_has(
                final(self).dependency_tree@,
                p,
                r,
            ) <==> tree_has(old(self).dependency_tree@, p, r) && r != id@,
            remove_ruleset_rel(*old(self), *final(self), id@),
    {
        let ghost pre_tree = old(self).dependency_tree@;
        let ghost pre_rs = old(self).rulesets@;
        let found = self.rulesets.index_of(id);
        let i = match found {
            None => {
                proof {
                    assert forall|p: Seq<char>, r: Seq<char>| #[trigger] tree_has(
                        self.dependency_tree@,
                        p,
                        r,
                    ) implies tree_has(pre_tree, p, r) && r != id@ by {
                        if r == id@ {
                            assert(map_has(pre_rs, r));
                        }
                    }
                }
                return ;
            },
            Some(i) => i,
        };
        proof {
            lemma_map_index_unique(pre_rs, id@, i as int);
        }
        let rs: &RuleSet = self.rulesets.val_at(i);
        let ghost rsv = map_at(pre_rs, id@);
        let nrules = rs.rules.len();
        let mut ri: usize = 0;
        while ri < nrules
            invariant
                rs@ == rsv,
                nrules == rsv.rules.len(),
                ri <= nrules,
                self.rulesets == old(self).rulesets,
                self.nodepools == old(self).nodepools,
                tree_wf(self.dependency_tree@),
                forall|p: Seq<char>, r: Seq<char>| #[trigger] tree_has(
                    self.dependency_tree@,
                    p,
                    r,
                ) <==> tree_has(pre_tree, p, r) && !(r == id@ && refs_upto(
                    rsv,
                    ri as int,
                    0,
                    p,
                )),
            decreases nrules - ri,
        {
            let rule = &rs.rules[ri];
            let nnp = rule.nodepools.len();
            let mut pi: usize = 0;
            while pi < nnp
                invariant
                    rs@ == rsv,
                    nrules == rsv.rules.len(),
                    ri < nrules,
                    rule@ == rsv.rules[ri as int],
                    nnp == rsv.rules[ri as int].nodepools.len(),
                    pi <= nnp,
                    self.rulesets == old(self).rulesets,
                    self.nodepools == old(self).nodepools,
                    tree_wf(self.dependency_tree@),
                    forall|p: Seq<char>, r: Seq<char>| #[trigger] tree_has(
                        self.dependency_tree@,
                        p,
                        r,
                    ) <==> tree_has(pre_tree, p, r) && !(r == id@ && refs_upto(
                        rsv,
                        ri as int,
                        pi as int,
                        p,
                    )),
                decreases nnp - pi,
            {
                let ghost mid = self.dependency_tree@;
                remove_dependency(&mut self.dependency_tree, &rule.nodepools[pi], id);
                proof {
                    let npv = rsv.rules[ri as int].nodepools[pi as int];
                    assert(rule.nodepools@.map_values(|s: String| s@)[pi as int] == npv);
                    assert(rule.nodepools@[pi as int]@ == npv);
                    assert forall|p: Seq<char>, r: Seq<char>| #[trigger] tree_has(
                        self.dependency_tree@,
                        p,
                        r,
                    ) <==> tree_has(pre_tree, p, r) && !(r == id@ && refs_upto(
                        rsv,
                        ri as int,
                        pi + 1,
                        p,
                    )) by {
                        assert(tree_has(self.dependency_tree@, p, r) <==> tree_has(mid, p, r)
                            && !(p == npv && r == id@));
                        assert(refs_upto(rsv, ri as int, pi + 1, p) <==> refs_upto(
                            rsv,
                            ri as int,
                            pi as int,
                            p,
                        ) || p == npv) by {
                            if p == npv {
                                assert(rsv.rules[ri as int].nodepools[pi as int] == p);
                            }
                            if refs_upto(rsv, ri as int, pi + 1, p) && p != npv {
                                if exists|b: int| 0 <= b < pi + 1
                                    && rsv.rules[ri as int].nodepools[b] == p {
                                    let b = choose|b: int| 0 <= b < pi + 1
                                        && rsv.rules[ri as int].nodepools[b] == p;
                                    assert(b < pi);
                                }
                            }
                        }
                    }
                }
                pi = pi + 1;
            }
            proof {
                assert forall|p: Seq<char>| refs_upto(rsv, ri + 1, 0, p) <==> refs_upto(
                    rsv,
                    ri as int,
                    nnp as int,
                    p,
                ) by {
                    if refs_upto(rsv, ri + 1, 0, p) && !refs_upto(rsv, ri as int, 0, p) {
                        let a = choose|a: int| 0 <= a < ri + 1 && (
                        #[trigger] rsv.rules[a]).nodepools.contains(p);
                        assert(a == ri);
                        let b = choose|b: int| 0 <= b < rsv.rules[ri as int].nodepools.len()
                            && rsv.rules[ri as int].nodepools[b] == p;
                        assert(0 <= b < nnp && rsv.rules[ri as int].nodepools[b] == p);
                    }
                    if refs_upto(rsv, ri as int, nnp as int, p) && !refs_upto(
                        rsv,
                        ri as int,
                        0,
                        p,
                    ) {
                        let b = choose|b: int| 0 <= b < nnp
                            && rsv.rules[ri as int].nodepools[b] == p;
                        assert(rsv.rules[ri as int].nodepools.contains(p));
                    }
                }
            }
            ri = ri + 1;
        }
        let ghost post_tree = self.dependency_tree@;
        self.rulesets.remove(id);
        proof {
            lemma_remove_frame::<RuleSetV>(pre_rs, self.rulesets@, i as int);
            pre_rs.remove_ensures(i as int);
            assert forall|j: int| 0 <= j < self.rulesets@.len() implies rsv_wf(
                (#[trigger] self.rulesets@[j]).1,
            ) by {
                let j0: int = if j < i { j } else { j + 1 };
                assert(self.rulesets@[j] == pre_rs[j0]);
            }
            assert forall|p: Seq<char>, r: Seq<char>| #[trigger] tree_has(
                self.dependency_tree@,
                p,
                r,
            ) <==> tree_has(pre_tree, p, r) && r != id@ by {
                assert(tree_has(post_tree, p, r) <==> tree_has(pre_tree, p, r) && !(r == id@
                    && refs_upto(rsv, rsv.rules.len() as int, 0, p)));
                if tree_has(pre_tree, p, id@) {
                    assert(rs_refs(rsv, p));
                    let a = choose|a: int| 0 <= a < rsv.rules.len() && (
                    #[trigger] rsv.rules[a]).nodepools.contains(p);
                    assert(refs_upto(rsv, rsv.rules.len() as int, 0, p));
                }
            }
            assert(self.index_ok()) by {
                assert forall|p: Seq<char>, r: Seq<char>| #[trigger] tree_has(
                    self.dependency_tree@,
                    p,
                    r,
                ) <==> (map_has(self.rulesets@, r) && rs_refs(map_at(self.rulesets@, r), p)) by {
                    if r != id@ {
                        if map_has(pre_rs, r) {
                            assert(map_at(self.rulesets@, r) == map_at(pre_rs, r));
                        }
                    }
                }
            }
        }
    }

    /// Replaces whatever rule set was stored under `id` with `ruleset`,
    /// rebuilding the dependency index entries it induces.
    pub fn add_ruleset(&mut self, id: String, ruleset: RuleSet)
        requires
            old(self).wf(),
            ruleset.wf(),
        ensures
            final(self).wf(),
            final(self).nodepools == old(self).nodepools,
            map_has(old(self).rulesets@, id@) ==> final(self).rulesets@ =~= old(
                self,
            ).rulesets@.remove(map_index(old(self).rulesets@, id@)).push((id@, ruleset@)),
            !map_has(old(self).rulesets@, id@) ==> final(self).rulesets@ =~= old(
                self,
            ).rulesets@.push((id@, ruleset@)),
            forall|p: Seq<char>, r: Seq<char>| #[trigger] tree_has(
                final(self).dependency_tree@,
                p,
                r,
            ) <==> (tree_has(old(self).dependency_tree@, p, r) && r != id@) || (r == id@
                && rs_refs(ruleset@, p)),
            add_ruleset_rel(*old(self), *final(self), id@, ruleset@),
    {
        let ghost pre_tree = old(self).dependency_tree@;
        let ghost pre_rs = old(self).rulesets@;
        self.remove_ruleset(&id);
        let ghost mid_tree = self.dependency_tree@;
        let ghost mid_rs = self.rulesets@;
        let ghost rsv = ruleset@;
        let nrules = ruleset.rules.len();
        let mut ri: usize = 0;
        while ri < nrules
            invariant
                ruleset@ == rsv,
                nrules == rsv.rules.len(),
                ri <= nrules,
                tree_wf(self.dependency_tree@),
                self.rulesets@ == mid_rs,
                self.nodepools == old(self).nodepools,
                forall|p: Seq<char>, r: Seq<char>| #[trigger] tree_has(
                    self.dependency_tree@,
                    p,
                    r,
                ) <==> tree_has(mid_tree, p, r) || (r == id@ && refs_upto(
                    rsv,
                    ri as int,
                    0,
                    p,
                )),
            decreases nrules - ri,
        {
            let rule = &ruleset.rules[ri];
            let nnp = rule.nodepools.len();
            let mut pi: usize = 0;
            while pi < nnp
                invariant
                    ruleset@ == rsv,
                    nrules == rsv.rules.len(),
                    ri < nrules,
                    rule@ == rsv.rules[ri as int],
                    nnp == rsv.rules[ri as int].nodepools.len(),
                    pi <= nnp,
                    tree_wf(self.dependency_tree@),
                    self.rulesets@ == mid_rs,
                    self.nodepools == old(self).nodepools,
                    forall|p: Seq<char>, r: Seq<char>| #[trigger] tree_has(
                        self.dependency_tree@,
                        p,
                        r,
                    ) <==> tree_has(mid_tree, p, r) || (r == id@ && refs_upto(
                        rsv,
                        ri as int,
                        pi as int,
                        p,
                    )),
                decreases nnp - pi,
            {
                let ghost cur = self.dependency_tree@;
                add_dependency(&mut self.dependency_tree, &rule.nodepools[pi], &id);
                proof {
                    let npv = rsv.rules[ri as int].nodepools[pi as int];
                    assert(rule.nodepools@.map_values(|s: String| s@)[pi as int] == npv);
                    assert(rule.nodepools@[pi as int]@ == npv);
                    assert forall|p: Seq<char>, r: Seq<char>| #[trigger] tree_has(
                        self.dependency_tree@,
                        p,
                        r,
                    ) <==> tree_has(mid_tree, p, r) || (r == id@ && refs_upto(
                        rsv,
                        ri as int,
                        pi + 1,
                        p,
                    )) by {
                        assert(tree_has(self.dependency_tree@, p, r) <==> tree_has(cur, p, r)
                            || (p == npv && r == id@));
                        assert(refs_upto(rsv, ri as int, pi + 1, p) <==> refs_upto(
                            rsv,
                            ri as int,
                            pi as int,
                            p,
                        ) || p == npv) by {
                            if p == npv {
                                assert(rsv.rules[ri as int].nodepools[pi as int] == p);
                            }
                            if refs_upto(rsv, ri as int, pi + 1, p) && p != npv {
                                if exists|b: int| 0 <= b < pi + 1
                                    && rsv.rules[ri as int].nodepools[b] == p {
                                    let b = choose|b: int| 0 <= b < pi + 1
                                        && rsv.rules[ri as int].nodepools[b] == p;
                                    assert(b < pi);
                                }
                            }
                        }
                    }
                }
                pi = pi + 1;
            }
            proof {
                assert forall|p: Seq<char>| refs_upto(rsv, ri + 1, 0, p) <==> refs_upto(
                    rsv,
                    ri as int,
                    nnp as int,
                    p,
                ) by {
                    if refs_upto(rsv, ri + 1, 0, p) && !refs_upto(rsv, ri as int, 0, p) {
                        let a = choose|a: int| 0 <= a < ri + 1 && (
                        #[trigger] rsv.rules[a]).nodepools.contains(p);
                        assert(a == ri);
                        let b = choose|b: int| 0 <= b < rsv.rules[ri as int].nodepools.len()
                            && rsv.rules[ri as int].nodepools[b] == p;
                        assert(0 <= b < nnp && rsv.rules[ri as int].nodepools[b] == p);
                    }
                    if refs_upto(rsv, ri as int, nnp as int, p) && !refs_upto(
                        rsv,
                        ri as int,
                        0,
                        p,
                    ) {
                        let b = choose|b: int| 0 <= b < nnp
                            && rsv.rules[ri as int].nodepools[b] == p;
                        assert(rsv.rules[ri as int].nodepools.contains(p));
                    }
                }
            }
            ri = ri + 1;
        }
        let ghost post_tree = self.dependency_tree@;
        self.rulesets.insert(id, ruleset);
        proof {
            assert(!map_has(mid_rs, id@));
            assert(self.rulesets@ =~= mid_rs.push((id@, rsv)));
            lemma_insert_frame::<RuleSetV>(mid_rs, self.rulesets@, id@, rsv);
            assert forall|j: int| 0 <= j < self.rulesets@.len() implies rsv_wf(
                (#[trigger] self.rulesets@[j]).1,
            ) by {
                if j < mid_rs.len() {
                    assert(self.rulesets@[j] == mid_rs[j]);
                } else {
                    assert(self.rulesets@[j].1 == rsv);
                    assert forall|a: int| 0 <= a < rsv.rules.len() implies ports_sorted(
                        (#[trigger] rsv.rules[a]).ports,
                    ) && distinct_seq(rsv.rules[a].nodepools) by {
                        assert(rsv.rules[a] == ruleset.rules@[a]@);
                        assert(ruleset.rules@[a].wf());
                    }
                }
            }
            assert forall|p: Seq<char>| refs_upto(rsv, rsv.rules.len() as int, 0, p)
                <==> rs_refs(rsv, p) by {}
            assert forall|p: Seq<char>, r: Seq<char>| #[trigger] tree_has(
                self.dependency_tree@,
                p,
                r,
            ) <==> (tree_has(pre_tree, p, r) && r != id@) || (r == id@ && rs_refs(
                rsv,
                p,
            )) by {
                assert(tree_has(post_tree, p, r) <==> tree_has(mid_tree, p, r) || (r == id@
                    && refs_upto(rsv, rsv.rules.len() as int, 0, p)));
                assert(tree_has(mid_tree, p, r) <==> tree_has(pre_tree, p, r) && r != id@);
            }
            assert(self.index_ok()) by {
                assert forall|p: Seq<char>, r: Seq<char>| #[trigger] tree_has(
                    self.dependency_tree@,
                    p,
                    r,
                ) <==> (map_has(self.rulesets@, r) && rs_refs(map_at(self.rulesets@, r), p)) by {
                    if r == id@ {
                        assert(map_at(self.rulesets@, r) == rsv);
                    } else {
                        if map_has(pre_rs, id@) {
                            lemma_remove_frame::<RuleSetV>(
                                pre_rs,
                                mid_rs,
                                map_index(pre_rs, id@),
                            );
                            assert(pre_rs[map_index(pre_rs, id@)].0 == id@) by {
                                lemma_map_index_unique(
                                    pre_rs,
                                    id@,
                                    map_index(pre_rs, id@),
                                );
                            }
                        }
                        if map_has(mid_rs, r) {
                            assert(map_at(self.rulesets@, r) == map_at(mid_rs, r));
                            assert(map_at(mid_rs, r) == map_at(pre_rs, r));
                        }
                        if map_has(pre_rs, r) {
                            assert(map_has(mid_rs, r));
                        }
                    }
                }
            }
            assert(map_has(pre_rs, id@) ==> self.rulesets@ =~= pre_rs.remove(
                map_index(pre_rs, id@),
            ).push((id@, rsv)));
            assert(!map_has(pre_rs, id@) ==> self.rulesets@ =~= pre_rs.push((id@, rsv)));
        }
    }
}

/// The maintained dependency index read as a map from pool id to the set
/// of rule-set ids under it.
pub open spec fn tree_sets(t: Seq<(Seq<char>, Seq<Seq<char>>)>) -> Map<Seq<char>, Set<Seq<char>>> {
    Map::new(|p: Seq<char>| map_has(t, p), |p: Seq<char>| map_at(t, p).to_set())
}

/// The ground-truth oracle: the dependency index recomputed from scratch
/// by scanning every stored rule set's rules.
pub open spec fn recomputed_index(rulesets: Seq<(Seq<char>, RuleSetV)>) -> Map<
    Seq<char>,
    Set<Seq<char>>,
> {
    Map::new(
        |p: Seq<char>|
            exists|r: Seq<char>| #[trigger] map_has(rulesets, r) && rs_refs(
                map_at(rulesets, r),
                p,
            ),
        |p: Seq<char>|
            Set::new(
                |r: Seq<char>| map_has(rulesets, r) && rs_refs(map_at(rulesets, r), p),
            ),
    )
}

/// In every well-formed state the maintained dependency index equals the
/// index recomputed from scratch from the stored rule sets.
pub proof fn lemma_index_matches_recomputed(c: ConfigState)
    requires
        c.wf(),
    ensures
        tree_sets(c.dependency_tree@) =~~= recomputed_index(c.rulesets@),
{
    let t = c.dependency_tree@;
    let rs = c.rulesets@;
    assert forall|p: Seq<char>| #[trigger] map_has(t, p) implies exists|r: Seq<char>|
        #[trigger] map_has(rs, r) && rs_refs(map_at(rs, r), p) by {
        let i = map_index(t, p);
        lemma_map_index_unique(t, p, i);
        let ids = t[i].1;
        assert(ids.len() > 0);
        let r0 = ids[0];
        assert(ids.contains(r0));
        assert(tree_has(t, p, r0));
    }
    assert forall|p: Seq<char>|
        (exists|r: Seq<char>| #[trigger] map_has(rs, r) && rs_refs(
            map_at(rs, r),
            p,
        )) implies map_has(t, p) by {
        let r = choose|r: Seq<char>| #[trigger] map_has(rs, r) && rs_refs(map_at(rs, r), p);
        assert(tree_has(t, p, r));
    }
    assert forall|p: Seq<char>| map_has(t, p) implies map_at(t, p).to_set() =~= Set::new(
        |r: Seq<char>| map_has(rs, r) && rs_refs(map_at(rs, r), p),
    ) by {
        assert forall|r: Seq<char>| #[trigger] map_at(t, p).contains(r) implies map_has(rs, r)
            && rs_refs(map_at(rs, r), p) by {
            assert(tree_has(t, p, r));
        }
        assert forall|r: Seq<char>| map_has(rs, r) && rs_refs(map_at(rs, r), p) implies map_at(
            t,
            p,
        ).contains(r) by {
            assert(tree_has(t, p, r));
        }
    }
}

/// How `add_ruleset` relates the state before to the state after storing
/// `rs` under `id`; exactly what its contract promises.
pub open spec fn add_ruleset_rel(
    pre: ConfigState,
    post: ConfigState,
    id: Seq<char>,
    rs: RuleSetV,
) -> bool {
    &&& post.nodepools == pre.nodepools
    &&& (map_has(pre.rulesets@, id) ==> post.rulesets@ =~= pre.rulesets@.remove(
        map_index(pre.rulesets@, id),
    ).push((id, rs)))
    &&& (!map_has(pre.rulesets@, id) ==> post.rulesets@ =~= pre.rulesets@.push((id, rs)))
    &&& (forall|p: Seq<char>, r: Seq<char>| #[trigger] tree_has(post.dependency_tree@, p, r)
        <==> (tree_has(pre.dependency_tree@, p, r) && r != id) || (r == id && rs_refs(rs, p)))
    &&& tree_wf(post.dependency_tree@)
}

/// How `add_nodepool` relates the state before to the state after
/// storing `pool` under `id`; exactly what its contract promises.
pub open spec fn add_nodepool_rel(
    pre: ConfigState,
    post: ConfigState,
    id: Seq<char>,
    pool: PoolV,
) -> bool {
    &&& post.rulesets == pre.rulesets
    &&& post.dependency_tree == pre.dependency_tree
    &&& map_has(post.nodepools@, id)
    &&& map_at(post.nodepools@, id) == pool
    &&& (forall|h: Seq<char>| h != id ==> (map_has(post.nodepools@, h) <==> map_has(
        pre.nodepools@,
        h,
    )))
    &&& (forall|h: Seq<char>| h != id && map_has(pre.nodepools@, h) ==> map_at(
        post.nodepools@,
        h,
    ) == map_at(pre.nodepools@, h))
}

/// How `remove_nodepool` relates the state before to the state after
/// dropping the pool under `id`; exactly what its contract promises.
pub open spec fn remove_nodepool_rel(pre: ConfigState, post: ConfigState, id: Seq<char>) -> bool {
    &&& post.rulesets == pre.rulesets
    &&& post.dependency_tree == pre.dependency_tree
    &&& !map_has(post.nodepools@, id)
    &&& (!map_has(pre.nodepools@, id) ==> post == pre)
    &&& (forall|h: Seq<char>| h != id ==> (map_has(post.nodepools@, h) <==> map_has(
        pre.nodepools@,
        h,
    )))
    &&& (forall|h: Seq<char>| h != id && map_has(pre.nodepools@, h) ==> map_at(
        post.nodepools@,
        h,
    ) == map_at(pre.nodepools@, h))
}

/// How `remove_ruleset` relates the state before to the state after
/// dropping the rule set under `id`; exactly what its contract promises.
pub open spec fn remove_ruleset_rel(pre: ConfigState, post: ConfigState, id: Seq<char>) -> bool {
    &&& post.nodepools == pre.nodepools
    &&& (!map_has(pre.rulesets@, id) ==> post == pre)
    &&& (map_has(pre.rulesets@, id) ==> post.rulesets@ =~= pre.rulesets@.remove(
        map_index(pre.rulesets@, id),
    ))
    &&& !map_has(post.rulesets@, id)
    &&& (forall|p: Seq<char>, r: Seq<char>| #[trigger] tree_has(post.dependency_tree@, p, r)
        <==> tree_has(pre.dependency_tree@, p, r) && r != id)
}

/// Two dependency indexes with the same membership carry the same sets.
pub proof fn lemma_tree_sets_by_membership(
    a: Seq<(Seq<char>, Seq<Seq<char>>)>,
    b: Seq<(Seq<char>, Seq<Seq<char>>)>,
)
    requires
        tree_wf(a),
        tree_wf(b),
        forall|p: Seq<char>, r: Seq<char>| #[trigger] tree_has(a, p, r) <==> #[trigger] tree_has(
            b,
            p,
            r,
        ),
    ensures
        tree_sets(a) =~~= tree_sets(b),
{
    assert forall|p: Seq<char>| #[trigger] map_has(a, p) implies map_has(b, p) by {
        let i = map_index(a, p);
        lemma_map_index_unique(a, p, i);
        let ids = a[i].1;
        assert(ids.len() > 0);
        let r0 = ids[0];
        assert(ids.contains(r0));
        assert(tree_has(a, p, r0));
        assert(tree_has(b, p, r0));
    }
    assert forall|p: Seq<char>| #[trigger] map_has(b, p) implies map_has(a, p) by {
        let i = map_index(b, p);
        lemma_map_index_unique(b, p, i);
        let ids = b[i].1;
        assert(ids.len() > 0);
        let r0 = ids[0];
        assert(ids.contains(r0));
        assert(tree_has(b, p, r0));
        assert(tree_has(a, p, r0));
    }
    assert forall|p: Seq<char>| map_has(a, p) implies map_at(a, p).to_set() =~= map_at(
        b,
        p,
    ).to_set() by {
        assert forall|r: Seq<char>| #[trigger] map_at(a, p).contains(r) implies map_at(
            b,
            p,
        ).contains(r) by {
            assert(tree_has(a, p, r));
            assert(tree_has(b, p, r));
        }
        assert forall|r: Seq<char>| #[trigger] map_at(b, p).contains(r) implies map_at(
            a,
            p,
        ).contains(r) by {
            assert(tree_has(b, p, r));
            assert(tree_has(a, p, r));
        }
    }
}

/// Storing a rule set under an id it never had, in two steps with an
/// intermediate rule set, leaves exactly the state that storing the final
/// rule set alone leaves: add is replace, not merge.
pub proof fn lemma_add_is_replace(
    c0: ConfigState,
    c1: ConfigState,
    c2: ConfigState,
    d1: ConfigState,
    id: Seq<char>,
    x: RuleSetV,
    y: RuleSetV,
)
    requires
        c0.wf(),
        !map_has(c0.rulesets@, id),
        add_ruleset_rel(c0, c1, id, x),
        add_ruleset_rel(c1, c2, id, y),
        add_ruleset_rel(c0, d1, id, y),
    ensures
        c2.nodepools == d1.nodepools,
        c2.rulesets@ == d1.rulesets@,
        tree_sets(c2.dependency_tree@) =~~= tree_sets(d1.dependency_tree@),
{
    let n: int = c0.rulesets@.len() as int;
    assert(c1.rulesets@ =~= c0.rulesets@.push((id, x)));
    assert(c1.rulesets@[n].0 == id);
    assert(map_wf(c1.rulesets@)) by {
        assert forall|a: int, b: int| 0 <= a < b < c1.rulesets@.len() implies c1.rulesets@[a].0
            != c1.rulesets@[b].0 by {
            if b < n {
                assert(c0.rulesets@[a].0 != c0.rulesets@[b].0);
            } else {
                assert(c1.rulesets@[a].0 == c0.rulesets@[a].0);
                assert(!(0 <= a < c0.rulesets@.len() && c0.rulesets@[a].0 == id));
            }
        }
    }
    lemma_map_index_unique(c1.rulesets@, id, n);
    assert(c2.rulesets@ =~= c1.rulesets@.remove(n).push((id, y)));
    assert(c1.rulesets@.remove(n) =~= c0.rulesets@) by {
        c1.rulesets@.remove_ensures(n);
    }
    assert(c2.rulesets@ =~= c0.rulesets@.push((id, y)));
    assert(d1.rulesets@ =~= c0.rulesets@.push((id, y)));
    assert(c2.rulesets@ =~= d1.rulesets@);
    assert forall|p: Seq<char>, r: Seq<char>| #[trigger] tree_has(c2.dependency_tree@, p, r)
        <==> #[trigger] tree_has(d1.dependency_tree@, p, r) by {
        assert(tree_has(c2.dependency_tree@, p, r) <==> (tree_has(c1.dependency_tree@, p, r) && r
            != id) || (r == id && rs_refs(y, p)));
        assert(tree_has(c1.dependency_tree@, p, r) && r != id <==> tree_has(
            c0.dependency_tree@,
            p,
            r,
        ) && r != id);
    }
    lemma_tree_sets_by_membership(c2.dependency_tree@, d1.dependency_tree@);
}

} // verus!
