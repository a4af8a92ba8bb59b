use vstd::prelude::*;

use crate::strmap::{map_has, map_insert, map_remove, AssocMap};

verus! {

/// One reported address of a cluster node, tagged with its kind.
pub struct NodeAddress {
    pub kind: String,
    pub address: String,
}

pub ghost struct NodeAddressV {
    pub kind: Seq<char>,
    pub address: Seq<char>,
}

impl View for NodeAddress {
    type V = NodeAddressV;

    open spec fn view(&self) -> NodeAddressV {
        NodeAddressV { kind: self.kind@, address: self.address@ }
    }
}

impl NodeAddress {
    pub fn new(kind: String, address: String) -> (r: Self)
        ensures
            r@.kind == kind@,
            r@.address == address@,
    {
        NodeAddress { kind, address }
    }
}

/// What the reconciler reads of a cluster node: its name and its reported
/// addresses, in reported order.
pub struct NodeInfo {
    pub name: String,
    pub addresses: Vec<NodeAddress>,
}

pub ghost struct NodeInfoV {
    pub name: Seq<char>,
    pub addresses: Seq<NodeAddressV>,
}

impl View for NodeInfo {
    type V = NodeInfoV;

    open spec fn view(&self) -> NodeInfoV {
        NodeInfoV {
            name: self.name@,
            addresses: self.addresses@.map_values(|a: NodeAddress| a@),
        }
    }
}

impl NodeInfo {
    pub fn new(name: String, addresses: Vec<NodeAddress>) -> (r: Self)
        ensures
            r@.name == name@,
            r@.addresses == addresses@.map_values(|a: NodeAddress| a@),
    {
        NodeInfo { name, addresses }
    }
}

/// One node lifecycle event from the cluster watch stream.
pub enum NodeEvent {
    /// The node was created or updated.
    Applied(NodeInfo),
    /// The watch was re-established and lost track of prior state; the
    /// whole membership map must be rebuilt from this full collection.
    Restarted(Vec<NodeInfo>),
    /// The node is gone.
    Deleted(NodeInfo),
}

/// The address kind whose entry counts as the node's external address.
pub open spec fn external_kind() -> Seq<char> {
    seq!['E', 'x', 't', 'e', 'r', 'n', 'a', 'l', 'I', 'P']
}

/// The first reported address tagged as external, if any.
pub open spec fn first_external(addrs: Seq<NodeAddressV>) -> Option<Seq<char>>
    decreases addrs.len(),
{
    if addrs.len() == 0 {
        None
    } else if addrs[0].kind == external_kind() {
        Some(addrs[0].address)
    } else {
        first_external(addrs.drop_first())
    }
}

/// The node's externally reachable address: the first entry of its
/// address list tagged `ExternalIP`, or nothing.
pub fn extract_public_ip(node: &NodeInfo) -> (r: Option<&String>)
    ensures
        match r {
            Some(ip) => first_external(node@.addresses) == Some(ip@),
            None => first_external(node@.addresses) is None,
        },
{
    proof {
        reveal_strlit("ExternalIP");
        assert("ExternalIP"@ =~= external_kind());
    }
    let ext: String = "ExternalIP".to_owned();
    let n = node.addresses.len();
    let mut i: usize = 0;
    proof {
        assert(node@.addresses.skip(0) =~= node@.addresses);
    }
    while i < n
        invariant
            n == node@.addresses.len(),
            node@.addresses == node.addresses@.map_values(|a: NodeAddress| a@),
            ext@ == external_kind(),
            i <= n,
            first_external(node@.addresses) == first_external(node@.addresses.skip(i as int)),
        decreases n - i,
    {
        proof {
            assert(node@.addresses.skip(i as int)[0] == node@.addresses[i as int]);
            assert(node@.addresses.skip(i as int).drop_first() =~= node@.addresses.skip(i + 1));
        }
        if node.addresses[i].kind == ext {
            return Some(&node.addresses[i].address);
        }
        i = i + 1;
    }
    proof {
        assert(node@.addresses.skip(n as int) =~= Seq::<NodeAddressV>::empty());
    }
    None
}

/// The membership map after seeing `n` applied: its first external
/// address is recorded under its name, and a node without one changes
/// nothing, not even a previously recorded address.
pub open spec fn apply_node(
    m: Seq<(Seq<char>, Seq<char>)>,
    n: NodeInfoV,
) -> Seq<(Seq<char>, Seq<char>)> {
    match first_external(n.addresses) {
        Some(ip) => map_insert(m, n.name, ip),
        None => m,
    }
}

/// The membership map rebuilt from scratch from a full node collection.
pub open spec fn rebuild(nodes: Seq<NodeInfoV>) -> Seq<(Seq<char>, Seq<char>)>
    decreases nodes.len(),
{
    if nodes.len() == 0 {
        Seq::empty()
    } else {
        apply_node(rebuild(nodes.drop_last()), nodes.last())
    }
}

/// The authoritative map from node name to externally reachable address,
/// maintained by consuming the cluster watch stream.
pub struct Membership {
    pub map: AssocMap<String>,
}

impl Membership {
    pub open spec fn wf(&self) -> bool {
        self.map.wf()
    }

    pub fn new() -> (r: Self)
        ensures
            r.wf(),
            r.map@ =~= Seq::<(Seq<char>, Seq<char>)>::empty(),
    {
        Membership { map: AssocMap::new() }
    }

    /// The recorded address of a node, if any: the snapshot interface for
    /// readers outside the reconciler's own task.
    pub fn lookup(&self, hostname: &String) -> (r: Option<&String>)
        requires
            self.wf(),
        ensures
            match r {
                Some(ip) => map_has(self.map@, hostname@) && ip@ == crate::strmap::map_at(
                    self.map@,
                    hostname@,
                ),
                None => !map_has(self.map@, hostname@),
            },
    {
        self.map.get(hostname)
    }

    pub fn len(&self) -> (r: usize)
        ensures
            r == self.map@.len(),
    {
        self.map.len()
    }

    fn apply_applied(&mut self, node: &NodeInfo)
        requires
            old(self).wf(),
        ensures
            final(self).wf(),
            final(self).map@ =~= apply_node(old(self).map@, node@),
    {
        let found = extract_public_ip(node);
        let owned: Option<String> = match found {
            Some(ip) => Some(ip.clone()),
            None => None,
        };
        match owned {
            Some(ip) => {
                self.map.insert(node.name.clone(), ip);
            },
            None => {},
        }
    }

    /// Consumes one watch event, as the reconciliation loop's single step.
    pub fn apply_event(&mut self, event: &NodeEvent)
        requires
            old(self).wf(),
        ensures
            final(self).wf(),
            (event matches NodeEvent::Applied(n) ==> final(self).map@ =~= apply_node(
                old(self).map@,
                n@,
            )),
            (event matches NodeEvent::Deleted(n) ==> final(self).map@ =~= map_remove(
                old(self).map@,
                n@.name,
            )),
            (event matches NodeEvent::Restarted(nodes) ==> final(self).map@ =~= rebuild(
                nodes@.map_values(|x: NodeInfo| x@),
            )),
    {
        match event {
            NodeEvent::Applied(node) => {
                self.apply_applied(node);
            },
            NodeEvent::Deleted(node) => {
                self.map.remove(&node.name);
            },
            NodeEvent::Restarted(nodes) => {
                self.map.clear();
                let ghost all = nodes@.map_values(|x: NodeInfo| x@);
                let n = nodes.len();
                let mut i: usize = 0;
                proof {
                    assert(all.take(0) =~= Seq::<NodeInfoV>::empty());
                }
                while i < n
                    invariant
                        n == nodes@.len(),
                        all == nodes@.map_values(|x: NodeInfo| x@),
                        i <= n,
                        self.wf(),
                        self.map@ =~= rebuild(all.take(i as int)),
                    decreases n - i,
                {
                    self.apply_applied(&nodes[i]);
                    proof {
                        assert(all.take(i + 1).drop_last() =~= all.take(i as int));
                        assert(all.take(i + 1).last() == all[i as int]);
                        assert(all[i as int] == nodes@[i as int]@);
                    }
                    i = i + 1;
                }
                proof {
                    assert(all.take(n as int) =~= all);
                }
            },
        }
    }
}

} // verus!
