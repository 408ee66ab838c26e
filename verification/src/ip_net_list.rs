//! A set of IP networks that peers are checked against.

use crate::ip::{displayed_text_parses_back, spec_ip_net_text, spec_parse_ip_net, IpAddr, IpNet};
use vstd::prelude::*;

verus! {

/// List of IP networks to allow / disallow; no network occurs twice.
#[derive(Debug)]
pub struct IpNetList {
    nets: Vec<IpNet>,
}

impl Clone for IpNetList {
    fn clone(&self) -> (r: Self)
        ensures
            r@ == self@,
    {
        proof {
            use_type_invariant(self);
        }
        let nets = self.nets.clone();
        assert(nets@ =~= self.nets@);
        IpNetList { nets }
    }
}

/// `texts` are the texts of `nets`, one for one, and every network is valid.
pub open spec fn texts_of_nets(texts: Seq<String>, nets: Seq<IpNet>) -> bool {
    &&& texts.len() == nets.len()
    &&& forall|i: int| 0 <= i < nets.len() ==> #[trigger] nets[i].wf() && texts[i]@ == spec_ip_net_text(nets[i])
}

/// The networks that some text of `texts` describes.
pub open spec fn nets_from_texts(texts: Seq<String>) -> Set<IpNet> {
    Set::new(|net: IpNet| exists|i: int| 0 <= i < texts.len() && spec_parse_ip_net(#[trigger] texts[i]@) == Some(net))
}

impl View for IpNetList {
    type V = Set<IpNet>;

    closed spec fn view(&self) -> Set<IpNet> {
        self.nets@.to_set()
    }
}

impl IpNetList {
    #[verifier::type_invariant]
    closed spec fn wf(self) -> bool {
        self.nets@.no_duplicates()
    }

    /// Create a new IpNetList instance without any networks.
    pub fn new() -> (r: IpNetList)
        ensures
            r@ == Set::<IpNet>::empty(),
    {
        let r = IpNetList { nets: Vec::new() };
        assert(r@ =~= Set::<IpNet>::empty());
        r
    }

    /// Add a network to the list.
    pub fn add(&mut self, net: IpNet)
        ensures
            final(self)@ == old(self)@.insert(net),
    {
        proof {
            use_type_invariant(&*self);
        }
        let n = self.nets.len();
        let mut i: usize = 0;
        while i < n
            invariant
                n == self.nets@.len(),
                i <= n,
                forall|j: int| 0 <= j < i ==> self.nets@[j] != net,
            decreases n - i,
        {
            if self.nets[i] == net {
                assert(self.nets@.to_set() =~= self.nets@.to_set().insert(net));
                return;
            }
            i = i + 1;
        }
        let ghost before = self.nets@;
        let mut nets = Vec::new();
        std::mem::swap(&mut nets, &mut self.nets);
        nets.push(net);
        assert(nets@ =~= before.push(net));
        assert forall|y: IpNet| nets@.to_set().contains(y) <==> before.to_set().insert(net).contains(y) by {
            if nets@.contains(y) {
                let k = choose|k: int| 0 <= k < nets@.len() && nets@[k] == y;
                if k < n {
                    assert(before[k] == y);
                }
            }
            if before.contains(y) {
                let k = choose|k: int| 0 <= k < before.len() && before[k] == y;
                assert(nets@[k] == y);
            }
            if y == net {
                assert(nets@[n as int] == y);
            }
        }
        assert(nets@.to_set() =~= before.to_set().insert(net));
        self.nets = nets;
    }

    /// Remove a network from the list.
    pub fn remove(&mut self, net: IpNet)
        ensures
            final(self)@ == old(self)@.remove(net),
    {
        proof {
            use_type_invariant(&*self);
        }
        let ghost before = self.nets@;
        let n = self.nets.len();
        let mut i: usize = 0;
        while i < n
            invariant
                n == self.nets@.len(),
                before == self.nets@,
                before == old(self).nets@,
                before.no_duplicates(),
                i <= n,
                forall|j: int| 0 <= j < i ==> self.nets@[j] != net,
            decreases n - i,
        {
            if self.nets[i] == net {
                let mut nets = Vec::new();
                std::mem::swap(&mut nets, &mut self.nets);
                nets.remove(i);
                let ghost after = nets@;
                assert(after =~= before.subrange(0, i as int) + before.subrange(i + 1, n as int));
                assert forall|y: IpNet| after.to_set().contains(y) <==> before.to_set().remove(net).contains(y) by {
                    if after.contains(y) {
                        let k = choose|k: int| 0 <= k < after.len() && after[k] == y;
                        if k < i {
                            assert(before[k] == y);
                        } else {
                            assert(before[k + 1] == y);
                        }
                    }
                    if before.contains(y) && y != net {
                        let k = choose|k: int| 0 <= k < before.len() && before[k] == y;
                        if k < i {
                            assert(after[k] == y);
                        } else {
                            assert(after[k - 1] == y);
                        }
                    }
                }
                assert(after.to_set() =~= before.to_set().remove(net));
                self.nets = nets;
                return;
            }
            i = i + 1;
        }
        assert(!before.contains(net));
        assert(before.to_set() =~= before.to_set().remove(net));
    }

    /// Does the list hold a network that contains the address `peer`?
    pub fn contains(&self, peer: &IpAddr) -> (r: bool)
        ensures
            r == exists|net: IpNet| self@.contains(net) && net.spec_contains(*peer),
    {
        let n = self.nets.len();
        let mut i: usize = 0;
        while i < n
            invariant
                n == self.nets@.len(),
                i <= n,
                forall|j: int| 0 <= j < i ==> !self.nets@[j].spec_contains(*peer),
            decreases n - i,
        {
            if self.nets[i].contains(peer) {
                assert(self@.contains(self.nets@[i as int]));
                return true;
            }
            i = i + 1;
        }
        assert forall|net: IpNet| self@.contains(net) implies !net.spec_contains(*peer) by {
            let k = choose|k: int| 0 <= k < n && self.nets@[k] == net;
        }
        false
    }

    /// The networks of the list, each once.
    pub fn iter(&self) -> (r: &[IpNet])
        ensures
            r@.to_set() == self@,
            r@.no_duplicates(),
    {
        proof {
            use_type_invariant(self);
        }
        self.nets.as_slice()
    }

    /// Does this list contain no network?
    pub fn is_empty(&self) -> (r: bool)
        ensures
            r == (self@ == Set::<IpNet>::empty()),
    {
        if self.nets.len() == 0 {
            assert(self@ =~= Set::<IpNet>::empty());
            true
        } else {
            assert(self@.contains(self.nets@[0]));
            false
        }
    }

    /// The texts of the networks in CIDR notation, one per network.
    pub fn to_strings(&self) -> (texts: Vec<String>)
        ensures
            exists|nets: Seq<IpNet>| nets.to_set() == self@ && nets.no_duplicates() && texts_of_nets(texts@, nets),
    {
        proof {
            use_type_invariant(self);
        }
        let n = self.nets.len();
        let mut texts: Vec<String> = Vec::new();
        let mut i: usize = 0;
        while i < n
            invariant
                n == self.nets@.len(),
                i <= n,
                texts_of_nets(texts@, self.nets@.take(i as int)),
            decreases n - i,
        {
            let net = self.nets[i];
            proof {
                use_type_invariant(&net);
            }
            texts.push(net.to_text());
            i = i + 1;
        }
        assert(self.nets@.take(n as int) =~= self.nets@);
        texts
    }

    /// The list of the networks that the texts describe; texts that are not a network
    /// in CIDR notation are skipped. Texts written by `to_strings` give back the list.
    pub fn from_strings(texts: &Vec<String>) -> (r: IpNetList)
        ensures
            r@ == nets_from_texts(texts@),
            forall|nets: Seq<IpNet>| texts_of_nets(texts@, nets) ==> r@ == nets.to_set(),
    {
        let n = texts.len();
        let mut list = IpNetList::new();
        let mut i: usize = 0;
        while i < n
            invariant
                n == texts@.len(),
                i <= n,
                list@ == nets_from_texts(texts@.take(i as int)),
                forall|j: int| 0 <= j < i ==> displayed_text_parses_back(#[trigger] texts@[j]@),
            decreases n - i,
        {
            let ghost before = list@;
            match IpNet::parse(texts[i].as_str()) {
                Some(net) => list.add(net),
                None => {},
            }
            assert forall|net: IpNet| list@.contains(net) <==> nets_from_texts(texts@.take(i + 1)).contains(net) by {
                if nets_from_texts(texts@.take(i + 1)).contains(net) {
                    let k = choose|k: int| 0 <= k < i + 1 && spec_parse_ip_net(#[trigger] texts@.take(i + 1)[k]@) == Some(net);
                    if k < i {
                        assert(texts@.take(i as int)[k] == texts@.take(i + 1)[k]);
                    }
                }
                if before.contains(net) {
                    let k = choose|k: int| 0 <= k < i && spec_parse_ip_net(#[trigger] texts@.take(i as int)[k]@) == Some(net);
                    assert(texts@.take(i as int)[k] == texts@.take(i + 1)[k]);
                }
                if list@.contains(net) && !before.contains(net) {
                    assert(texts@.take(i + 1)[i as int] == texts@[i as int]);
                }
            }
            assert(list@ =~= nets_from_texts(texts@.take(i + 1)));
            i = i + 1;
        }
        assert(texts@.take(n as int) =~= texts@);
        assert forall|nets: Seq<IpNet>| texts_of_nets(texts@, nets) implies list@ == nets.to_set() by {
            assert forall|net: IpNet| nets_from_texts(texts@).contains(net) <==> nets.to_set().contains(net) by {
                if nets_from_texts(texts@).contains(net) {
                    let k = choose|k: int| 0 <= k < texts@.len() && spec_parse_ip_net(#[trigger] texts@[k]@) == Some(net);
                    assert(nets[k].wf());
                    assert(displayed_text_parses_back(texts@[k]@));
                    assert(nets.to_set().contains(nets[k]));
                }
                if nets.to_set().contains(net) {
                    let k = choose|k: int| 0 <= k < nets.len() && nets[k] == net;
                    assert(nets[k].wf());
                    assert(displayed_text_parses_back(texts@[k]@));
                    assert(spec_parse_ip_net(texts@[k]@) == Some(net));
                }
            }
            assert(list@ =~= nets.to_set());
        }
        list
    }
}

impl Default for IpNetList {
    /// An IpNetList without any networks.
    fn default() -> (r: Self)
        ensures
            r@ == Set::<IpNet>::empty(),
    {
        IpNetList::new()
    }
}

/// Loading keeps every network that some text describes, wherever that text stands
/// and whatever texts come before it, and nothing else: a network is in the loaded set
/// exactly when some text parses to it.
pub proof fn lemma_nets_from_texts_keeps_every_valid(texts: Seq<String>, net: IpNet)
    ensures
        nets_from_texts(texts).contains(net) <==> exists|i: int| 0 <= i < texts.len() && spec_parse_ip_net(#[trigger] texts[i]@) == Some(net),
        forall|i: int| 0 <= i < texts.len() && #[trigger] spec_parse_ip_net(texts[i]@) == Some(net) ==> nets_from_texts(texts).contains(net),
{
}

/// Loading ignores the texts that are not networks: dropping them, or adding more of
/// them, changes nothing.
pub proof fn lemma_nets_from_texts_skips_invalid(texts: Seq<String>, invalid: String)
    requires
        spec_parse_ip_net(invalid@) is None,
    ensures
        nets_from_texts(seq![invalid] + texts) == nets_from_texts(texts),
        nets_from_texts(texts.push(invalid)) == nets_from_texts(texts),
{
    let front = seq![invalid] + texts;
    let back = texts.push(invalid);
    assert forall|net: IpNet| nets_from_texts(front).contains(net) <==> nets_from_texts(texts).contains(net) by {
        if nets_from_texts(front).contains(net) {
            let i = choose|i: int| 0 <= i < front.len() && spec_parse_ip_net(#[trigger] front[i]@) == Some(net);
            assert(i != 0);
            assert(front[i] == texts[i - 1]);
        }
        if nets_from_texts(texts).contains(net) {
            let i = choose|i: int| 0 <= i < texts.len() && spec_parse_ip_net(#[trigger] texts[i]@) == Some(net);
            assert(front[i + 1] == texts[i]);
        }
    }
    assert forall|net: IpNet| nets_from_texts(back).contains(net) <==> nets_from_texts(texts).contains(net) by {
        if nets_from_texts(back).contains(net) {
            let i = choose|i: int| 0 <= i < back.len() && spec_parse_ip_net(#[trigger] back[i]@) == Some(net);
            assert(i != texts.len());
            assert(back[i] == texts[i]);
        }
        if nets_from_texts(texts).contains(net) {
            let i = choose|i: int| 0 <= i < texts.len() && spec_parse_ip_net(#[trigger] texts[i]@) == Some(net);
            assert(back[i] == texts[i]);
        }
    }
    assert(nets_from_texts(front) =~= nets_from_texts(texts));
    assert(nets_from_texts(back) =~= nets_from_texts(texts));
}

} // verus!
