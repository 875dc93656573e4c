//! The DHT peer lookup: which node to ask next, what an answer adds, and the order
//! of the nodes still to ask.
use vstd::prelude::*;
use crate::addr::{addr_view, AddrView, PeerAddr};
use crate::dht::{distance, node_view, spec_distance, DhtError, DhtNode, NodeId, QueryResponse};

verus! {

broadcast use vstd::seq_lib::group_seq_properties;

/// `a` comes before `b` in lexicographic order (for sequences of one length).
pub open spec fn lex_lt(a: Seq<u8>, b: Seq<u8>) -> bool
    decreases a.len(),
{
    if a.len() == 0 || b.len() == 0 {
        false
    } else if a[0] != b[0] {
        a[0] < b[0]
    } else {
        lex_lt(a.drop_first(), b.drop_first())
    }
}

/// No byte string comes before itself.
pub proof fn lemma_lex_irreflexive(a: Seq<u8>)
    ensures
        !lex_lt(a, a),
    decreases a.len(),
{
    if a.len() > 0 {
        lemma_lex_irreflexive(a.drop_first());
    }
}

/// The byte order is transitive.
pub proof fn lemma_lex_transitive(a: Seq<u8>, b: Seq<u8>, c: Seq<u8>)
    requires
        lex_lt(a, b),
        lex_lt(b, c),
    ensures
        lex_lt(a, c),
    decreases a.len(),
{
    if a[0] == b[0] && b[0] == c[0] {
        lemma_lex_transitive(a.drop_first(), b.drop_first(), c.drop_first());
    }
}

/// Of two different byte strings of one length, one comes before the other.
pub proof fn lemma_lex_total(a: Seq<u8>, b: Seq<u8>)
    requires
        a.len() == b.len(),
        a != b,
    ensures
        lex_lt(a, b) || lex_lt(b, a),
    decreases a.len(),
{
    if a.len() > 0 && a[0] == b[0] {
        if a.drop_first() == b.drop_first() {
            assert(a =~= seq![a[0]] + a.drop_first());
            assert(b =~= seq![b[0]] + b.drop_first());
        }
        lemma_lex_total(a.drop_first(), b.drop_first());
    } else if a.len() == 0 {
        assert(a =~= b);
    }
}

/// Whether `a` comes before `b` in lexicographic order.
pub fn lex_less(a: &[u8; 20], b: &[u8; 20]) -> (r: bool)
    ensures
        r == lex_lt(a@, b@),
{
    let mut i: usize = 0;
    while i < 20
        invariant
            i <= 20,
            a@.len() == 20,
            b@.len() == 20,
            a@.take(i as int) == b@.take(i as int),
            lex_lt(a@, b@) == lex_lt(a@.skip(i as int), b@.skip(i as int)),
        decreases 20 - i,
    {
        assert(a@.skip(i as int)[0] == a@[i as int]);
        assert(b@.skip(i as int)[0] == b@[i as int]);
        if a[i] != b[i] {
            return a[i] < b[i];
        }
        assert(a@.skip(i as int).drop_first() =~= a@.skip(i + 1));
        assert(b@.skip(i as int).drop_first() =~= b@.skip(i + 1));
        assert(a@.take(i + 1) =~= a@.take(i as int).push(a@[i as int]));
        assert(b@.take(i + 1) =~= b@.take(i as int).push(b@[i as int]));
        i += 1;
    }
    assert(a@.skip(20).len() == 0);
    false
}

/// The id of the first node of `known` at the address `a`.
pub open spec fn first_id_at(known: Seq<(Seq<u8>, AddrView)>, a: AddrView) -> Option<Seq<u8>>
    decreases known.len(),
{
    if known.len() == 0 {
        None
    } else if known[0].1 == a {
        Some(known[0].0)
    } else {
        first_id_at(known.drop_first(), a)
    }
}

/// The twenty bytes `0xFF`: the key of an address with no known node.
pub open spec fn far_key() -> Seq<u8> {
    Seq::new(20, |i: int| 255u8)
}

/// The order key of the address `a` in the queue: the distance from `target` to the
/// first known node at `a`, or all ones.
pub open spec fn queue_key(known: Seq<(Seq<u8>, AddrView)>, target: Seq<u8>, a: AddrView) -> Seq<u8> {
    match first_id_at(known, a) {
        Some(id) => spec_distance(target, id),
        None => far_key(),
    }
}

/// The keys of `s` never go down.
pub open spec fn keys_sorted(s: Seq<AddrView>, known: Seq<(Seq<u8>, AddrView)>, target: Seq<u8>) -> bool {
    forall|i: int, j: int|
        0 <= i < j < s.len() ==> !lex_lt(queue_key(known, target, #[trigger] s[j]), queue_key(known, target, #[trigger] s[i]))
}

/// The addresses of `s` whose key is `k`, in order.
pub open spec fn with_key(s: Seq<AddrView>, known: Seq<(Seq<u8>, AddrView)>, target: Seq<u8>, k: Seq<u8>) -> Seq<AddrView> {
    s.filter(|a: AddrView| queue_key(known, target, a) == k)
}

/// `out` is `input` sorted by key, and addresses of equal keys keep their order.
pub open spec fn stably_sorted(
    out: Seq<AddrView>,
    input: Seq<AddrView>,
    known: Seq<(Seq<u8>, AddrView)>,
    target: Seq<u8>,
) -> bool {
    &&& keys_sorted(out, known, target)
    &&& forall|k: Seq<u8>| #[trigger] with_key(out, known, target, k) == with_key(input, known, target, k)
}

pub open spec fn node_views(nodes: Seq<DhtNode>) -> Seq<(Seq<u8>, AddrView)> {
    nodes.map_values(|n: DhtNode| node_view(n))
}

pub open spec fn addr_views(addrs: Seq<PeerAddr>) -> Seq<AddrView> {
    addrs.map_values(|a: PeerAddr| addr_view(a))
}

/// The key of `addr` as an array.
fn key_of(addr: &PeerAddr, known: &[DhtNode], target: &[u8; 20]) -> (k: [u8; 20])
    ensures
        k@ == queue_key(node_views(known@), target@, addr_view(*addr)),
        k@.len() == 20,
{
    let ghost nodes = node_views(known@);
    let mut i: usize = 0;
    while i < known.len()
        invariant
            i <= known@.len(),
            nodes == node_views(known@),
            first_id_at(nodes, addr_view(*addr)) == first_id_at(nodes.skip(i as int), addr_view(*addr)),
        decreases known.len() - i,
    {
        assert(nodes.skip(i as int)[0] == node_view(known@[i as int]));
        assert(nodes.skip(i as int).drop_first() =~= nodes.skip(i + 1));
        if known[i].addr.same(addr) {
            return distance(target, &known[i].id.0);
        }
        i += 1;
    }
    assert(nodes.skip(i as int).len() == 0);
    let far = [255u8; 20];
    assert(far@ =~= far_key());
    far
}

proof fn lemma_filter_single(x: AddrView, p: spec_fn(AddrView) -> bool)
    ensures
        seq![x].filter(p) == (if p(x) { seq![x] } else { seq![] }),
{
    assert(seq![x] =~= Seq::<AddrView>::empty().push(x));
    Seq::<AddrView>::empty().lemma_filter_push(x, p);
    reveal_with_fuel(Seq::filter, 1);
    assert(Seq::<AddrView>::empty().filter(p) =~= seq![]);
}

/// Inserting `x` after the sorted prefix whose keys are not above its own keeps
/// the sequence sorted and appends `x` to the addresses of its key.
proof fn lemma_insert_sorted(
    s: Seq<AddrView>,
    p: int,
    x: AddrView,
    known: Seq<(Seq<u8>, AddrView)>,
    target: Seq<u8>,
)
    requires
        0 <= p <= s.len(),
        keys_sorted(s, known, target),
        forall|j: int| 0 <= j < p ==> !lex_lt(queue_key(known, target, x), #[trigger] queue_key(known, target, s[j])),
        p < s.len() ==> lex_lt(queue_key(known, target, x), queue_key(known, target, s[p])),
        forall|a: AddrView| (#[trigger] queue_key(known, target, a)).len() == 20,
    ensures
        keys_sorted(s.insert(p, x), known, target),
        forall|k: Seq<u8>|
            #[trigger] with_key(s.insert(p, x), known, target, k) == (if queue_key(known, target, x) == k {
                with_key(s, known, target, k).push(x)
            } else {
                with_key(s, known, target, k)
            }),
{
    let key = |a: AddrView| queue_key(known, target, a);
    let t = s.insert(p, x);
    assert(t =~= s.take(p) + seq![x] + s.skip(p));
    assert(s =~= s.take(p) + s.skip(p));
    // every address after the insertion point has a key above that of `x`
    assert forall|j: int| p <= j < s.len() implies lex_lt(key(x), #[trigger] key(s[j])) by {
        if j > p {
            if !lex_lt(key(s[j]), key(s[p])) {
                if key(s[j]) != key(s[p]) {
                    lemma_lex_total(key(s[j]), key(s[p]));
                    lemma_lex_transitive(key(x), key(s[p]), key(s[j]));
                }
            }
        }
    }
    assert forall|i: int, j: int| 0 <= i < j < t.len() implies !lex_lt(key(#[trigger] t[j]), key(#[trigger] t[i])) by {
        if i < p && j == p {
            assert(t[i] == s[i]);
        } else if i == p && j > p {
            assert(t[j] == s[j - 1]);
            if lex_lt(key(s[j - 1]), key(x)) {
                lemma_lex_transitive(key(x), key(s[j - 1]), key(x));
                lemma_lex_irreflexive(key(x));
            }
        } else if i < p && j > p {
            assert(t[i] == s[i]);
            assert(t[j] == s[j - 1]);
        } else if i > p {
            assert(t[i] == s[i - 1]);
            assert(t[j] == s[j - 1]);
        } else {
            assert(t[i] == s[i]);
            assert(t[j] == s[j]);
        }
    }
    assert forall|k: Seq<u8>| #[trigger] with_key(t, known, target, k) == (if key(x) == k {
        with_key(s, known, target, k).push(x)
    } else {
        with_key(s, known, target, k)
    }) by {
        let pred = |a: AddrView| queue_key(known, target, a) == k;
        Seq::filter_distributes_over_add(s.take(p) + seq![x], s.skip(p), pred);
        Seq::filter_distributes_over_add(s.take(p), seq![x], pred);
        Seq::filter_distributes_over_add(s.take(p), s.skip(p), pred);
        lemma_filter_single(x, pred);
        if key(x) == k {
            assert(s.skip(p).filter(pred) =~= seq![]) by {
                if s.skip(p).filter(pred).len() > 0 {
                    s.skip(p).lemma_filter_pred(pred, 0);
                    let y = s.skip(p).filter(pred)[0];
                    assert(s.skip(p).filter(pred).contains(y));
                    s.skip(p).lemma_filter_contains_rev(pred, y);
                    let j = choose|j: int| 0 <= j < s.skip(p).len() && s.skip(p)[j] == y;
                    assert(s[p + j] == y);
                    lemma_lex_irreflexive(key(x));
                }
            }
        }
    }
}

/// Sorts `queue` by distance from `target` to the known node at each address,
/// unknown addresses last; addresses of equal distance keep their order.
pub fn sort_queue_by_distance(queue: &mut Vec<PeerAddr>, known_nodes: &[DhtNode], target: &[u8; 20])
    ensures
        stably_sorted(addr_views(final(queue)@), addr_views(old(queue)@), node_views(known_nodes@), target@),
{
    let ghost known = node_views(known_nodes@);
    let ghost input = addr_views(queue@);
    proof {
        assert forall|a: AddrView| (#[trigger] queue_key(known, target@, a)).len() == 20 by {}
    }
    let mut sorted: Vec<PeerAddr> = Vec::new();
    let mut keys: Vec<[u8; 20]> = Vec::new();
    let mut i: usize = 0;
    proof {
        assert(input.take(0) =~= seq![]);
        assert(addr_views(sorted@) =~= seq![]);
    }
    while i < queue.len()
        invariant
            i <= queue@.len(),
            input == addr_views(queue@),
            known == node_views(known_nodes@),
            keys@.len() == sorted@.len(),
            forall|j: int| 0 <= j < keys@.len() ==> (#[trigger] keys@[j])@ == queue_key(known, target@, addr_view(sorted@[j])),
            forall|a: AddrView| (#[trigger] queue_key(known, target@, a)).len() == 20,
            stably_sorted(addr_views(sorted@), input.take(i as int), known, target@),
        decreases queue.len() - i,
    {
        let x = queue[i];
        let kx = key_of(&x, known_nodes, target);
        let mut p: usize = 0;
        while p < sorted.len() && !lex_less(&kx, &keys[p])
            invariant
                p <= sorted@.len(),
                keys@.len() == sorted@.len(),
                forall|j: int| 0 <= j < keys@.len() ==> (#[trigger] keys@[j])@ == queue_key(known, target@, addr_view(sorted@[j])),
                kx@ == queue_key(known, target@, addr_view(x)),
                forall|j: int| 0 <= j < p ==> !lex_lt(kx@, #[trigger] queue_key(known, target@, addr_view(sorted@[j]))),
            decreases sorted.len() - p,
        {
            p += 1;
        }
        let ghost before = addr_views(sorted@);
        proof {
            assert forall|j: int| 0 <= j < p implies !lex_lt(queue_key(known, target@, addr_view(x)), #[trigger] queue_key(known, target@, before[j])) by {}
            lemma_insert_sorted(before, p as int, addr_view(x), known, target@);
        }
        sorted.insert(p, x);
        keys.insert(p, kx);
        proof {
            assert(addr_views(sorted@) =~= before.insert(p as int, addr_view(x)));
            assert(input.take(i + 1) =~= input.take(i as int).push(addr_view(x)));
            assert forall|k: Seq<u8>| #[trigger] with_key(addr_views(sorted@), known, target@, k) == with_key(input.take(i + 1), known, target@, k) by {
                input.take(i as int).lemma_filter_push(addr_view(x), |a: AddrView| queue_key(known, target@, a) == k);
            }
        }
        i += 1;
    }
    proof {
        assert(input.take(queue@.len() as int) =~= input);
    }
    *queue = sorted;
}

/// How many nodes a lookup asks at most.
pub const MAX_QUERIES: usize = 48;

/// How many peers end a lookup.
pub const ENOUGH_PEERS: usize = 20;

/// A DHT lookup of the peers of `target`.
pub struct Lookup {
    target: [u8; 20],
    queried: Vec<PeerAddr>,
    peers: Vec<PeerAddr>,
    queue: Vec<PeerAddr>,
    known_nodes: Vec<DhtNode>,
}

/// A lookup as plain values: the target, the addresses asked so far, the peers
/// found, the addresses still to ask in order, and the nodes known.
pub struct LookupView {
    pub target: Seq<u8>,
    pub queried: Seq<AddrView>,
    pub peers: Seq<AddrView>,
    pub queue: Seq<AddrView>,
    pub known: Seq<(Seq<u8>, AddrView)>,
}

impl View for Lookup {
    type V = LookupView;

    closed spec fn view(&self) -> LookupView {
        LookupView {
            target: self.target@,
            queried: addr_views(self.queried@),
            peers: addr_views(self.peers@),
            queue: addr_views(self.queue@),
            known: node_views(self.known_nodes@),
        }
    }
}

/// What the lookup does next.
#[derive(Debug, Clone, Copy, PartialEq, Eq)]
pub enum LookupStep {
    /// Ask the node at this address for peers.
    Query(PeerAddr),
    /// The address was asked already: step again.
    Skip,
    /// The lookup is over.
    Finished,
}

/// No address occurs twice in `s`.
pub open spec fn no_repeats(s: Seq<AddrView>) -> bool {
    forall|i: int, j: int| 0 <= i < j < s.len() ==> s[i] != s[j]
}

/// `s` with each of `items` added at the end unless it is there already.
pub open spec fn add_unique(s: Seq<AddrView>, items: Seq<AddrView>) -> Seq<AddrView>
    decreases items.len(),
{
    if items.len() == 0 {
        s
    } else {
        let t = add_unique(s, items.drop_last());
        if t.contains(items.last()) {
            t
        } else {
            t.push(items.last())
        }
    }
}

/// Adding peers keeps them free of repeats; what was there stays, and each peer
/// offered is there afterwards.
pub proof fn lemma_add_unique(s: Seq<AddrView>, items: Seq<AddrView>)
    requires
        no_repeats(s),
    ensures
        no_repeats(add_unique(s, items)),
        forall|x: AddrView| s.contains(x) ==> add_unique(s, items).contains(x),
        forall|k: int| 0 <= k < items.len() ==> add_unique(s, items).contains(#[trigger] items[k]),
        forall|x: AddrView| add_unique(s, items).contains(x) ==> s.contains(x) || items.contains(x),
    decreases items.len(),
{
    if items.len() > 0 {
        let rest = items.drop_last();
        lemma_add_unique(s, rest);
        let t = add_unique(s, rest);
        assert forall|k: int| 0 <= k < items.len() implies add_unique(s, items).contains(#[trigger] items[k]) by {
            if k < rest.len() {
                assert(rest[k] == items[k]);
                assert(t.contains(rest[k]));
            } else if !t.contains(items.last()) {
                assert(t.push(items.last())[t.len() as int] == items.last());
            }
        }
        assert forall|x: AddrView| add_unique(s, items).contains(x) implies s.contains(x) || items.contains(x) by {
            if t.contains(x) {
                if rest.contains(x) {
                    let k = choose|k: int| 0 <= k < rest.len() && rest[k] == x;
                    assert(items[k] == x);
                }
            } else {
                assert(x == items.last());
                assert(items[items.len() - 1] == x);
            }
        }
        assert forall|x: AddrView| s.contains(x) implies add_unique(s, items).contains(x) by {
            assert(t.contains(x));
            if !t.contains(items.last()) {
                let k = choose|k: int| 0 <= k < t.len() && t[k] == x;
                assert(t.push(items.last())[k] == x);
            }
        }
    }
}

/// The nodes of `nodes` at addresses not asked yet.
pub open spec fn fresh_nodes(nodes: Seq<(Seq<u8>, AddrView)>, queried: Seq<AddrView>) -> Seq<(Seq<u8>, AddrView)> {
    nodes.filter(|n: (Seq<u8>, AddrView)| !queried.contains(n.1))
}

pub open spec fn node_addrs(nodes: Seq<(Seq<u8>, AddrView)>) -> Seq<AddrView> {
    nodes.map_values(|n: (Seq<u8>, AddrView)| n.1)
}

/// The nodes that an answer from `addr` makes known: the responder, when it gave
/// its id, then the nodes it named that were not asked yet.
pub open spec fn learned_nodes(v: LookupView, addr: AddrView, r: crate::dht::ResponseView) -> Seq<(Seq<u8>, AddrView)> {
    let responder: Seq<(Seq<u8>, AddrView)> = match r.responder_id {
        Some(id) => seq![(id, addr)],
        None => seq![],
    };
    responder + fresh_nodes(r.nodes, v.queried)
}

/// Whether `list` holds the address `a`.
fn contains_addr(list: &Vec<PeerAddr>, a: &PeerAddr) -> (r: bool)
    ensures
        r == addr_views(list@).contains(addr_view(*a)),
{
    let mut i: usize = 0;
    while i < list.len()
        invariant
            i <= list@.len(),
            forall|j: int| 0 <= j < i ==> addr_view(#[trigger] list@[j]) != addr_view(*a),
        decreases list.len() - i,
    {
        if list[i].same(a) {
            assert(addr_views(list@)[i as int] == addr_view(*a));
            return true;
        }
        i += 1;
    }
    assert(!addr_views(list@).contains(addr_view(*a))) by {
        if addr_views(list@).contains(addr_view(*a)) {
            let j = choose|j: int| 0 <= j < addr_views(list@).len() && addr_views(list@)[j] == addr_view(*a);
            assert(addr_view(list@[j]) == addr_view(*a));
        }
    }
    false
}

impl Lookup {
    /// A lookup of the peers of `target`, starting from the `bootstrap` nodes.
    pub fn new(target: [u8; 20], bootstrap: Vec<PeerAddr>) -> (l: Lookup)
        ensures
            l@.target == target@,
            l@.queue == addr_views(bootstrap@),
            l@.queried.len() == 0,
            l@.peers.len() == 0,
            l@.known.len() == 0,
    {
        let l = Lookup { target, queried: Vec::new(), peers: Vec::new(), queue: bootstrap, known_nodes: Vec::new() };
        assert(addr_views(l.queried@) =~= seq![]);
        assert(addr_views(l.peers@) =~= seq![]);
        assert(node_views(l.known_nodes@) =~= seq![]);
        l
    }

    /// The peers found so far.
    pub fn peers(&self) -> (p: &Vec<PeerAddr>)
        ensures
            addr_views(p@) == self@.peers,
    {
        &self.peers
    }

    /// Takes the next address off the queue: the lookup ends when the queue is
    /// empty, time is up or enough nodes were asked; an address asked before is
    /// skipped; any other is asked.
    pub fn next(&mut self, out_of_time: bool) -> (step: LookupStep)
        ensures
            final(self)@.target == old(self)@.target,
            final(self)@.peers == old(self)@.peers,
            final(self)@.known == old(self)@.known,
            no_repeats(old(self)@.queried) ==> no_repeats(final(self)@.queried),
            old(self)@.queue.len() == 0 ==> step == LookupStep::Finished && final(self)@ == old(self)@,
            old(self)@.queue.len() > 0 ==> {
                let a = old(self)@.queue[0];
                &&& final(self)@.queue == old(self)@.queue.drop_first()
                &&& if out_of_time || old(self)@.queried.len() >= MAX_QUERIES {
                    step == LookupStep::Finished && final(self)@.queried == old(self)@.queried
                } else if old(self)@.queried.contains(a) {
                    step == LookupStep::Skip && final(self)@.queried == old(self)@.queried
                } else {
                    step matches LookupStep::Query(q) && addr_view(q) == a && final(self)@.queried
                        == old(self)@.queried.push(a)
                }
            },
    {
        if self.queue.len() == 0 {
            return LookupStep::Finished;
        }
        let ghost before = self@;
        let addr = self.queue.remove(0);
        assert(addr_views(self.queue@) =~= before.queue.drop_first());
        if out_of_time || self.queried.len() >= MAX_QUERIES {
            return LookupStep::Finished;
        }
        if contains_addr(&self.queried, &addr) {
            return LookupStep::Skip;
        }
        self.queried.push(addr);
        assert(addr_views(self.queried@) =~= before.queried.push(addr_view(addr)));
        assert(no_repeats(before.queried) ==> no_repeats(before.queried.push(addr_view(addr))));
        LookupStep::Query(addr)
    }
}

impl Lookup {
    /// Takes in the answer of the node at `addr`: the node and the nodes it named
    /// that were not asked yet become known, the new ones queued; its peers are
    /// added. Returns whether enough peers are found; if not, the queue is put in
    /// order of distance.
    pub fn record(&mut self, addr: PeerAddr, response: QueryResponse) -> (stop: bool)
        ensures
            final(self)@.target == old(self)@.target,
            final(self)@.queried == old(self)@.queried,
            final(self)@.known == old(self)@.known + learned_nodes(old(self)@, addr_view(addr), dht_response_view(response)),
            final(self)@.peers == add_unique(old(self)@.peers, dht_response_view(response).peers),
            no_repeats(old(self)@.peers) ==> no_repeats(final(self)@.peers),
            stop == (final(self)@.peers.len() >= ENOUGH_PEERS),
            stop ==> final(self)@.queue == old(self)@.queue + node_addrs(
                fresh_nodes(dht_response_view(response).nodes, old(self)@.queried),
            ),
            !stop ==> stably_sorted(
                final(self)@.queue,
                old(self)@.queue + node_addrs(fresh_nodes(dht_response_view(response).nodes, old(self)@.queried)),
                final(self)@.known,
                old(self)@.target,
            ),
    {
        let ghost v = self@;
        let ghost r = dht_response_view(response);
        if let Some(id) = response.responder_id {
            self.known_nodes.push(DhtNode { id: NodeId(id), addr });
        }
        let ghost responder: Seq<(Seq<u8>, AddrView)> = match r.responder_id {
            Some(id) => seq![(id, addr_view(addr))],
            None => seq![],
        };
        assert(node_views(self.known_nodes@) =~= v.known + responder);
        let mut i: usize = 0;
        assert(response.peers@.take(0) =~= seq![]);
        assert(addr_views(response.peers@.take(0)) =~= seq![]);
        while i < response.peers.len()
            invariant
                i <= response.peers@.len(),
                addr_views(self.peers@) == add_unique(v.peers, addr_views(response.peers@.take(i as int))),
                addr_views(self.queried@) == v.queried,
                node_views(self.known_nodes@) == v.known + responder,
                addr_views(self.queue@) == v.queue,
                self.target@ == v.target,
            decreases response.peers.len() - i,
        {
            let p = response.peers[i];
            assert(addr_views(response.peers@.take(i + 1)).drop_last() =~= addr_views(response.peers@.take(i as int)));
            assert(addr_views(response.peers@.take(i + 1)).last() == addr_view(p));
            if !contains_addr(&self.peers, &p) {
                let ghost before = addr_views(self.peers@);
                self.peers.push(p);
                assert(addr_views(self.peers@) =~= before.push(addr_view(p)));
            }
            i += 1;
        }
        assert(response.peers@.take(response.peers@.len() as int) =~= response.peers@);
        proof {
            if no_repeats(v.peers) {
                lemma_add_unique(v.peers, r.peers);
            }
        }
        let ghost queried = v.queried;
        let ghost nodes = node_views(response.nodes@);
        let mut j: usize = 0;
        assert(nodes.take(0) =~= seq![]);
        assert(fresh_nodes(nodes.take(0), queried) =~= seq![]) by {
            reveal_with_fuel(Seq::filter, 1);
        }
        assert(node_addrs(seq![]) =~= seq![]);
        while j < response.nodes.len()
            invariant
                j <= response.nodes@.len(),
                nodes == node_views(response.nodes@),
                addr_views(self.peers@) == add_unique(v.peers, r.peers),
                self.target@ == v.target,
                addr_views(self.queried@) == queried,
                node_views(self.known_nodes@) == v.known + responder + fresh_nodes(nodes.take(j as int), queried),
                addr_views(self.queue@) == v.queue + node_addrs(fresh_nodes(nodes.take(j as int), queried)),
            decreases response.nodes.len() - j,
        {
            let node = response.nodes[j];
            assert(nodes.take(j + 1) =~= nodes.take(j as int).push(node_view(node)));
            proof {
                nodes.take(j as int).lemma_filter_push(node_view(node), |n: (Seq<u8>, AddrView)| !queried.contains(n.1));
            }
            if !contains_addr(&self.queried, &node.addr) {
                let ghost known_before = node_views(self.known_nodes@);
                let ghost queue_before = addr_views(self.queue@);
                self.known_nodes.push(node);
                self.queue.push(node.addr);
                assert(node_views(self.known_nodes@) =~= known_before.push(node_view(node)));
                assert(addr_views(self.queue@) =~= queue_before.push(addr_view(node.addr)));
                assert(node_addrs(fresh_nodes(nodes.take(j + 1), queried)) =~= node_addrs(
                    fresh_nodes(nodes.take(j as int), queried),
                ).push(addr_view(node.addr)));
            }
            j += 1;
        }
        assert(nodes.take(response.nodes@.len() as int) =~= nodes);
        assert(node_views(self.known_nodes@) =~= v.known + learned_nodes(v, addr_view(addr), r));
        if self.peers.len() >= ENOUGH_PEERS {
            return true;
        }
        sort_queue_by_distance(&mut self.queue, self.known_nodes.as_slice(), &self.target);
        false
    }

    /// The peers that the lookup found; an error when it found none.
    pub fn finish(&self) -> (r: Result<Vec<PeerAddr>, DhtError>)
        ensures
            self@.peers.len() == 0 <==> r is Err,
            r matches Err(e) ==> e == DhtError::NoPeers,
            r matches Ok(p) ==> addr_views(p@) == self@.peers,
    {
        if self.peers.len() == 0 {
            return Err(DhtError::NoPeers);
        }
        Ok(self.peers.clone())
    }
}

/// An answer to `get_peers` as plain values.
pub open spec fn dht_response_view(r: QueryResponse) -> crate::dht::ResponseView {
    crate::dht::response_view(r)
}

} // verus!
