//! The state of one breadth-first search over article links.

use vstd::prelude::*;
use std::collections::hash_map::DefaultHasher;
use std::collections::{HashMap, HashSet, VecDeque};
use std::hash::Hasher;
use vstd::std_specs::hash::DefaultHasherAdditionalSpecFns;
use vstd::utf8::encode_utf8;
use crate::wiki_nav::{extract_title_from_url, title_of_path, url_path, TitleError};

verus! {

broadcast use vstd::std_specs::hash::group_hash_axioms;

/// The identifier of a page title: std's `DefaultHasher` (freshly made)
/// after hashing the title as a `str` does, that is its UTF-8 bytes and
/// then the byte `0xff`.
pub open spec fn title_hash(title: Seq<char>) -> u64 {
    DefaultHasher::spec_finish(seq![encode_utf8(title), seq![0xffu8]])
}

/// Node identifier of a page title.
pub fn calculate_hash(s: &str) -> (h: u64)
    ensures
        h == title_hash(s@),
{
    let mut hasher = DefaultHasher::new();
    let bytes = s.as_bytes();
    hasher.write(bytes);
    assert(hasher@ =~= seq![encode_utf8(s@)]);
    let end: [u8; 1] = [0xffu8];
    let tail: &[u8] = end.as_slice();
    assert(tail@ =~= seq![0xffu8]);
    hasher.write(tail);
    assert(hasher@ =~= seq![encode_utf8(s@), seq![0xffu8]]);
    hasher.finish()
}

/// A page known to the search.
#[derive(Debug, Hash, PartialEq, Eq, Clone)]
pub struct Node {
    /// The page whose links led here; `None` for the page the search starts from.
    pub parent_id: Option<u64>,
    /// The hash of `site`.
    pub id: u64,
    /// The depth of the search when the page was found.
    pub depth: u16,
    /// The page title.
    pub site: String,
    /// Whether the page's links have been asked for.
    pub visited: bool,
}

impl Node {
    /// A page not visited yet.
    pub fn new(title: String, parent: Option<u64>, depth: u16, id: u64) -> (n: Node)
        ensures
            n == (Node { parent_id: parent, id, depth, site: title, visited: false }),
    {
        Node { parent_id: parent, depth, id, site: title, visited: false }
    }

    /// The same node, marked visited.
    pub open spec fn visited_version(self) -> Node {
        Node {
            parent_id: self.parent_id,
            id: self.id,
            depth: self.depth,
            site: self.site,
            visited: true,
        }
    }
}

/// One breadth-first search: the pages found so far, keyed by the hash of
/// their titles, and the queue of pages whose links are still to be read.
pub struct Graph {
    /// The pages whose links are still to be read, front first.
    pub queue: VecDeque<u64>,
    /// The same identifiers as `queue`, for lookup.
    pub hash_queue: HashSet<u64>,
    /// Every page found, by identifier.
    pub nodes: HashMap<u64, Node>,
    /// How many pages have been taken from the queue.
    pub step: u32,
    /// The page at which the search ended, once it has.
    pub destination: Option<u64>,
    /// The greatest depth among the pages whose links were asked for.
    pub depth: u16,
    /// The identifier of the page searched for; 0 where there is none.
    pub end_hash: u64,
}

/// What a node of a graph must satisfy: it is stored under its own
/// identifier, which is the hash of its title; a visited page is no deeper
/// than the graph's depth; its parent is a visited node of the graph,
/// strictly less deep; and a node without parent (the page the search
/// started from) has depth 0.
pub open spec fn node_ok(nodes: Map<u64, Node>, k: u64, depth: u16) -> bool {
    let n = nodes[k];
    &&& n.id == k
    &&& k == title_hash(n.site@)
    &&& n.visited ==> n.depth <= depth
    &&& (n.parent_id matches Some(p) ==> nodes.contains_key(p) && nodes[p].visited && nodes[p].depth < n.depth)
    &&& (n.parent_id is None ==> n.depth == 0)
}

/// Every parent is a node of the graph, strictly less deep than its child:
/// following parents from any node ends.
pub open spec fn parents_descend(nodes: Map<u64, Node>) -> bool {
    forall|k: u64| #[trigger] nodes.contains_key(k) ==> (nodes[k].parent_id matches Some(p) ==> nodes.contains_key(p) && nodes[p].depth < nodes[k].depth)
}

/// The depth is that of the deepest visited node, or 0 where none is visited.
pub open spec fn depth_is_deepest_visit(nodes: Map<u64, Node>, depth: u16) -> bool {
    depth == 0 || exists|k: u64| #[trigger] nodes.contains_key(k) && nodes[k].visited && nodes[k].depth == depth
}

impl Graph {
    /// The identifiers waiting in the queue, front first.
    pub open spec fn queued(self) -> Seq<u64> {
        self.queue@
    }

    /// The identifiers that the graph records as queued.
    pub open spec fn queued_set(self) -> Set<u64> {
        self.hash_queue@
    }

    /// The graph's invariant: no identifier is queued twice, the queue and
    /// its set agree, every queued identifier is a node not visited yet,
    /// every node is well formed, and the depth is that of the deepest
    /// visited node.
    pub open spec fn wf(self) -> bool {
        &&& self.queued().no_duplicates()
        &&& forall|k: u64| self.queued_set().contains(k) <==> self.queued().contains(k)
        &&& forall|i: int| 0 <= i < self.queued().len() ==> self.nodes@.contains_key(#[trigger] self.queued()[i])
            && !self.nodes@[self.queued()[i]].visited
        &&& forall|k: u64| #[trigger] self.nodes@.contains_key(k) ==> node_ok(self.nodes@, k, self.depth)
        &&& depth_is_deepest_visit(self.nodes@, self.depth)
    }

    /// A graph that starts from one page and holds nothing else.
    pub open spec fn is_start(self, title: Seq<char>, is_one: Option<u64>) -> bool {
        let h = title_hash(title);
        &&& self.wf()
        &&& self.queued() == seq![h]
        &&& self.nodes@.dom() == set![h]
        &&& self.nodes@[h].parent_id is None
        &&& self.nodes@[h].depth == 0
        &&& self.nodes@[h].site@ == title
        &&& !self.nodes@[h].visited
        &&& self.step == 0
        &&& self.destination is None
        &&& self.depth == 0
        &&& self.end_hash == match is_one { Some(e) => e, None => 0 }
    }

    fn from_title(title: String, is_one: Option<u64>) -> (g: Graph)
        ensures
            g.is_start(title@, is_one),
    {
        let id = calculate_hash(title.as_str());
        let ghost t = title@;
        let root_node = Node::new(title, None, 0, id);
        let mut new_queue: VecDeque<u64> = VecDeque::new();
        let mut node_map: HashMap<u64, Node> = HashMap::new();
        let mut new_hqueue: HashSet<u64> = HashSet::new();
        new_hqueue.insert(id);
        new_queue.push_back(id);
        node_map.insert(id, root_node);
        let end_hash = match is_one {
            Some(e) => e,
            None => 0,
        };
        let g = Graph {
            queue: new_queue,
            nodes: node_map,
            step: 0,
            destination: None,
            depth: 0,
            hash_queue: new_hqueue,
            end_hash,
        };
        assert(g.queued() =~= seq![id]);
        assert(g.nodes@.dom() =~= set![id]);
        assert(g.queued().no_duplicates());
        assert(g.nodes@[id].site@ == t);
        assert(node_ok(g.nodes@, id, 0));
        assert forall|k: u64| g.queued_set().contains(k) <==> g.queued().contains(k) by {
            if g.queued().contains(k) {
                assert(g.queued()[0] == k);
            }
            if k == id {
                assert(g.queued()[0] == k);
            }
        }
        g
    }

    /// A search that starts from the article at `url`; `is_one` is the
    /// identifier of the page searched for, where there is one.
    pub fn new(url: String, is_one: Option<u64>) -> (g: Graph)
        requires
            url_path(url@) matches Some(p) && p.len() > 0 && p[0] == '/',
        ensures
            url_path(url@) matches Some(p) && g.is_start(title_of_path(p), is_one),
    {
        let title = match extract_title_from_url(url.as_str()) {
            Ok(t) => t,
            Err(_) => {
                proof {
                    assert(false);
                }
                String::new()
            },
        };
        Graph::from_title(title, is_one)
    }

    /// `Graph::new` where the URL names a title, and the reason where it does not.
    pub fn try_new(url: String, is_one: Option<u64>) -> (r: Result<Graph, TitleError>)
        ensures
            url_path(url@) is None <==> r matches Err(TitleError::InvalidUrl(_)),
            r matches Err(TitleError::InvalidPath) <==> (url_path(url@) matches Some(p) && !(p.len() > 0 && p[0] == '/')),
            r matches Ok(g) ==> (url_path(url@) matches Some(p) && g.is_start(title_of_path(p), is_one)),
    {
        match extract_title_from_url(url.as_str()) {
            Ok(_) => Ok(Graph::new(url, is_one)),
            Err(e) => Err(e),
        }
    }
}

/// A page whose links a step asks for.
pub struct PageRequest {
    /// The page's identifier.
    pub id: u64,
    /// The page's title.
    pub site: String,
}

/// What one step of a search comes to.
pub enum StepOutcome {
    /// A page searched for was taken from the queue: the search is over.
    Found,
    /// The links of these pages are to be fetched and handed to `add_links`.
    Fetch(Vec<PageRequest>),
}

/// The identifiers that one step takes from the front of a queue: up to ten.
pub open spec fn batch_of(q: Seq<u64>) -> Seq<u64> {
    if q.len() <= 10 {
        q
    } else {
        q.take(10)
    }
}

/// The index of the first identifier of `b` that lies in `targets`, or the
/// length of `b` where none does.
pub open spec fn first_hit(b: Seq<u64>, targets: Set<u64>) -> nat
    decreases b.len(),
{
    if b.len() == 0 {
        0
    } else if targets.contains(b[0]) {
        0
    } else {
        1 + first_hit(b.drop_first(), targets)
    }
}

/// How many identifiers a step takes from queue `q`, looking for `targets`.
pub open spec fn pops(q: Seq<u64>, targets: Set<u64>) -> int {
    let b = batch_of(q);
    let j = first_hit(b, targets);
    if j < b.len() {
        j as int + 1
    } else {
        b.len() as int
    }
}

/// The nodes after the pages of `b` have been marked visited.
pub open spec fn visit_all(nodes: Map<u64, Node>, b: Seq<u64>) -> Map<u64, Node> {
    Map::new(
        |k: u64| nodes.contains_key(k),
        |k: u64|
            if b.contains(k) {
                nodes[k].visited_version()
            } else {
                nodes[k]
            },
    )
}

/// The depth of a graph after the pages of `b` have been visited in order,
/// from depth `d`: it rises to the depth of each page not visited before.
pub open spec fn depth_after(nodes: Map<u64, Node>, b: Seq<u64>, d: u16) -> u16
    decreases b.len(),
{
    if b.len() == 0 {
        d
    } else {
        let d1 = depth_after(nodes, b.drop_last(), d);
        let k = b.last();
        if nodes.contains_key(k) && !nodes[k].visited && nodes[k].depth > d1 {
            nodes[k].depth
        } else {
            d1
        }
    }
}

/// The pages of `b`, in order, whose links are asked for: those that are
/// nodes not visited before.
pub open spec fn requests_for(nodes: Map<u64, Node>, b: Seq<u64>) -> Seq<(u64, Seq<char>)>
    decreases b.len(),
{
    if b.len() == 0 {
        Seq::empty()
    } else {
        let prev = requests_for(nodes, b.drop_last());
        let k = b.last();
        if nodes.contains_key(k) && !nodes[k].visited {
            prev.push((k, nodes[k].site@))
        } else {
            prev
        }
    }
}

/// The requests as identifier and title.
pub open spec fn request_views(v: Seq<PageRequest>) -> Seq<(u64, Seq<char>)> {
    v.map_values(|r: PageRequest| (r.id, r.site@))
}

/// One step of a search from `pre` to `post`, looking for `targets`. The
/// step takes up to ten identifiers from the front of the queue, counting
/// each. At the first one that is a target it stops: that page is the
/// destination, and the identifiers taken before it are dropped. Where none
/// is, every page taken that was not visited is marked visited, the depth
/// rises to the greatest depth among them, and their links are asked for.
pub open spec fn stepped(pre: Graph, post: Graph, targets: Set<u64>, r: StepOutcome) -> bool {
    let q = pre.queued();
    let b = batch_of(q);
    let j = first_hit(b, targets);
    &&& post.end_hash == pre.end_hash
    &&& if j < b.len() {
        &&& r is Found
        &&& post.queued() == q.skip(j as int + 1)
        &&& post.step == pre.step + j + 1
        &&& post.destination == Some(b[j as int])
        &&& post.nodes@ == pre.nodes@
        &&& post.depth == pre.depth
    } else {
        &&& r matches StepOutcome::Fetch(v) && request_views(v@) == requests_for(pre.nodes@, b)
        &&& post.queued() == q.skip(b.len() as int)
        &&& post.step == pre.step + b.len()
        &&& post.destination == pre.destination
        &&& post.nodes@ == visit_all(pre.nodes@, b)
        &&& post.depth == depth_after(pre.nodes@, b, pre.depth)
    }
}

/// Where `first_hit` points: at a target, after none.
pub proof fn lemma_first_hit(b: Seq<u64>, targets: Set<u64>)
    ensures
        first_hit(b, targets) <= b.len(),
        first_hit(b, targets) < b.len() ==> targets.contains(b[first_hit(b, targets) as int]),
        forall|i: int| 0 <= i < first_hit(b, targets) ==> !targets.contains(#[trigger] b[i]),
    decreases b.len(),
{
    if b.len() > 0 && !targets.contains(b[0]) {
        lemma_first_hit(b.drop_first(), targets);
        assert forall|i: int| 0 <= i < first_hit(b, targets) implies !targets.contains(#[trigger] b[i]) by {
            if i > 0 {
                assert(b[i] == b.drop_first()[i - 1]);
            }
        }
    }
}

/// The batch of a step is the front of the queue: its first ten
/// identifiers, or all of them where it holds fewer.
pub proof fn lemma_batch_is_front_of_queue(q: Seq<u64>)
    ensures
        batch_of(q).len() == (if q.len() < 10 { q.len() } else { 10 }),
        forall|j: int| 0 <= j < batch_of(q).len() ==> #[trigger] batch_of(q)[j] == q[j],
{
}

/// A step takes at most ten identifiers from the queue, and no more than it holds.
pub proof fn lemma_pops_at_most_ten(q: Seq<u64>, targets: Set<u64>)
    ensures
        0 <= pops(q, targets) <= 10,
        pops(q, targets) <= q.len(),
{
    lemma_first_hit(batch_of(q), targets);
}

impl Graph {
    fn is_target(&self, goal: Option<&HashMap<u64, Node>>, id: u64) -> (r: bool)
        ensures
            r == match goal {
                Some(g) => g@.contains_key(id),
                None => id == self.end_hash,
            },
    {
        match goal {
            Some(g) => g.contains_key(&id),
            None => id == self.end_hash,
        }
    }

    /// Takes the identifiers of one step from the queue; `None` where a
    /// target was among them.
    fn take_batch(&mut self, goal: Option<&HashMap<u64, Node>>, Ghost(targets): Ghost<Set<u64>>) -> (r: Option<Vec<u64>>)
        requires
            old(self).wf(),
            targets == match goal {
                Some(g) => g@.dom(),
                None => set![old(self).end_hash],
            },
            old(self).step + pops(old(self).queued(), targets) <= u32::MAX,
        ensures
            final(self).wf(),
            final(self).end_hash == old(self).end_hash,
            final(self).nodes@ == old(self).nodes@,
            final(self).depth == old(self).depth,
            ({
                let q = old(self).queued();
                let b = batch_of(q);
                let j = first_hit(b, targets);
                if j < b.len() {
                    &&& r is None
                    &&& final(self).queued() == q.skip(j as int + 1)
                    &&& final(self).step == old(self).step + j + 1
                    &&& final(self).destination == Some(b[j as int])
                } else {
                    &&& r matches Some(v) && v@ == b
                    &&& final(self).queued() == q.skip(b.len() as int)
                    &&& final(self).step == old(self).step + b.len()
                    &&& final(self).destination == old(self).destination
                }
            }),
    {
        let ghost q = old(self).queued();
        let ghost b = batch_of(q);
        proof {
            lemma_first_hit(b, targets);
        }
        let mut batch: Vec<u64> = Vec::new();
        while batch.len() < 10
            invariant
                old(self).wf(),
                q == old(self).queued(),
                b == batch_of(q),
                targets == match goal {
                    Some(g) => g@.dom(),
                    None => set![old(self).end_hash],
                },
                old(self).step + pops(q, targets) <= u32::MAX,
                first_hit(b, targets) <= b.len(),
                first_hit(b, targets) < b.len() ==> targets.contains(b[first_hit(b, targets) as int]),
                forall|i: int| 0 <= i < first_hit(b, targets) ==> !targets.contains(#[trigger] b[i]),
                batch.len() <= 10,
                batch.len() <= q.len(),
                batch@ == q.take(batch.len() as int),
                batch.len() <= first_hit(b, targets),
                self.queued() == q.skip(batch.len() as int),
                forall|k: u64| self.queued_set().contains(k) <==> self.queued().contains(k),
                self.step == old(self).step + batch.len(),
                self.nodes@ == old(self).nodes@,
                self.depth == old(self).depth,
                self.end_hash == old(self).end_hash,
                self.destination == old(self).destination,
            ensures
                batch@ == b,
                first_hit(b, targets) == b.len(),
                self.queued() == q.skip(b.len() as int),
                forall|k: u64| self.queued_set().contains(k) <==> self.queued().contains(k),
                self.step == old(self).step + b.len(),
                self.nodes@ == old(self).nodes@,
                self.depth == old(self).depth,
                self.end_hash == old(self).end_hash,
                self.destination == old(self).destination,
            decreases 10 - batch.len(),
        {
            let ghost pre_q = self.queued();
            let ghost pre_set = self.queued_set();
            match self.queue.pop_front() {
                Some(id) => {
                    let ghost n = batch.len() as int;
                    assert(id == q[n]);
                    assert(b[n] == q[n]);
                    self.hash_queue.remove(&id);
                    proof {
                        assert(self.queued_set() == pre_set.remove(id));
                        assert(self.queued() =~= pre_q.drop_first());
                        assert forall|k: u64| self.queued_set().contains(k) <==> self.queued().contains(k) by {
                            if self.queued().contains(k) {
                                let m = choose|m: int| 0 <= m < self.queued().len() && self.queued()[m] == k;
                                assert(pre_q[m + 1] == k);
                                assert(q[n + m + 1] == k);
                                if k == id {
                                    assert(q[n] == q[n + m + 1]);
                                }
                                assert(pre_q.contains(k));
                            }
                            if k != id && pre_q.contains(k) {
                                let m = choose|m: int| 0 <= m < pre_q.len() && pre_q[m] == k;
                                assert(m != 0);
                                assert(self.queued()[m - 1] == k);
                            }
                        }
                    }
                    self.step = self.step + 1;
                    if self.is_target(goal, id) {
                        self.destination = Some(id);
                        assert(first_hit(b, targets) == n);
                        assert(self.queued() =~= q.skip(n + 1));
                        proof {
                            self.lemma_wf_after_pop(*old(self), q, n + 1);
                        }
                        return None;
                    }
                    batch.push(id);
                    assert(batch@ =~= q.take(n + 1));
                    assert(self.queued() =~= q.skip(n + 1));
                },
                None => {
                    break;
                },
            }
        }
        proof {
            self.lemma_wf_after_pop(*old(self), q, b.len() as int);
        }
        Some(batch)
    }

    proof fn lemma_wf_after_pop(self, pre: Graph, q: Seq<u64>, n: int)
        requires
            pre.wf(),
            q == pre.queued(),
            0 <= n <= q.len(),
            self.queued() == q.skip(n),
            forall|k: u64| self.queued_set().contains(k) <==> self.queued().contains(k),
            self.nodes@ == pre.nodes@,
            self.depth == pre.depth,
        ensures
            self.wf(),
    {
        assert forall|i: int| 0 <= i < self.queued().len() implies self.nodes@.contains_key(#[trigger] self.queued()[i]) by {
            assert(self.queued()[i] == q[i + n]);
        }
        assert forall|k: u64| #[trigger] self.nodes@.contains_key(k) implies node_ok(self.nodes@, k, self.depth) by {
            assert(node_ok(pre.nodes@, k, pre.depth));
        }
    }
}

impl Graph {
    /// Marks the pages of a batch visited and collects the requests for
    /// their links.
    fn visit_batch(&mut self, batch: &Vec<u64>) -> (reqs: Vec<PageRequest>)
        requires
            old(self).wf(),
            batch@.no_duplicates(),
            forall|k: u64| batch@.contains(k) ==> !old(self).queued().contains(k),
        ensures
            final(self).wf(),
            final(self).depth >= old(self).depth,
            final(self).queue@ == old(self).queue@,
            final(self).hash_queue@ == old(self).hash_queue@,
            final(self).step == old(self).step,
            final(self).destination == old(self).destination,
            final(self).end_hash == old(self).end_hash,
            final(self).nodes@ == visit_all(old(self).nodes@, batch@),
            final(self).depth == depth_after(old(self).nodes@, batch@, old(self).depth),
            request_views(reqs@) == requests_for(old(self).nodes@, batch@),
    {
        let ghost orig = old(self).nodes@;
        let ghost d0 = old(self).depth;
        let mut reqs: Vec<PageRequest> = Vec::new();
        let mut i: usize = 0;
        while i < batch.len()
            invariant
                old(self).wf(),
                orig == old(self).nodes@,
                d0 == old(self).depth,
                batch@.no_duplicates(),
                i <= batch.len(),
                self.queue@ == old(self).queue@,
                self.hash_queue@ == old(self).hash_queue@,
                self.step == old(self).step,
                self.destination == old(self).destination,
                self.end_hash == old(self).end_hash,
                self.nodes@.dom() == orig.dom(),
                forall|k: u64| #[trigger] orig.contains_key(k) ==> self.nodes@[k] == (if batch@.take(i as int).contains(k) {
                    orig[k].visited_version()
                } else {
                    orig[k]
                }),
                self.depth == depth_after(orig, batch@.take(i as int), d0),
                self.depth >= d0,
                depth_is_deepest_visit(self.nodes@, self.depth),
                forall|k: u64| #[trigger] orig.contains_key(k) && orig[k].visited ==> self.nodes@[k].visited,
                request_views(reqs@) == requests_for(orig, batch@.take(i as int)),
            decreases batch.len() - i,
        {
            let id = batch[i];
            let ghost pre_nodes = self.nodes@;
            let ghost pre_depth = self.depth;
            let ghost pre_reqs = reqs@;
            proof {
                assert(batch@.take(i + 1).drop_last() =~= batch@.take(i as int));
                assert(!batch@.take(i as int).contains(id)) by {
                    if batch@.take(i as int).contains(id) {
                        let m = choose|m: int| 0 <= m < i && batch@.take(i as int)[m] == id;
                        assert(batch@[m] == batch@[i as int]);
                    }
                }
                let ti = batch@.take(i as int);
                let ti1 = batch@.take(i + 1);
                assert(ti1 =~= ti.push(id));
                assert forall|k: u64| ti1.contains(k) <==> (ti.contains(k) || k == id) by {
                    if ti1.contains(k) {
                        let m = choose|m: int| 0 <= m < ti1.len() && ti1[m] == k;
                        if m < ti.len() {
                            assert(ti[m] == k);
                        }
                    }
                    if ti.contains(k) {
                        let m = choose|m: int| 0 <= m < ti.len() && ti[m] == k;
                        assert(ti1[m] == k);
                    }
                    if k == id {
                        assert(ti1[ti.len() as int] == k);
                    }
                }
            }
            let found = match self.nodes.get(&id) {
                Some(node) => {
                    if node.visited {
                        None
                    } else {
                        Some((node.parent_id, node.depth, node.site.clone()))
                    }
                },
                None => None,
            };
            match found {
                Some((parent_id, depth, site)) => {
                    assert(orig.contains_key(id) && !orig[id].visited);
                    if depth > self.depth {
                        self.depth = depth;
                    }
                    reqs.push(PageRequest { id, site: site.clone() });
                    self.nodes.insert(id, Node { parent_id, id, depth, site, visited: true });
                    proof {
                        assert(orig[id].id == id) by {
                            assert(node_ok(orig, id, d0));
                        }
                        assert(request_views(reqs@) =~= request_views(pre_reqs).push((id, orig[id].site@)));
                        assert(self.nodes@.dom() =~= orig.dom());
                        if self.depth == depth {
                            assert(self.nodes@.contains_key(id) && self.nodes@[id].visited && self.nodes@[id].depth == self.depth);
                        } else if pre_depth != 0 {
                            let w = choose|w: u64| #[trigger] pre_nodes.contains_key(w) && pre_nodes[w].visited && pre_nodes[w].depth == pre_depth;
                            assert(w != id);
                            assert(self.nodes@.contains_key(w) && self.nodes@[w].visited && self.nodes@[w].depth == self.depth);
                        }
                    }
                },
                None => {
                    proof {
                        assert(request_views(reqs@) =~= request_views(pre_reqs));
                    }
                },
            }
            i = i + 1;
        }
        proof {
            assert(batch@.take(batch@.len() as int) =~= batch@);
            assert(self.nodes@ =~= visit_all(orig, batch@));
            assert forall|k: u64| #[trigger] self.nodes@.contains_key(k) implies node_ok(self.nodes@, k, self.depth) by {
                assert(node_ok(orig, k, d0));
                if let Some(p) = orig[k].parent_id {
                    assert(orig.contains_key(p) && orig[p].visited);
                }
                if batch@.contains(k) && !orig[k].visited {
                    let m = choose|m: int| 0 <= m < batch@.len() && batch@[m] == k;
                    self.lemma_depth_after_bound(orig, batch@, d0, m);
                }
            }
            assert forall|i: int| 0 <= i < self.queued().len() implies self.nodes@.contains_key(#[trigger] self.queued()[i])
                && !self.nodes@[self.queued()[i]].visited by {
                assert(old(self).nodes@.contains_key(old(self).queued()[i]));
                assert(old(self).queued().contains(old(self).queued()[i]));
            }
        }
        reqs
    }

    proof fn lemma_depth_after_bound(self, nodes: Map<u64, Node>, b: Seq<u64>, d: u16, m: int)
        requires
            0 <= m < b.len(),
            nodes.contains_key(b[m]),
            !nodes[b[m]].visited,
        ensures
            nodes[b[m]].depth <= depth_after(nodes, b, d),
        decreases b.len(),
    {
        if m < b.len() - 1 {
            assert(b.drop_last()[m] == b[m]);
            self.lemma_depth_after_bound(nodes, b.drop_last(), d, m);
        }
    }

    proof fn lemma_batch_in_queue(self)
        requires
            self.wf(),
        ensures
            batch_of(self.queued()).no_duplicates(),
            forall|i: int| 0 <= i < batch_of(self.queued()).len() ==> self.nodes@.contains_key(#[trigger] batch_of(self.queued())[i]),
    {
        let q = self.queued();
        let b = batch_of(q);
        assert forall|i: int| 0 <= i < b.len() implies self.nodes@.contains_key(#[trigger] b[i]) by {
            assert(b[i] == q[i]);
        }
    }

    fn run_step(&mut self, goal: Option<&HashMap<u64, Node>>, Ghost(targets): Ghost<Set<u64>>) -> (r: StepOutcome)
        requires
            old(self).wf(),
            targets == match goal {
                Some(g) => g@.dom(),
                None => set![old(self).end_hash],
            },
            old(self).step + pops(old(self).queued(), targets) <= u32::MAX,
        ensures
            final(self).wf(),
            stepped(*old(self), *final(self), targets, r),
            keeps_pages(old(self).nodes@, final(self).nodes@),
            final(self).step >= old(self).step,
            final(self).depth >= old(self).depth,
    {
        proof {
            old(self).lemma_batch_in_queue();
        }
        match self.take_batch(goal, Ghost(targets)) {
            None => StepOutcome::Found,
            Some(batch) => {
                let reqs = self.visit_batch(&batch);
                StepOutcome::Fetch(reqs)
            },
        }
    }

    /// One step of a search for the page `end_hash`: see `stepped`. A graph
    /// searched for no page (`end_hash` 0) does nothing and asks for nothing.
    pub fn step_unidir(&mut self) -> (r: StepOutcome)
        requires
            old(self).wf(),
            old(self).end_hash == 0 || old(self).step + pops(old(self).queued(), set![old(self).end_hash]) <= u32::MAX,
        ensures
            final(self).wf(),
            keeps_pages(old(self).nodes@, final(self).nodes@),
            final(self).step >= old(self).step,
            final(self).depth >= old(self).depth,
            final(self).end_hash == old(self).end_hash,
            old(self).end_hash == 0 ==> *final(self) == *old(self),
            old(self).end_hash == 0 ==> (r matches StepOutcome::Fetch(v) && v@.len() == 0),
            old(self).end_hash != 0 ==> stepped(*old(self), *final(self), set![old(self).end_hash], r),
            old(self).end_hash != 0 ==> (r matches StepOutcome::Fetch(v) ==> {
                let b = batch_of(old(self).queued());
                &&& v@.len() == b.len()
                &&& forall|j: int| 0 <= j < b.len() ==> (#[trigger] v@[j]).id == b[j]
                    && v@[j].site@ == old(self).nodes@[b[j]].site@
                &&& forall|j: int| 0 <= j < b.len() ==> final(self).nodes@[#[trigger] b[j]].visited
            }),
            r is Found ==> final(self).destination == Some(old(self).end_hash) && final(self).nodes@.contains_key(old(self).end_hash),
    {
        if self.end_hash == 0 {
            return StepOutcome::Fetch(Vec::new());
        }
        let ghost targets = set![self.end_hash];
        proof {
            lemma_first_hit(batch_of(old(self).queued()), targets);
        }
        let r = self.run_step(None, Ghost(targets));
        proof {
            lemma_step_requests_whole_batch(*old(self), *self, targets, r);
        }
        r
    }

    /// One step of one half of a bidirectional search, looking for any page
    /// that the other half, `goal`, has found: see `stepped`.
    pub fn step_bidir(&mut self, goal: &Graph) -> (r: StepOutcome)
        requires
            old(self).wf(),
            old(self).step + pops(old(self).queued(), goal.nodes@.dom()) <= u32::MAX,
        ensures
            final(self).wf(),
            keeps_pages(old(self).nodes@, final(self).nodes@),
            final(self).step >= old(self).step,
            final(self).depth >= old(self).depth,
            stepped(*old(self), *final(self), goal.nodes@.dom(), r),
            r matches StepOutcome::Fetch(v) ==> {
                let b = batch_of(old(self).queued());
                &&& v@.len() == b.len()
                &&& forall|j: int| 0 <= j < b.len() ==> (#[trigger] v@[j]).id == b[j]
                    && v@[j].site@ == old(self).nodes@[b[j]].site@
                &&& forall|j: int| 0 <= j < b.len() ==> final(self).nodes@[#[trigger] b[j]].visited
            },
            r is Found ==> (final(self).destination matches Some(d) && final(self).nodes@.contains_key(d) && goal.nodes@.contains_key(d)),
    {
        let ghost targets = goal.nodes@.dom();
        proof {
            lemma_first_hit(batch_of(old(self).queued()), targets);
        }
        let r = self.run_step(Some(&goal.nodes), Ghost(targets));
        proof {
            lemma_step_requests_whole_batch(*old(self), *self, targets, r);
        }
        r
    }
}

/// The pages that the links `links`, read in order on page `parent`, add
/// to a graph with nodes `nodes` and queue `queue`; `fresh` holds the
/// identifiers added so far by the same links. A link whose identifier was
/// added by an earlier link of the list replaces that page's title; one
/// whose identifier is a node or queued already is dropped; any other
/// becomes a new page at depth `depth`, queued at the back.
pub open spec fn absorb(
    nodes: Map<u64, Node>,
    queue: Seq<u64>,
    fresh: Set<u64>,
    parent: u64,
    depth: u16,
    links: Seq<String>,
) -> (Map<u64, Node>, Seq<u64>, Set<u64>)
    decreases links.len(),
{
    if links.len() == 0 {
        (nodes, queue, fresh)
    } else {
        let prev = absorb(nodes, queue, fresh, parent, depth, links.drop_last());
        let l = links.last();
        let id = title_hash(l@);
        let node = Node { parent_id: Some(parent), id, depth, site: l, visited: false };
        if prev.2.contains(id) {
            (prev.0.insert(id, node), prev.1, prev.2)
        } else if !prev.0.contains_key(id) && !prev.1.contains(id) {
            (prev.0.insert(id, node), prev.1.push(id), prev.2.insert(id))
        } else {
            prev
        }
    }
}

/// One more than `d`; 0 where `d` is the greatest `u16`.
pub open spec fn next_depth(d: u16) -> u16 {
    if d < u16::MAX {
        (d + 1) as u16
    } else {
        0
    }
}

/// Whether some link names a page that is neither a node of `g` nor queued:
/// that is, whether `add_links` would add a page.
pub open spec fn adds_page(g: Graph, links: Seq<String>) -> bool {
    exists|i: int| 0 <= i < links.len() && !g.nodes@.contains_key(title_hash((#[trigger] links[i])@))
        && !g.queued().contains(title_hash(links[i]@))
}

impl Graph {
    /// Adds the pages that page `parent_id` links to, as `absorb` says, at
    /// one more than the graph's depth.
    pub fn add_links(&mut self, parent_id: u64, links: Vec<String>)
        requires
            old(self).wf(),
            old(self).nodes@.contains_key(parent_id),
            old(self).nodes@[parent_id].visited,
            old(self).depth < u16::MAX || !adds_page(*old(self), links@),
        ensures
            final(self).wf(),
            keeps_pages(old(self).nodes@, final(self).nodes@),
            ({
                let a = absorb(
                    old(self).nodes@,
                    old(self).queued(),
                    Set::empty(),
                    parent_id,
                    next_depth(old(self).depth),
                    links@,
                );
                final(self).nodes@ == a.0 && final(self).queued() == a.1
            }),
            forall|k: u64| #[trigger] final(self).nodes@.contains_key(k) <==> (old(self).nodes@.contains_key(k)
                || some_link_hashes_to(links@, k)),
            forall|k: u64| #[trigger] old(self).nodes@.contains_key(k) ==> final(self).nodes@[k] == old(self).nodes@[k],
            forall|i: int| 0 <= i < links@.len() && !old(self).nodes@.contains_key(title_hash((#[trigger] links@[i])@)) ==> {
                let k = title_hash(links@[i]@);
                &&& final(self).nodes@[k].parent_id == Some(parent_id)
                &&& final(self).nodes@[k].depth == old(self).depth + 1
                &&& !final(self).nodes@[k].visited
                &&& links@.contains(final(self).nodes@[k].site)
                &&& final(self).queued().contains(k)
            },
            final(self).queued().subrange(0, old(self).queued().len() as int) == old(self).queued(),
            forall|j: int| old(self).queued().len() <= j < final(self).queued().len() ==> !old(self).nodes@.contains_key(
                #[trigger] final(self).queued()[j],
            ),
            final(self).step == old(self).step,
            final(self).destination == old(self).destination,
            final(self).depth == old(self).depth,
            final(self).end_hash == old(self).end_hash,
    {
        let ghost orig = old(self).nodes@;
        let ghost q0 = old(self).queued();
        let d1: u16 = if self.depth < u16::MAX {
            self.depth + 1
        } else {
            0
        };
        let mut fresh: HashSet<u64> = HashSet::new();
        let mut i: usize = 0;
        while i < links.len()
            invariant
                self.wf(),
                orig == old(self).nodes@,
                q0 == old(self).queued(),
                orig.contains_key(parent_id),
                orig[parent_id].visited,
                d1 == next_depth(old(self).depth),
                old(self).depth < u16::MAX || !adds_page(*old(self), links@),
                old(self).depth < u16::MAX || fresh@ == Set::<u64>::empty(),
                forall|k: u64| q0.contains(k) ==> self.queued().contains(k),
                i <= links.len(),
                self.step == old(self).step,
                self.destination == old(self).destination,
                self.depth == old(self).depth,
                self.end_hash == old(self).end_hash,
                ({
                    let a = absorb(orig, q0, Set::empty(), parent_id, d1, links@.take(i as int));
                    self.nodes@ == a.0 && self.queued() == a.1 && fresh@ == a.2
                }),
                forall|k: u64| #[trigger] orig.contains_key(k) ==> self.nodes@.contains_key(k) && self.nodes@[k] == orig[k],
                forall|k: u64| fresh@.contains(k) ==> !orig.contains_key(k),
                forall|k: u64| #[trigger] self.nodes@.contains_key(k) ==> orig.contains_key(k) || fresh@.contains(k),
                forall|k: u64| #[trigger] fresh@.contains(k) ==> self.nodes@.contains_key(k),
                forall|k: u64| #[trigger] fresh@.contains(k) ==> self.nodes@[k].depth == d1 && !self.nodes@[k].visited,
            decreases links.len() - i,
        {
            let ghost pre_nodes = self.nodes@;
            let ghost pre_q = self.queued();
            let ghost pre_fresh = fresh@;
            let link = &links[i];
            let id = calculate_hash(link.as_str());
            proof {
                assert(links@.take(i + 1).drop_last() =~= links@.take(i as int));
                assert(links@.take(i + 1).last() == links@[i as int]);
                assert(orig.contains_key(parent_id) && self.nodes@[parent_id] == orig[parent_id]);
            }
            if fresh.contains(&id) {
                let node = Node::new(link.clone(), Some(parent_id), d1, id);
                self.nodes.insert(id, node);
                proof {
                    assert(self.depth < u16::MAX);
                    assert(node_ok(pre_nodes, parent_id, self.depth));
                    if self.depth != 0 {
                        let w = choose|w: u64| #[trigger] pre_nodes.contains_key(w) && pre_nodes[w].visited && pre_nodes[w].depth == self.depth;
                        assert(w != id);
                        assert(self.nodes@.contains_key(w));
                    }
                    assert(node_ok(self.nodes@, id, self.depth));
                    assert forall|k: u64| #[trigger] self.nodes@.contains_key(k) implies node_ok(self.nodes@, k, self.depth) by {
                        if k != id {
                            assert(node_ok(pre_nodes, k, self.depth));
                        }
                    }
                    assert forall|j: int| 0 <= j < self.queued().len() implies self.nodes@.contains_key(#[trigger] self.queued()[j])
                        && !self.nodes@[self.queued()[j]].visited by {
                        assert(pre_nodes.contains_key(pre_q[j]));
                        assert(pre_q.contains(pre_q[j]));
                    }
                }
            } else if !self.nodes.contains_key(&id) && !self.hash_queue.contains(&id) {
                let node = Node::new(link.clone(), Some(parent_id), d1, id);
                self.nodes.insert(id, node);
                self.queue.push_back(id);
                self.hash_queue.insert(id);
                fresh.insert(id);
                proof {
                    assert(!pre_q.contains(id));
                    assert(!orig.contains_key(id));
                    assert(!q0.contains(id));
                    if !(old(self).depth < u16::MAX) {
                        assert(adds_page(*old(self), links@)) by {
                            assert(title_hash(links@[i as int]@) == id);
                        }
                    }
                    assert(self.depth < u16::MAX);
                    if self.depth != 0 {
                        let w = choose|w: u64| #[trigger] pre_nodes.contains_key(w) && pre_nodes[w].visited && pre_nodes[w].depth == self.depth;
                        assert(w != id);
                        assert(self.nodes@.contains_key(w));
                    }
                    assert forall|k: u64| q0.contains(k) implies self.queued().contains(k) by {
                        let m = choose|m: int| 0 <= m < pre_q.len() && pre_q[m] == k;
                        assert(self.queued()[m] == k);
                    }
                    assert(self.queued() == pre_q.push(id));
                    assert(self.queued().no_duplicates()) by {
                        assert forall|a: int, b: int| 0 <= a < b < self.queued().len() implies self.queued()[a] != self.queued()[b] by {
                            if b == pre_q.len() {
                                assert(pre_q[a] == self.queued()[a]);
                            }
                        }
                    }
                    assert forall|k: u64| self.queued_set().contains(k) <==> self.queued().contains(k) by {
                        if self.queued().contains(k) && k != id {
                            let m = choose|m: int| 0 <= m < self.queued().len() && self.queued()[m] == k;
                            assert(pre_q[m] == k);
                        }
                        if k != id && pre_q.contains(k) {
                            let m = choose|m: int| 0 <= m < pre_q.len() && pre_q[m] == k;
                            assert(self.queued()[m] == k);
                        }
                        if k == id {
                            assert(self.queued()[pre_q.len() as int] == id);
                        }
                    }
                    assert(node_ok(pre_nodes, parent_id, self.depth));
                    assert(node_ok(self.nodes@, id, self.depth));
                    assert forall|k: u64| #[trigger] self.nodes@.contains_key(k) implies node_ok(self.nodes@, k, self.depth) by {
                        if k != id {
                            assert(node_ok(pre_nodes, k, self.depth));
                        }
                    }
                    assert forall|j: int| 0 <= j < self.queued().len() implies self.nodes@.contains_key(#[trigger] self.queued()[j])
                        && !self.nodes@[self.queued()[j]].visited by {
                        if j < pre_q.len() {
                            assert(pre_nodes.contains_key(pre_q[j]));
                            assert(pre_q.contains(pre_q[j]));
                        }
                    }
                }
            }
            i = i + 1;
        }
        assert(links@.take(links@.len() as int) =~= links@);
        proof {
            lemma_absorb_adds_every_new_link(orig, q0, parent_id, d1, links@);
            if adds_page(*old(self), links@) {
                assert(old(self).depth < u16::MAX);
            }
            assert forall|i: int| 0 <= i < links@.len() && !orig.contains_key(title_hash((#[trigger] links@[i])@)) implies
                old(self).depth < u16::MAX by {
                assert(!q0.contains(title_hash(links@[i]@)));
                assert(adds_page(*old(self), links@));
            }
        }
    }
}

/// The titles along the parent links from page `id` back to the page the
/// search started from, `id`'s own first.
pub open spec fn trail(nodes: Map<u64, Node>, id: u64) -> Seq<String>
    decreases nodes[id].depth,
{
    if !nodes.contains_key(id) {
        Seq::empty()
    } else {
        let n = nodes[id];
        match n.parent_id {
            Some(p) => if nodes.contains_key(p) && nodes[p].depth < n.depth {
                seq![n.site] + trail(nodes, p)
            } else {
                seq![n.site]
            },
            None => seq![n.site],
        }
    }
}

/// The path of titles that ends at `destination`: from the page the search
/// started from to the destination; empty where there is no destination.
pub open spec fn path_of(nodes: Map<u64, Node>, destination: Option<u64>) -> Seq<String> {
    match destination {
        Some(d) => trail(nodes, d).reverse(),
        None => Seq::empty(),
    }
}

impl Graph {
    /// The titles from the search's first page to its destination, following
    /// the parent links back from the destination.
    pub fn get_path(&self) -> (path: Vec<String>)
        requires
            parents_descend(self.nodes@),
        ensures
            path@ == path_of(self.nodes@, self.destination),
    {
        let mut path: Vec<String> = Vec::new();
        let mut current_id = match self.destination {
            Some(id) => id,
            None => {
                return path;
            },
        };
        let ghost start = current_id;
        loop
            invariant_except_break
                parents_descend(self.nodes@),
                self.destination == Some(start),
                trail(self.nodes@, start) == path@ + trail(self.nodes@, current_id),
            ensures
                trail(self.nodes@, start) == path@,
            decreases self.nodes@[current_id].depth,
        {
            match self.nodes.get(&current_id) {
                Some(node) => {
                    path.push(node.site.clone());
                    match node.parent_id {
                        Some(pid) => {
                            proof {
                                assert(self.nodes@.contains_key(current_id));
                            }
                            current_id = pid;
                        },
                        None => {
                            break;
                        },
                    }
                },
                None => {
                    break;
                },
            }
        }
        let mut reversed: Vec<String> = Vec::new();
        let ghost full = path@;
        while path.len() > 0
            invariant
                full.len() == path@.len() + reversed@.len(),
                path@ == full.take(path@.len() as int),
                reversed@ == full.reverse().take(reversed@.len() as int),
            decreases path.len(),
        {
            let last = path.pop().unwrap();
            proof {
                assert(full.reverse()[reversed@.len() as int] == last);
            }
            reversed.push(last);
            assert(reversed@ =~= full.reverse().take(reversed@.len() as int));
            assert(path@ =~= full.take(path@.len() as int));
        }
        assert(reversed@ =~= full.reverse());
        reversed
    }
}

/// Every page of `pre` is a page of `post`, with the same identifier,
/// title, parent and depth, and still visited where it was.
pub open spec fn keeps_pages(pre: Map<u64, Node>, post: Map<u64, Node>) -> bool {
    forall|k: u64| #[trigger] pre.contains_key(k) ==> {
        &&& post.contains_key(k)
        &&& post[k].id == pre[k].id
        &&& post[k].site == pre[k].site
        &&& post[k].parent_id == pre[k].parent_id
        &&& post[k].depth == pre[k].depth
        &&& (pre[k].visited ==> post[k].visited)
    }
}

/// The identifiers along the parent links from `id` back to the page the
/// search started from, `id` first.
pub open spec fn trail_ids(nodes: Map<u64, Node>, id: u64) -> Seq<u64>
    decreases nodes[id].depth,
{
    if !nodes.contains_key(id) {
        Seq::empty()
    } else {
        let n = nodes[id];
        match n.parent_id {
            Some(p) => if nodes.contains_key(p) && nodes[p].depth < n.depth {
                seq![id] + trail_ids(nodes, p)
            } else {
                seq![id]
            },
            None => seq![id],
        }
    }
}

/// The path back from a page of a well-formed graph follows parent links:
/// it starts at that page, each page's parent comes next, and it ends at a
/// page with no parent (the page the search started from); the titles of
/// `trail` are those of these pages.
pub proof fn lemma_trail_follows_parents(g: Graph, id: u64)
    requires
        g.wf(),
        g.nodes@.contains_key(id),
    ensures
        ({
            let ids = trail_ids(g.nodes@, id);
            let t = trail(g.nodes@, id);
            &&& ids.len() > 0
            &&& ids[0] == id
            &&& t.len() == ids.len()
            &&& forall|i: int| 0 <= i < ids.len() ==> g.nodes@.contains_key(#[trigger] ids[i]) && t[i] == g.nodes@[ids[i]].site
            &&& forall|i: int| 0 <= i < ids.len() - 1 ==> g.nodes@[#[trigger] ids[i]].parent_id == Some(ids[i + 1])
            &&& g.nodes@[ids.last()].parent_id is None
        }),
    decreases g.nodes@[id].depth,
{
    let nodes = g.nodes@;
    assert(node_ok(nodes, id, g.depth));
    match nodes[id].parent_id {
        Some(p) => {
            lemma_trail_follows_parents(g, p);
            let rest = trail_ids(nodes, p);
            let ids = trail_ids(nodes, id);
            assert(ids == seq![id] + rest);
            assert forall|i: int| 0 <= i < ids.len() - 1 implies nodes[#[trigger] ids[i]].parent_id == Some(ids[i + 1]) by {
                if i > 0 {
                    assert(ids[i] == rest[i - 1]);
                    assert(ids[i + 1] == rest[i]);
                }
            }
            assert forall|i: int| 0 <= i < ids.len() implies nodes.contains_key(#[trigger] ids[i]) && trail(nodes, id)[i] == nodes[ids[i]].site by {
                if i > 0 {
                    assert(ids[i] == rest[i - 1]);
                }
            }
        },
        None => {},
    }
}

/// The path that `get_path` gives for a destination that is a page of a
/// well-formed graph runs from a page with no parent to the destination,
/// each page being the parent of the next.
pub proof fn lemma_path_ends(g: Graph)
    requires
        g.wf(),
        g.destination matches Some(d) && g.nodes@.contains_key(d),
    ensures
        ({
            let d = g.destination->0;
            let ids = trail_ids(g.nodes@, d).reverse();
            let path = path_of(g.nodes@, g.destination);
            &&& path.len() > 0
            &&& path.len() == ids.len()
            &&& ids.last() == d
            &&& path.last() == g.nodes@[d].site
            &&& g.nodes@[ids[0]].parent_id is None
            &&& forall|i: int| 0 <= i < ids.len() ==> g.nodes@.contains_key(#[trigger] ids[i]) && path[i] == g.nodes@[ids[i]].site
            &&& forall|i: int| 0 < i < ids.len() ==> g.nodes@[#[trigger] ids[i]].parent_id == Some(ids[i - 1])
        }),
{
    let d = g.destination->0;
    lemma_trail_follows_parents(g, d);
    let fwd = trail_ids(g.nodes@, d);
    let t = trail(g.nodes@, d);
    let ids = fwd.reverse();
    let path = path_of(g.nodes@, g.destination);
    let n = fwd.len();
    assert forall|i: int| 0 <= i < ids.len() implies g.nodes@.contains_key(#[trigger] ids[i]) && path[i] == g.nodes@[ids[i]].site by {
        assert(ids[i] == fwd[n - 1 - i]);
        assert(path[i] == t[n - 1 - i]);
    }
    assert forall|i: int| 0 < i < ids.len() implies g.nodes@[#[trigger] ids[i]].parent_id == Some(ids[i - 1]) by {
        assert(ids[i] == fwd[n - 1 - i]);
        assert(ids[i - 1] == fwd[n - 1 - i + 1]);
    }
    assert(ids[0] == fwd[n - 1]);
    assert(ids.last() == fwd[0]);
    assert(path.last() == t[0]);
}

proof fn lemma_requests_for_members(nodes: Map<u64, Node>, b: Seq<u64>)
    ensures
        forall|i: int| 0 <= i < requests_for(nodes, b).len() ==> {
            let k = (#[trigger] requests_for(nodes, b)[i]).0;
            &&& b.contains(k)
            &&& nodes.contains_key(k)
            &&& !nodes[k].visited
        },
    decreases b.len(),
{
    if b.len() > 0 {
        lemma_requests_for_members(nodes, b.drop_last());
        let prev = requests_for(nodes, b.drop_last());
        assert forall|i: int| 0 <= i < requests_for(nodes, b).len() implies {
            let k = (#[trigger] requests_for(nodes, b)[i]).0;
            &&& b.contains(k)
            &&& nodes.contains_key(k)
            &&& !nodes[k].visited
        } by {
            if i < prev.len() {
                assert(requests_for(nodes, b)[i] == prev[i]);
                let k = prev[i].0;
                let m = choose|m: int| 0 <= m < b.drop_last().len() && b.drop_last()[m] == k;
                assert(b[m] == k);
            } else {
                assert(b[b.len() - 1] == b.last());
            }
        }
    }
}

/// Each page's links are asked for at most once: a step asks only for pages
/// of the graph that were not visited, and leaves them visited.
pub proof fn lemma_requests_are_new(pre: Graph, post: Graph, targets: Set<u64>, r: StepOutcome)
    requires
        pre.wf(),
        stepped(pre, post, targets, r),
    ensures
        match r {
            StepOutcome::Fetch(v) => forall|i: int| 0 <= i < v@.len() ==> {
                let k = (#[trigger] v@[i]).id;
                &&& pre.nodes@.contains_key(k)
                &&& !pre.nodes@[k].visited
                &&& post.nodes@.contains_key(k)
                &&& post.nodes@[k].visited
            },
            StepOutcome::Found => true,
        },
{
    let b = batch_of(pre.queued());
    lemma_first_hit(b, targets);
    lemma_requests_for_members(pre.nodes@, b);
    if let StepOutcome::Fetch(v) = r {
        assert forall|i: int| 0 <= i < v@.len() implies {
            let k = (#[trigger] v@[i]).id;
            &&& pre.nodes@.contains_key(k)
            &&& !pre.nodes@[k].visited
            &&& post.nodes@.contains_key(k)
            &&& post.nodes@[k].visited
        } by {
            assert(request_views(v@)[i] == requests_for(pre.nodes@, b)[i]);
        }
    }
}

/// A well-formed graph's parents descend, so its path can be read.
pub proof fn lemma_wf_parents_descend(g: Graph)
    requires
        g.wf(),
    ensures
        parents_descend(g.nodes@),
{
    assert forall|k: u64| #[trigger] g.nodes@.contains_key(k) implies (g.nodes@[k].parent_id matches Some(p)
        ==> g.nodes@.contains_key(p) && g.nodes@[p].depth < g.nodes@[k].depth) by {
        assert(node_ok(g.nodes@, k, g.depth));
    }
}

/// A step does not depend on `end_hash` beyond the targets it is given:
/// two graphs that differ at most in `end_hash`, stepped towards the same
/// targets (as `step_bidir` is, towards the other half's pages), come to the
/// same outcome and again differ at most in `end_hash`, which neither step
/// changes.
pub proof fn lemma_step_ignores_end_hash(
    g1: Graph,
    g2: Graph,
    p1: Graph,
    p2: Graph,
    targets: Set<u64>,
    r1: StepOutcome,
    r2: StepOutcome,
)
    requires
        stepped(g1, p1, targets, r1),
        stepped(g2, p2, targets, r2),
        g1.queued() == g2.queued(),
        g1.nodes@ == g2.nodes@,
        g1.step == g2.step,
        g1.destination == g2.destination,
        g1.depth == g2.depth,
    ensures
        p1.queued() == p2.queued(),
        p1.nodes@ == p2.nodes@,
        p1.step == p2.step,
        p1.destination == p2.destination,
        p1.depth == p2.depth,
        p1.end_hash == g1.end_hash,
        p2.end_hash == g2.end_hash,
        r1 is Found <==> r2 is Found,
        match (r1, r2) {
            (StepOutcome::Fetch(v1), StepOutcome::Fetch(v2)) => request_views(v1@) == request_views(v2@),
            _ => true,
        },
{
}

impl Graph {
    fn count_pops(&self, goal: Option<&HashMap<u64, Node>>, Ghost(targets): Ghost<Set<u64>>) -> (n: usize)
        requires
            targets == match goal {
                Some(g) => g@.dom(),
                None => set![self.end_hash],
            },
        ensures
            n == pops(self.queued(), targets),
    {
        let ghost b = batch_of(self.queued());
        proof {
            lemma_first_hit(b, targets);
        }
        let len = self.queue.len();
        let mut i: usize = 0;
        while i < len && i < 10
            invariant
                len == self.queued().len(),
                b == batch_of(self.queued()),
                targets == match goal {
                    Some(g) => g@.dom(),
                    None => set![self.end_hash],
                },
                i <= b.len(),
                first_hit(b, targets) <= b.len(),
                first_hit(b, targets) < b.len() ==> targets.contains(b[first_hit(b, targets) as int]),
                forall|j: int| 0 <= j < first_hit(b, targets) ==> !targets.contains(#[trigger] b[j]),
                forall|j: int| 0 <= j < i ==> !targets.contains(#[trigger] b[j]),
            decreases len - i,
        {
            let id = self.queue[i];
            assert(id == b[i as int]);
            if self.is_target(goal, id) {
                assert(first_hit(b, targets) == i);
                return i + 1;
            }
            i = i + 1;
        }
        assert(i == b.len());
        i
    }

    /// Whether `step_unidir` may be called without the step counter
    /// passing `u32::MAX`.
    pub fn step_fits_unidir(&self) -> (r: bool)
        ensures
            r == (self.end_hash == 0 || self.step + pops(self.queued(), set![self.end_hash]) <= u32::MAX),
    {
        if self.end_hash == 0 {
            return true;
        }
        let ghost t = set![self.end_hash];
        let n = self.count_pops(None, Ghost(t));
        proof {
            lemma_pops_at_most_ten(self.queued(), t);
        }
        (self.step as u64) + (n as u64) <= u32::MAX as u64
    }

    /// Whether `step_bidir` towards `goal` may be called without the step
    /// counter passing `u32::MAX`.
    pub fn step_fits_bidir(&self, goal: &Graph) -> (r: bool)
        ensures
            r == (self.step + pops(self.queued(), goal.nodes@.dom()) <= u32::MAX),
    {
        let ghost t = goal.nodes@.dom();
        let n = self.count_pops(Some(&goal.nodes), Ghost(t));
        proof {
            lemma_pops_at_most_ten(self.queued(), goal.nodes@.dom());
        }
        (self.step as u64) + (n as u64) <= u32::MAX as u64
    }

    /// Whether `add_links` may be given `links`: the depth of new pages stays
    /// within `u16`, or no link adds a page.
    pub fn links_fit(&self, links: &Vec<String>) -> (r: bool)
        requires
            self.wf(),
        ensures
            r == (self.depth < u16::MAX || !adds_page(*self, links@)),
    {
        if self.depth < u16::MAX {
            return true;
        }
        let mut i: usize = 0;
        while i < links.len()
            invariant
                self.wf(),
                self.depth == u16::MAX,
                i <= links.len(),
                forall|j: int| 0 <= j < i ==> self.nodes@.contains_key(title_hash((#[trigger] links@[j])@))
                    || self.queued().contains(title_hash(links@[j]@)),
            decreases links.len() - i,
        {
            let id = calculate_hash(links[i].as_str());
            if !self.nodes.contains_key(&id) && !self.hash_queue.contains(&id) {
                assert(adds_page(*self, links@) ) by {
                    assert(title_hash(links@[i as int]@) == id);
                }
                return false;
            }
            i = i + 1;
        }
        assert(!adds_page(*self, links@)) by {
            if adds_page(*self, links@) {
                let j = choose|j: int| 0 <= j < links@.len() && !self.nodes@.contains_key(title_hash((#[trigger] links@[j])@))
                    && !self.queued().contains(title_hash(links@[j]@));
                assert(self.nodes@.contains_key(title_hash(links@[j]@)) || self.queued().contains(title_hash(links@[j]@)));
            }
        }
        true
    }
}

proof fn lemma_requests_for_all_new(nodes: Map<u64, Node>, b: Seq<u64>)
    requires
        forall|j: int| 0 <= j < b.len() ==> nodes.contains_key(#[trigger] b[j]) && !nodes[b[j]].visited,
    ensures
        requests_for(nodes, b) == b.map_values(|k: u64| (k, nodes[k].site@)),
    decreases b.len(),
{
    if b.len() > 0 {
        assert forall|j: int| 0 <= j < b.drop_last().len() implies nodes.contains_key(#[trigger] b.drop_last()[j])
            && !nodes[b.drop_last()[j]].visited by {
            assert(b.drop_last()[j] == b[j]);
        }
        lemma_requests_for_all_new(nodes, b.drop_last());
        assert(nodes.contains_key(b[b.len() - 1]));
        assert(b.map_values(|k: u64| (k, nodes[k].site@)) =~= b.drop_last().map_values(|k: u64| (k, nodes[k].site@)).push(
            (b.last(), nodes[b.last()].site@),
        ));
    }
}

/// A step that meets no target asks for the links of every page it takes
/// from the queue, in the order taken, each with its title: of a
/// well-formed graph, every queued page is a node not visited yet.
pub proof fn lemma_step_requests_whole_batch(pre: Graph, post: Graph, targets: Set<u64>, r: StepOutcome)
    requires
        pre.wf(),
        stepped(pre, post, targets, r),
    ensures
        match r {
            StepOutcome::Fetch(v) => {
                let b = batch_of(pre.queued());
                &&& v@.len() == b.len()
                &&& forall|j: int| 0 <= j < b.len() ==> (#[trigger] v@[j]).id == b[j]
                    && v@[j].site@ == pre.nodes@[b[j]].site@
                &&& forall|j: int| 0 <= j < b.len() ==> post.nodes@[#[trigger] b[j]].visited
            },
            StepOutcome::Found => true,
        },
{
    let q = pre.queued();
    let b = batch_of(q);
    lemma_first_hit(b, targets);
    assert forall|j: int| 0 <= j < b.len() implies pre.nodes@.contains_key(#[trigger] b[j]) && !pre.nodes@[b[j]].visited by {
        assert(b[j] == q[j]);
    }
    lemma_requests_for_all_new(pre.nodes@, b);
    if let StepOutcome::Fetch(v) = r {
        let views = request_views(v@);
        assert(views.len() == v@.len());
        assert forall|j: int| 0 <= j < b.len() implies (#[trigger] v@[j]).id == b[j]
            && v@[j].site@ == pre.nodes@[b[j]].site@ by {
            assert(views[j] == (v@[j].id, v@[j].site@));
            assert(views[j] == requests_for(pre.nodes@, b)[j]);
        }
        assert forall|j: int| 0 <= j < b.len() implies post.nodes@[#[trigger] b[j]].visited by {
            assert(b.contains(b[j]));
        }
    }
}

/// Whether some link's title hashes to `k`.
pub open spec fn some_link_hashes_to(links: Seq<String>, k: u64) -> bool {
    exists|i: int| 0 <= i < links.len() && title_hash((#[trigger] links[i])@) == k
}

/// What `add_links` does to the pages of a graph: a page is added for the
/// hash of every link that is no page yet, as a child of `parent` at depth
/// `d`, not visited, titled by one of those links and queued behind the
/// pages queued before; pages already there stay as they were; and no other
/// page is added.
pub proof fn lemma_absorb_adds_every_new_link(n0: Map<u64, Node>, q0: Seq<u64>, parent: u64, d: u16, links: Seq<String>)
    requires
        forall|j: int| 0 <= j < q0.len() ==> n0.contains_key(#[trigger] q0[j]),
    ensures
        ({
            let a = absorb(n0, q0, Set::empty(), parent, d, links);
            &&& forall|k: u64| #[trigger] a.0.contains_key(k) <==> (n0.contains_key(k)
                || some_link_hashes_to(links, k))
            &&& forall|k: u64| #[trigger] n0.contains_key(k) ==> a.0[k] == n0[k]
            &&& forall|i: int| 0 <= i < links.len() && !n0.contains_key(title_hash((#[trigger] links[i])@)) ==> {
                let k = title_hash(links[i]@);
                &&& a.0.contains_key(k)
                &&& a.0[k].parent_id == Some(parent)
                &&& a.0[k].depth == d
                &&& !a.0[k].visited
                &&& a.0[k].id == k
                &&& title_hash(a.0[k].site@) == k
                &&& links.contains(a.0[k].site)
                &&& a.1.contains(k)
            }
            &&& q0.len() <= a.1.len()
            &&& a.1.subrange(0, q0.len() as int) == q0
            &&& forall|j: int| q0.len() <= j < a.1.len() ==> !n0.contains_key(#[trigger] a.1[j])
        }),
    decreases links.len(),
{
    lemma_absorb_fresh(n0, q0, parent, d, links);
}

proof fn lemma_absorb_fresh(n0: Map<u64, Node>, q0: Seq<u64>, parent: u64, d: u16, links: Seq<String>)
    requires
        forall|j: int| 0 <= j < q0.len() ==> n0.contains_key(#[trigger] q0[j]),
    ensures
        ({
            let a = absorb(n0, q0, Set::empty(), parent, d, links);
            &&& forall|k: u64| #[trigger] a.0.contains_key(k) <==> (n0.contains_key(k)
                || some_link_hashes_to(links, k))
            &&& forall|k: u64| #[trigger] n0.contains_key(k) ==> a.0[k] == n0[k]
            &&& forall|k: u64| #[trigger] a.2.contains(k) <==> (!n0.contains_key(k)
                && some_link_hashes_to(links, k))
            &&& forall|k: u64| #[trigger] a.2.contains(k) ==> {
                &&& a.0.contains_key(k)
                &&& a.0[k].parent_id == Some(parent)
                &&& a.0[k].depth == d
                &&& !a.0[k].visited
                &&& a.0[k].id == k
                &&& title_hash(a.0[k].site@) == k
                &&& links.contains(a.0[k].site)
                &&& a.1.contains(k)
            }
            &&& forall|i: int| 0 <= i < links.len() && !n0.contains_key(title_hash((#[trigger] links[i])@)) ==> a.2.contains(
                title_hash(links[i]@),
            )
            &&& q0.len() <= a.1.len()
            &&& a.1.subrange(0, q0.len() as int) == q0
            &&& forall|j: int| q0.len() <= j < a.1.len() ==> #[trigger] a.2.contains(a.1[j])
            &&& forall|j: int| q0.len() <= j < a.1.len() ==> !n0.contains_key(#[trigger] a.1[j])
        }),
    decreases links.len(),
{
    let a = absorb(n0, q0, Set::empty(), parent, d, links);
    if links.len() == 0 {
        assert(q0.subrange(0, q0.len() as int) =~= q0);
    } else {
        let pl = links.drop_last();
        lemma_absorb_fresh(n0, q0, parent, d, pl);
        let prev = absorb(n0, q0, Set::empty(), parent, d, pl);
        let l = links.last();
        let id = title_hash(l@);
        let node = Node { parent_id: Some(parent), id, depth: d, site: l, visited: false };
        assert(links[links.len() - 1] == l);
        assert forall|i: int| 0 <= i < pl.len() implies #[trigger] pl[i] == links[i] by {}
        assert forall|s: String| pl.contains(s) implies links.contains(s) by {
            let i = choose|i: int| 0 <= i < pl.len() && pl[i] == s;
            assert(links[i] == s);
        }
        assert(links.contains(l));
        // a link of `links` is one of `pl` or the last
        assert forall|k: u64| (some_link_hashes_to(links, k)) <==> ((exists|i: int|
            0 <= i < pl.len() && title_hash((#[trigger] pl[i])@) == k) || k == id) by {
            if exists|i: int| 0 <= i < links.len() && title_hash((#[trigger] links[i])@) == k {
                let i = choose|i: int| 0 <= i < links.len() && title_hash((#[trigger] links[i])@) == k;
                if i < pl.len() {
                    assert(title_hash(pl[i]@) == k);
                }
            }
            if exists|i: int| 0 <= i < pl.len() && title_hash((#[trigger] pl[i])@) == k {
                let i = choose|i: int| 0 <= i < pl.len() && title_hash((#[trigger] pl[i])@) == k;
                assert(title_hash(links[i]@) == k);
            }
            if k == id {
                assert(title_hash(links[links.len() - 1]@) == k);
            }
        }
        if prev.2.contains(id) {
            assert(a == (prev.0.insert(id, node), prev.1, prev.2));
        } else if !prev.0.contains_key(id) && !prev.1.contains(id) {
            assert(a == (prev.0.insert(id, node), prev.1.push(id), prev.2.insert(id)));
            assert(a.1.subrange(0, q0.len() as int) =~= prev.1.subrange(0, q0.len() as int));
            assert(a.1[prev.1.len() as int] == id);
            assert forall|k: u64| #[trigger] a.2.contains(k) implies a.1.contains(k) by {
                if k != id {
                    let j = choose|j: int| 0 <= j < prev.1.len() && prev.1[j] == k;
                    assert(a.1[j] == k);
                }
            }
        } else {
            assert(a == prev);
            // the link's page was there before
            if prev.1.contains(id) {
                let j = choose|j: int| 0 <= j < prev.1.len() && prev.1[j] == id;
                if j < q0.len() {
                    assert(prev.1.subrange(0, q0.len() as int)[j] == id);
                    assert(q0[j] == id);
                }
            }
            assert(n0.contains_key(id));
        }
        assert forall|i: int| 0 <= i < links.len() && !n0.contains_key(title_hash((#[trigger] links[i])@)) implies a.2.contains(
            title_hash(links[i]@),
        ) by {
            if i < pl.len() {
                assert(pl[i] == links[i]);
            }
        }
    }
}

} // verus!
