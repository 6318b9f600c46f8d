use vstd::prelude::*;
use vstd::string::*;

verus! {

type EdgeIndex = usize;

type NodeIndex = usize;

/// `c` with an ASCII lower-case letter made upper-case.
pub open spec fn upper(c: char) -> char {
    if 97 <= c as u32 && c as u32 <= 122 {
        ((c as u32 - 32) as u8) as char
    } else {
        c
    }
}

pub open spec fn upper_all(w: Seq<char>) -> Seq<char> {
    w.map_values(|c: char| upper(c))
}

fn upper_exec(c: char) -> (r: char)
    ensures
        r == upper(c),
{
    let u = c as u32;
    if 97 <= u && u <= 122 {
        ((u - 32) as u8) as char
    } else {
        c
    }
}

/// A dictionary kept as a trie in an arena: node 0 is the root, each edge
/// carries a letter from a parent node to a child node, and a node is
/// terminal where a word ends.
pub struct Dict {
    nodes: Vec<Node>,
    edges: Vec<Edge>,
    /// The letters on the way from the root to each node.
    paths: Ghost<Seq<Seq<char>>>,
    /// The edge into each node but the root.
    incoming: Ghost<Seq<int>>,
    /// Where that edge stands among its parent's children.
    slot: Ghost<Seq<int>>,
    words: Ghost<Set<Seq<char>>>,
}

/// A node of the trie: its edges to children and from its parent, and
/// whether a word ends here.
pub struct Node {
    children_edges: Vec<EdgeIndex>,
    parent_edges: Vec<EdgeIndex>,
    is_terminal: bool,
}

impl Node {
    /// A node with no edges, where no word ends.
    pub closed spec fn is_fresh(&self) -> bool {
        self.children_edges@.len() == 0 && self.parent_edges@.len() == 0 && !self.is_terminal
    }

    pub fn new() -> (r: Node)
        ensures
            r.is_fresh(),
    {
        Node { children_edges: Vec::new(), parent_edges: Vec::new(), is_terminal: false }
    }
}

struct Edge {
    letter: char,
    child: NodeIndex,
    parent: NodeIndex,
    id: EdgeIndex,
}

impl View for Dict {
    type V = Set<Seq<char>>;

    /// The words held, in upper case.
    closed spec fn view(&self) -> Set<Seq<char>> {
        self.words@
    }
}

impl Dict {
    /// The number of nodes.
    pub closed spec fn node_count(&self) -> nat {
        self.nodes@.len()
    }

    /// The letters on the way from the root to node `n`.
    pub closed spec fn path_of(&self, n: int) -> Seq<char> {
        self.paths@[n]
    }

    /// A word ends at node `n`.
    pub closed spec fn is_end(&self, n: int) -> bool {
        self.nodes@[n].is_terminal
    }

    /// The edges, each as its letter, parent and child, in the order added.
    pub closed spec fn edge_list(&self) -> Seq<(char, int, int)> {
        self.edges@.map_values(|e: Edge| (e.letter, e.parent as int, e.child as int))
    }

    /// `self` keeps every node and every edge of `o`, in place.
    pub open spec fn extends(&self, o: &Dict) -> bool {
        &&& o.node_count() <= self.node_count()
        &&& o.edge_list().len() <= self.edge_list().len()
        &&& forall|i: int| 0 <= i < o.edge_list().len() ==> #[trigger] self.edge_list()[i] == o.edge_list()[i]
    }

    pub closed spec fn wf(&self) -> bool {
        let paths = self.paths@;
        let nodes = self.nodes@;
        let edges = self.edges@;
        &&& nodes.len() == paths.len()
        &&& nodes.len() >= 1
        &&& paths[0] == Seq::<char>::empty()
        &&& self.incoming@.len() == nodes.len()
        &&& self.slot@.len() == nodes.len()
        &&& forall|e: int|
            0 <= e < edges.len() ==> {
                &&& (#[trigger] edges[e]).parent < nodes.len()
                &&& edges[e].child < nodes.len()
                &&& edges[e].id == e
                &&& paths[edges[e].child as int] == paths[edges[e].parent as int].push(edges[e].letter)
            }
        &&& forall|n: int, j: int|
            0 <= n < nodes.len() && 0 <= j < nodes[n].children_edges@.len() ==> {
                &&& (#[trigger] nodes[n].children_edges@[j]) < edges.len()
                &&& edges[nodes[n].children_edges@[j] as int].parent == n
            }
        &&& forall|m: int|
            0 < m < nodes.len() ==> {
                let e = #[trigger] self.incoming@[m];
                let p = edges[e].parent as int;
                &&& 0 <= e < edges.len()
                &&& edges[e].child == m
                &&& 0 <= self.slot@[m] < nodes[p].children_edges@.len()
                &&& nodes[p].children_edges@[self.slot@[m]] == e
            }
        &&& forall|a: int, b: int|
            0 <= a < nodes.len() && 0 <= b < nodes.len() && a != b ==> #[trigger] paths[a] != #[trigger] paths[b]
        &&& forall|n: int, k: int|
            0 <= n < nodes.len() && 0 <= k <= paths[n].len() ==> exists|m: int|
                0 <= m < nodes.len() && #[trigger] paths[m] == #[trigger] paths[n].take(k)
        &&& forall|n: int| 0 <= n < nodes.len() ==> (#[trigger] nodes[n].is_terminal <==> self.words@.contains(paths[n]))
        &&& forall|w: Seq<char>| #[trigger] self.words@.contains(w) ==> exists|n: int|
            0 <= n < nodes.len() && #[trigger] paths[n] == w
    }

    proof fn lemma_has_root(&self)
        requires
            self.wf(),
        ensures
            self.node_count() >= 1,
    {
    }

    /// An empty dictionary: a root and nothing else.
    pub fn new() -> (r: Dict)
        ensures
            r.wf(),
            r@ == Set::<Seq<char>>::empty(),
            r.node_count() == 1,
            r.path_of(0) == Seq::<char>::empty(),
            r.edge_list().len() == 0,
    {
        let mut nodes: Vec<Node> = Vec::new();
        nodes.push(Node::new());
        let ghost paths = seq![Seq::<char>::empty()];
        let ghost zero = seq![0int];
        let d = Dict {
            nodes,
            edges: Vec::new(),
            paths: Ghost(paths),
            incoming: Ghost(zero),
            slot: Ghost(zero),
            words: Ghost(Set::empty()),
        };
        proof {
            assert forall|n: int, k: int|
                0 <= n < d.nodes@.len() && 0 <= k <= d.paths@[n].len() implies exists|m: int|
                    0 <= m < d.nodes@.len() && #[trigger] d.paths@[m] == #[trigger] d.paths@[n].take(k) by {
                assert(d.paths@[0] == d.paths@[n].take(k));
            }
        }
        d
    }

    /// The child of node `n` along an edge labelled `c`, if there is one.
    fn find_child(&self, n: NodeIndex, c: char) -> (r: Option<NodeIndex>)
        requires
            self.wf(),
            n < self.node_count(),
        ensures
            r is Some ==> r->0 < self.node_count() && self.paths@[r->0 as int] == self.paths@[n as int].push(c),
            r is None ==> forall|m: int| 0 <= m < self.node_count() ==> self.paths@[m] != self.paths@[n as int].push(c),
    {
        let children = &self.nodes[n].children_edges;
        let mut j: usize = 0;
        while j < children.len()
            invariant
                self.wf(),
                n < self.node_count(),
                children == &self.nodes@[n as int].children_edges,
                j <= children@.len(),
                forall|t: int| 0 <= t < j ==> self.edges@[#[trigger] children@[t] as int].letter != c,
            decreases children@.len() - j,
        {
            let e = children[j];
            assert(e == self.nodes@[n as int].children_edges@[j as int]);
            if self.edges[e].letter == c {
                return Some(self.edges[e].child);
            }
            j += 1;
        }
        proof {
            assert forall|m: int| 0 <= m < self.node_count() implies self.paths@[m] != self.paths@[n as int].push(c) by {
                if self.paths@[m] == self.paths@[n as int].push(c) {
                    assert(m != 0) by {
                        assert(self.paths@[m].len() > 0);
                    }
                    let e = self.incoming@[m];
                    let p = self.edges@[e].parent as int;
                    assert(self.paths@[m] == self.paths@[p].push(self.edges@[e].letter));
                    assert(self.paths@[p] =~= self.paths@[m].drop_last());
                    assert(self.paths@[n as int] =~= self.paths@[m].drop_last());
                    assert(p == n);
                    assert(self.paths@[m].last() == c);
                    assert(self.edges@[e].letter == c);
                    assert(children@[self.slot@[m]] == e);
                    assert(self.edges@[children@[self.slot@[m]] as int].letter != c);
                }
            }
        }
        None
    }
}

/// Lexicographic order on texts, by code point.
pub open spec fn chars_lt(a: Seq<char>, b: Seq<char>) -> bool
    decreases a.len(),
{
    if b.len() == 0 {
        false
    } else if a.len() == 0 {
        true
    } else if a[0] != b[0] {
        (a[0] as u32) < (b[0] as u32)
    } else {
        chars_lt(a.drop_first(), b.drop_first())
    }
}

/// The length of the common start of `a` and `b`, where `b` is read as
/// if followed by `?` without end.
pub open spec fn matched_len(a: Seq<char>, b: Seq<char>, i: int) -> int
    decreases a.len() - i,
{
    if 0 <= i < a.len() && a[i] == (if i < b.len() {
        b[i]
    } else {
        '?'
    }) {
        matched_len(a, b, i + 1)
    } else {
        i
    }
}

/// Relies on `String`'s `FromIterator<char>`: the string of exactly these
/// characters, in order.
#[verifier::external_body]
pub(crate) fn string_of(chars: &Vec<char>) -> (r: String)
    ensures
        r@ == chars@,
{
    chars.iter().collect()
}

/// Character `i` of `s`, or `?` past its end.
fn padded_char(s: &str, i: usize) -> (r: char)
    ensures
        r == (if i < s@.len() {
            s@[i as int]
        } else {
            '?'
        }),
{
    if i < s.unicode_len() {
        s.get_char(i)
    } else {
        '?'
    }
}

fn lt_exec(a: &str, b: &str) -> (r: bool)
    ensures
        r == chars_lt(a@, b@),
{
    let na = a.unicode_len();
    let nb = b.unicode_len();
    let mut i: usize = 0;
    assert(a@.skip(0) =~= a@);
    assert(b@.skip(0) =~= b@);
    while i < na && i < nb && a.get_char(i) == b.get_char(i)
        invariant
            na == a@.len(),
            nb == b@.len(),
            i <= na,
            i <= nb,
            chars_lt(a@, b@) == chars_lt(a@.skip(i as int), b@.skip(i as int)),
        decreases na - i,
    {
        proof {
            assert(a@.skip(i as int).drop_first() =~= a@.skip(i as int + 1));
            assert(b@.skip(i as int).drop_first() =~= b@.skip(i as int + 1));
        }
        i += 1;
    }
    if i == nb {
        false
    } else if i == na {
        true
    } else {
        (a.get_char(i) as u32) < (b.get_char(i) as u32)
    }
}

impl Dict {
    fn add_node(&mut self) -> (r: NodeIndex)
        ensures
            r == old(self).nodes@.len(),
            final(self).nodes@.len() == old(self).nodes@.len() + 1,
            forall|n: int| 0 <= n < r ==> #[trigger] final(self).nodes@[n] == old(self).nodes@[n],
            final(self).nodes@[r as int].is_fresh(),
            final(self).edges@ == old(self).edges@,
            final(self).paths == old(self).paths,
            final(self).incoming == old(self).incoming,
            final(self).slot == old(self).slot,
            final(self).words == old(self).words,
    {
        let index = self.nodes.len();
        self.nodes.push(Node::new());
        index
    }

    fn add_edge(&mut self, child: NodeIndex, parent: NodeIndex, letter: char)
        requires
            child < old(self).nodes@.len(),
            parent < old(self).nodes@.len(),
            child != parent,
        ensures
            final(self).edges@ == old(self).edges@.push(
                Edge { letter, child, parent, id: old(self).edges@.len() as usize },
            ),
            final(self).nodes@.len() == old(self).nodes@.len(),
            final(self).nodes@[parent as int].children_edges@ == old(self).nodes@[parent as int].children_edges@.push(
                old(self).edges@.len() as usize,
            ),
            final(self).nodes@[parent as int].is_terminal == old(self).nodes@[parent as int].is_terminal,
            final(self).nodes@[child as int].children_edges@ == old(self).nodes@[child as int].children_edges@,
            final(self).nodes@[child as int].is_terminal == old(self).nodes@[child as int].is_terminal,
            forall|n: int| 0 <= n < final(self).nodes@.len() && n != child && n != parent ==> #[trigger] final(self).nodes@[n] == old(self).nodes@[n],
            final(self).paths == old(self).paths,
            final(self).incoming == old(self).incoming,
            final(self).slot == old(self).slot,
            final(self).words == old(self).words,
    {
        let id = self.edges.len();
        self.nodes[child].parent_edges.push(id);
        self.nodes[parent].children_edges.push(id);
        self.edges.push(Edge { letter, child, parent, id });
    }

    /// Adds a child of `parent` along `letter`, where none is yet.
    fn add_child(&mut self, parent: NodeIndex, letter: char) -> (r: NodeIndex)
        requires
            old(self).wf(),
            parent < old(self).node_count(),
            forall|m: int| 0 <= m < old(self).node_count() ==> old(self).paths@[m] != old(self).paths@[parent as int].push(letter),
        ensures
            final(self).wf(),
            r < final(self).node_count(),
            final(self).paths@ == old(self).paths@.push(old(self).paths@[parent as int].push(letter)),
            r == old(self).node_count(),
            final(self)@ == old(self)@,
            final(self).edges@.len() == old(self).edges@.len() + 1,
            forall|j: int| 0 <= j < old(self).edges@.len() ==> #[trigger] final(self).edges@[j] == old(self).edges@[j],
    {
        let ghost old_children_len = self.nodes@[parent as int].children_edges@.len();
        let e_id = self.edges.len();
        let ghost e = e_id as int;
        let child = self.add_node();
        let ghost s1 = *self;
        self.add_edge(child, parent, letter);
        let ghost new_path = self.paths@[parent as int].push(letter);
        let ghost o = *old(self);
        proof {
            self.paths@ = self.paths@.push(new_path);
            self.incoming@ = self.incoming@.push(e);
            self.slot@ = self.slot@.push(old_children_len as int);
        }
        proof {
            let paths = self.paths@;
            let nodes = self.nodes@;
            let edges = self.edges@;
            assert(paths == o.paths@.push(new_path));
            assert(o.wf());
            assert forall|e2: int| 0 <= e2 < edges.len() implies {
                &&& (#[trigger] edges[e2]).parent < nodes.len()
                &&& edges[e2].child < nodes.len()
                &&& edges[e2].id == e2
                &&& paths[edges[e2].child as int] == paths[edges[e2].parent as int].push(edges[e2].letter)
            } by {
                if e2 < e {
                    assert(edges[e2] == o.edges@[e2]);
                    assert(o.edges@[e2].parent < o.nodes@.len());
                    assert(o.paths@[o.edges@[e2].child as int] == o.paths@[o.edges@[e2].parent as int].push(o.edges@[e2].letter));
                } else {
                    assert(edges[e2] == Edge { letter, child, parent, id: e_id });
                }
            }
            assert forall|n: int, j: int|
                0 <= n < nodes.len() && 0 <= j < nodes[n].children_edges@.len() implies {
                    &&& (#[trigger] nodes[n].children_edges@[j]) < edges.len()
                    &&& edges[nodes[n].children_edges@[j] as int].parent == n
                } by {
                if n == parent {
                    if j < old_children_len {
                        assert(s1.nodes@[n] == o.nodes@[n]);
                        assert(nodes[n].children_edges@[j] == o.nodes@[n].children_edges@[j]);
                        assert(o.nodes@[n].children_edges@[j] < o.edges@.len());
                        assert(edges[o.nodes@[n].children_edges@[j] as int] == o.edges@[o.nodes@[n].children_edges@[j] as int]);
                    } else {
                        assert(nodes[n].children_edges@[j] == e_id);
                        assert(edges[e] == Edge { letter, child, parent, id: e_id });
                    }
                } else if n != child {
                    assert(s1.nodes@[n] == o.nodes@[n]);
                    assert(nodes[n] == o.nodes@[n]);
                    assert(o.nodes@[n].children_edges@[j] < o.edges@.len());
                    assert(edges[o.nodes@[n].children_edges@[j] as int] == o.edges@[o.nodes@[n].children_edges@[j] as int]);
                } else {
                    assert(s1.nodes@[n].is_fresh());
                }
            }
            assert forall|m: int| 0 < m < nodes.len() implies {
                let e3 = #[trigger] self.incoming@[m];
                let p = edges[e3].parent as int;
                &&& 0 <= e3 < edges.len()
                &&& edges[e3].child == m
                &&& 0 <= self.slot@[m] < nodes[p].children_edges@.len()
                &&& nodes[p].children_edges@[self.slot@[m]] == e3
            } by {
                if m < child {
                    let e3 = o.incoming@[m];
                    assert(self.incoming@[m] == e3);
                    assert(edges[e3] == o.edges@[e3]);
                    let p = edges[e3].parent as int;
                    if p == parent {
                        assert(nodes[p].children_edges@[self.slot@[m]] == o.nodes@[p].children_edges@[o.slot@[m]]);
                    } else if p != child {
                        assert(nodes[p] == o.nodes@[p]);
                    }
                }
            }
            assert forall|a: int, b: int|
                0 <= a < nodes.len() && 0 <= b < nodes.len() && a != b implies #[trigger] paths[a] != #[trigger] paths[b] by {
                if a < child && b < child {
                    assert(paths[a] == o.paths@[a]);
                    assert(paths[b] == o.paths@[b]);
                } else if a == child {
                    assert(paths[b] == o.paths@[b]);
                } else {
                    assert(paths[a] == o.paths@[a]);
                }
            }
            assert forall|n: int, k: int|
                0 <= n < nodes.len() && 0 <= k <= paths[n].len() implies exists|m: int|
                    0 <= m < nodes.len() && #[trigger] paths[m] == #[trigger] paths[n].take(k) by {
                if n < child {
                    assert(paths[n] == o.paths@[n]);
                    let m = choose|m: int| 0 <= m < o.nodes@.len() && #[trigger] o.paths@[m] == o.paths@[n].take(k);
                    assert(paths[m] == o.paths@[m]);
                } else if k == paths[n].len() {
                    assert(paths[n] == paths[n].take(k));
                } else {
                    assert(paths[n].take(k) =~= o.paths@[parent as int].take(k));
                    let m = choose|m: int| 0 <= m < o.nodes@.len() && #[trigger] o.paths@[m] == o.paths@[parent as int].take(k);
                    assert(paths[m] == o.paths@[m]);
                }
            }
            assert forall|n: int| 0 <= n < nodes.len() implies (#[trigger] nodes[n].is_terminal <==> self.words@.contains(paths[n])) by {
                if n == child {
                    assert(s1.nodes@[n].is_fresh());
                    if self.words@.contains(paths[n]) {
                        let q = choose|q: int| 0 <= q < o.nodes@.len() && #[trigger] o.paths@[q] == paths[n];
                    }
                } else if n != parent {
                    assert(nodes[n] == o.nodes@[n]);
                    assert(paths[n] == o.paths@[n]);
                } else {
                    assert(paths[n] == o.paths@[n]);
                }
            }
            assert forall|w: Seq<char>| #[trigger] self.words@.contains(w) implies exists|n: int|
                0 <= n < nodes.len() && #[trigger] paths[n] == w by {
                let q = choose|q: int| 0 <= q < o.nodes@.len() && #[trigger] o.paths@[q] == w;
                assert(paths[q] == o.paths@[q]);
            }
        }
        child
    }
}

impl Dict {
    /// Adds the letters of `word`, in upper case, below node `start_node`,
    /// and gives the node where they end; the dictionary then holds the
    /// path to that node as a word.
    pub fn insert(&mut self, start_node: NodeIndex, word: &str) -> (r: NodeIndex)
        requires
            old(self).wf(),
            start_node < old(self).node_count(),
        ensures
            final(self).wf(),
            r < final(self).node_count(),
            final(self).path_of(r as int) == old(self).path_of(start_node as int) + upper_all(word@),
            final(self)@ == old(self)@.insert(old(self).path_of(start_node as int) + upper_all(word@)),
            final(self).path_of(0) == old(self).path_of(0),
            final(self).is_end(r as int),
            final(self).extends(old(self)),
    {
        let n = word.unicode_len();
        let mut idx = start_node;
        let ghost base = self.paths@[start_node as int];
        let mut i: usize = 0;
        assert(base + upper_all(word@).take(0) =~= base);
        while i < n
            invariant
                self.wf(),
                n == word@.len(),
                i <= n,
                idx < self.node_count(),
                self.paths@[idx as int] == base + upper_all(word@).take(i as int),
                self.words == old(self).words,
                self.paths@[0] == old(self).paths@[0],
                old(self).node_count() <= self.node_count(),
                old(self).edges@.len() <= self.edges@.len(),
                forall|j: int| 0 <= j < old(self).edges@.len() ==> #[trigger] self.edges@[j] == old(self).edges@[j],
                base == old(self).paths@[start_node as int],
            decreases n - i,
        {
            let letter = upper_exec(word.get_char(i));
            let ghost next = self.paths@[idx as int].push(letter);
            assert(next =~= base + upper_all(word@).take(i as int + 1));
            match self.find_child(idx, letter) {
                Some(child) => {
                    idx = child;
                },
                None => {
                    idx = self.add_child(idx, letter);
                },
            }
            i += 1;
        }
        assert(upper_all(word@).take(n as int) =~= upper_all(word@));
        let ghost o = *self;
        self.nodes[idx].is_terminal = true;
        assert(self.edges@ == o.edges@);
        proof {
            let p = self.paths@[idx as int];
            self.words@ = self.words@.insert(p);
            assert forall|m: int| 0 <= m < self.nodes@.len() implies (#[trigger] self.nodes@[m].is_terminal
                <==> self.words@.contains(self.paths@[m])) by {
                if m != idx {
                    assert(self.nodes@[m] == o.nodes@[m]);
                    assert(o.nodes@[m].is_terminal <==> o.words@.contains(o.paths@[m]));
                }
            }
            assert forall|w: Seq<char>| #[trigger] self.words@.contains(w) implies exists|k: int|
                0 <= k < self.nodes@.len() && #[trigger] self.paths@[k] == w by {
                if w != p {
                    assert(o.words@.contains(w));
                    let k = choose|k: int| 0 <= k < o.nodes@.len() && #[trigger] o.paths@[k] == w;
                    assert(self.paths@[k] == w);
                } else {
                    assert(self.paths@[idx as int] == w);
                }
            }
            assert forall|a: int, j: int|
                0 <= a < self.nodes@.len() && 0 <= j < self.nodes@[a].children_edges@.len() implies {
                    &&& (#[trigger] self.nodes@[a].children_edges@[j]) < self.edges@.len()
                    &&& self.edges@[self.nodes@[a].children_edges@[j] as int].parent == a
                } by {
                assert(self.nodes@[a].children_edges == o.nodes@[a].children_edges);
            }
            assert forall|m: int| 0 < m < self.nodes@.len() implies {
                let e3 = #[trigger] self.incoming@[m];
                let q = self.edges@[e3].parent as int;
                &&& 0 <= e3 < self.edges@.len()
                &&& self.edges@[e3].child == m
                &&& 0 <= self.slot@[m] < self.nodes@[q].children_edges@.len()
                &&& self.nodes@[q].children_edges@[self.slot@[m]] == e3
            } by {
                let e3 = self.incoming@[m];
                let q = self.edges@[e3].parent as int;
                assert(self.nodes@[q].children_edges == o.nodes@[q].children_edges);
            }
        }
        idx
    }

    /// Whether `word`, in upper case, is one of the words; an empty word
    /// never is.
    pub fn contains(&self, word: &str) -> (r: bool)
        requires
            self.wf(),
        ensures
            r == (word@.len() > 0 && self@.contains(upper_all(word@))),
    {
        let n = word.unicode_len();
        if n == 0 {
            return false;
        }
        let mut idx: NodeIndex = 0;
        let mut i: usize = 0;
        assert(upper_all(word@).take(0) =~= Seq::<char>::empty());
        while i < n
            invariant
                self.wf(),
                n == word@.len(),
                i <= n,
                idx < self.node_count(),
                self.paths@[idx as int] == upper_all(word@).take(i as int),
            decreases n - i,
        {
            let letter = upper_exec(word.get_char(i));
            assert(self.paths@[idx as int].push(letter) =~= upper_all(word@).take(i as int + 1));
            match self.find_child(idx, letter) {
                Some(child) => {
                    idx = child;
                },
                None => {
                    proof {
                        let w = upper_all(word@);
                        if self.words@.contains(w) {
                            let q = choose|q: int| 0 <= q < self.nodes@.len() && #[trigger] self.paths@[q] == w;
                            assert(w.take(i as int + 1).len() <= w.len());
                            let m = choose|m: int|
                                0 <= m < self.nodes@.len() && #[trigger] self.paths@[m] == #[trigger] self.paths@[q].take(i as int + 1);
                        }
                    }
                    return false;
                },
            }
            i += 1;
        }
        assert(upper_all(word@).take(n as int) =~= upper_all(word@));
        self.nodes[idx].is_terminal
    }

    /// A dictionary of `iter`'s words, which must come in lexicographic
    /// order.
    pub fn from_iter(iter: Vec<&str>) -> (r: Result<Dict, &'static str>)
        ensures
            r is Err <==> exists|i: int| 0 < i < iter@.len() && chars_lt(iter@[i]@, #[trigger] iter@[i - 1]@),
            r is Ok ==> r->Ok_0.wf() && forall|w: Seq<char>| #[trigger] r->Ok_0@.contains(w) <==> exists|i: int|
                0 <= i < iter@.len() && w == upper_all(#[trigger] iter@[i]@),
    {
        let mut dict = Dict::new();
        let start_node: NodeIndex = 0;
        let mut k: usize = 0;
        while k < iter.len()
            invariant
                dict.wf(),
                start_node == 0,
                dict.path_of(0) == Seq::<char>::empty(),
                k <= iter@.len(),
                forall|i: int| 0 < i < k ==> !chars_lt(iter@[i]@, #[trigger] iter@[i - 1]@),
                forall|w: Seq<char>| #[trigger] dict@.contains(w) <==> exists|i: int|
                    0 <= i < k && w == upper_all(#[trigger] iter@[i]@),
            decreases iter@.len() - k,
        {
            let word = iter[k];
            if k > 0 && lt_exec(word, iter[k - 1]) {
                return Err("Words not provided in lexiographical order.");
            }
            let ghost before = dict@;
            proof {
                dict.lemma_has_root();
            }
            let last_node = dict.insert(start_node, word);
            proof {
                assert(Seq::<char>::empty() + upper_all(word@) =~= upper_all(word@));
                assert forall|w: Seq<char>| #[trigger] dict@.contains(w) <==> exists|i: int|
                    0 <= i < k + 1 && w == upper_all(#[trigger] iter@[i]@) by {
                    if w == upper_all(word@) {
                        assert(w == upper_all(iter@[k as int]@));
                    }
                    if exists|i: int| 0 <= i < k + 1 && w == upper_all(#[trigger] iter@[i]@) {
                        let i = choose|i: int| 0 <= i < k + 1 && w == upper_all(#[trigger] iter@[i]@);
                        if i < k {
                            assert(before.contains(w));
                        }
                    }
                }
            }
            k += 1;
        }
        Ok(dict)
    }

    /// What is left of `to_cut` after the start it shares with `other`,
    /// where `other` is read as if followed by `?` without end.
    pub fn cut_off_matching_prefix(to_cut: &str, other: &str) -> (r: String)
        ensures
            r@ == to_cut@.skip(matched_len(to_cut@, other@, 0)),
    {
        let n = to_cut.unicode_len();
        let m = other.unicode_len();
        let mut i: usize = 0;
        while i < n && to_cut.get_char(i) == padded_char(other, i)
            invariant
                n == to_cut@.len(),
                m == other@.len(),
                i <= n,
                matched_len(to_cut@, other@, 0) == matched_len(to_cut@, other@, i as int),
            decreases n - i,
        {
            i += 1;
        }
        let mut rest: Vec<char> = Vec::new();
        let mut j: usize = i;
        while j < n
            invariant
                n == to_cut@.len(),
                i <= j <= n,
                rest@ =~= to_cut@.subrange(i as int, j as int),
            decreases n - j,
        {
            rest.push(to_cut.get_char(j));
            j += 1;
            assert(rest@ =~= to_cut@.subrange(i as int, j as int));
        }
        assert(to_cut@.subrange(i as int, n as int) =~= to_cut@.skip(i as int));
        string_of(&rest)
    }
}

} // verus!
