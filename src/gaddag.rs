use vstd::prelude::*;
use vstd::string::*;

verus! {

/// The byte that joins a reversed prefix to the rest of a word in a
/// generalized entry; no letter is encoded as this byte.
pub const SEP: u8 = 43;

/// An ASCII letter, in either case.
pub open spec fn is_letter(c: char) -> bool {
    (65 <= c as u32 && c as u32 <= 90) || (97 <= c as u32 && c as u32 <= 122)
}

/// The upper-case byte of a letter.
pub open spec fn letter_byte(c: char) -> u8 {
    if 97 <= c as u32 && c as u32 <= 122 {
        (c as u32 - 32) as u8
    } else {
        c as u32 as u8
    }
}

/// A word that the index can hold: non-empty, letters only.
pub open spec fn is_word(w: Seq<char>) -> bool {
    w.len() > 0 && forall|i: int| 0 <= i < w.len() ==> is_letter(#[trigger] w[i])
}

/// The case-normalized bytes of a word.
pub open spec fn word_key(w: Seq<char>) -> Seq<u8> {
    w.map_values(|c: char| letter_byte(c))
}

/// The generalized entry of a word's bytes `b` split after its first `k`
/// bytes: the first `k` bytes reversed, then the separator and the rest; for
/// `k` equal to the length, the whole word reversed with no separator.
pub open spec fn gaddag_form(b: Seq<u8>, k: int) -> Seq<u8> {
    if k >= b.len() {
        b.reverse()
    } else {
        b.take(k).reverse().push(SEP) + b.skip(k)
    }
}

/// Every generalized entry of the well-formed words of `ws`.
pub open spec fn index_keys(ws: Seq<Seq<char>>) -> Set<Seq<u8>> {
    Set::new(
        |e: Seq<u8>|
            exists|i: int, k: int|
                0 <= i < ws.len() && is_word(ws[i]) && 1 <= k <= ws[i].len() && e
                    == #[trigger] gaddag_form(word_key(ws[i]), k),
    )
}

/// Whether an index with entries `keys` accepts `w` as a word.
pub open spec fn accepts(keys: Set<Seq<u8>>, w: Seq<char>) -> bool {
    is_word(w) && keys.contains(word_key(w).reverse())
}

/// `p` can be walked from the start of an automaton with entries `keys`.
pub open spec fn on_path(keys: Set<Seq<u8>>, p: Seq<u8>) -> bool {
    p.len() == 0 || exists|k: Seq<u8>| keys.contains(k) && p.is_prefix_of(k)
}

/// Lexicographic order on byte strings.
pub open spec fn lex_le(a: Seq<u8>, b: Seq<u8>) -> bool
    decreases a.len(),
{
    if a.len() == 0 {
        true
    } else if b.len() == 0 {
        false
    } else if a[0] != b[0] {
        a[0] < b[0]
    } else {
        lex_le(a.drop_first(), b.drop_first())
    }
}

pub open spec fn lex_sorted(s: Seq<Seq<u8>>) -> bool {
    forall|i: int, j: int| 0 <= i < j < s.len() ==> lex_le(#[trigger] s[i], #[trigger] s[j])
}

pub open spec fn views_of(v: Seq<Vec<u8>>) -> Seq<Seq<u8>> {
    v.map_values(|k: Vec<u8>| k@)
}

pub open spec fn texts_of(v: Seq<String>) -> Seq<Seq<char>> {
    v.map_values(|s: String| s@)
}

#[verifier::external_type_specification]
#[verifier::external_body]
#[verifier::reject_recursive_types(D)]
pub struct ExFstSet<D>(fst::Set<D>);

#[verifier::external_type_specification]
#[verifier::external_body]
pub struct ExFstError(fst::Error);

/// Relies on the `Clone` that `fst::Set` derives; nothing is claimed of the copy.
pub assume_specification<D: Clone>[ <fst::Set<D> as Clone>::clone ](s: &fst::Set<D>) -> fst::Set<D>;

/// The keys held by an `fst::Set`.
pub uninterp spec fn fst_keys(s: fst::Set<Vec<u8>>) -> Set<Seq<u8>>;

/// The address of the node that walking `path` from the root of an
/// `fst::Set` reaches.
pub uninterp spec fn fst_addr(s: fst::Set<Vec<u8>>, path: Seq<u8>) -> usize;

/// The set was made by fst's builder, or read back from bytes that such a
/// set serialized to: the sets whose nodes can be read without panicking.
pub uninterp spec fn fst_built(s: fst::Set<Vec<u8>>) -> bool;

/// The serialized form of an `fst::Set`.
pub uninterp spec fn fst_bytes(s: fst::Set<Vec<u8>>) -> Seq<u8>;

/// Relies on `fst::Set::from_iter`: keys given in lexicographic order (ties
/// allowed) build a set of exactly those keys; only out-of-order keys fail.
#[verifier::external_body]
fn fst_from_sorted(keys: Vec<Vec<u8>>) -> (r: Result<fst::Set<Vec<u8>>, fst::Error>)
    requires
        lex_sorted(views_of(keys@)),
    ensures
        r is Ok,
        r is Ok ==> fst_keys(r->Ok_0) == views_of(keys@).to_set() && fst_built(r->Ok_0),
{
    fst::Set::from_iter(keys)
}

/// Relies on `slice::sort`: the keys end up in lexicographic order, the
/// same keys as before.
#[verifier::external_body]
fn sort_keys(v: &mut Vec<Vec<u8>>)
    ensures
        lex_sorted(views_of(final(v)@)),
        views_of(final(v)@).to_set() == views_of(old(v)@).to_set(),
{
    v.sort()
}

/// Relies on `fst::Set::new`: bytes that a built set serializes to give back
/// a set with the same keys. Of other bytes nothing is claimed: fst reads
/// only their header here, and may panic on them later.
#[verifier::external_body]
fn fst_from_bytes(bytes: Vec<u8>) -> (r: Result<fst::Set<Vec<u8>>, fst::Error>)
    ensures
        forall|s: fst::Set<Vec<u8>>|
            fst_built(s) && #[trigger] fst_bytes(s) == bytes@ ==> (r is Ok && fst_keys(r->Ok_0)
                == fst_keys(s) && fst_built(r->Ok_0)),
{
    fst::Set::new(bytes)
}

/// Relies on `fst::raw::Fst::as_bytes`: the serialized form of the set.
#[verifier::external_body]
fn fst_as_bytes(s: &fst::Set<Vec<u8>>) -> (r: &[u8])
    ensures
        r@ == fst_bytes(*s),
{
    s.as_fst().as_bytes()
}

/// Relies on `fst::Set::contains`: membership of a key.
#[verifier::external_body]
fn fst_contains(s: &fst::Set<Vec<u8>>, key: &Vec<u8>) -> (r: bool)
    requires
        fst_built(*s),
    ensures
        r == fst_keys(*s).contains(key@),
{
    s.contains(key)
}

/// Relies on `fst::raw::Fst::root` and `fst::raw::Node::addr`: the address
/// of the node that the empty path reaches.
#[verifier::external_body]
fn fst_root(s: &fst::Set<Vec<u8>>) -> (r: usize)
    requires
        fst_built(*s),
    ensures
        r == fst_addr(*s, Seq::empty()),
{
    s.as_fst().root().addr()
}

/// Relies on `fst::raw::Fst::node`, `fst::raw::Node::find_input` and
/// `fst::raw::Node::transition_addr`: from the node of a path, the byte `b`
/// leads on exactly when the path extended by `b` begins some key, and then
/// to the node of that longer path.
#[verifier::external_body]
fn fst_step(s: &fst::Set<Vec<u8>>, addr: usize, b: u8) -> (r: Option<usize>)
    requires
        fst_built(*s),
        exists|p: Seq<u8>| on_path(fst_keys(*s), p) && fst_addr(*s, p) == addr,
    ensures
        forall|p: Seq<u8>|
            on_path(fst_keys(*s), p) && #[trigger] fst_addr(*s, p) == addr ==> (r is Some
                <==> on_path(fst_keys(*s), p.push(b))) && (r is Some ==> r->0 == fst_addr(*s, p.push(b))),
{
    let node = s.as_fst().node(addr);
    node.find_input(b).map(|i| node.transition_addr(i))
}

/// Relies on `fst::raw::Fst::node` and `fst::raw::Node::is_final`: the node
/// of a path is final exactly when the path is a key.
#[verifier::external_body]
fn fst_is_final(s: &fst::Set<Vec<u8>>, addr: usize) -> (r: bool)
    requires
        fst_built(*s),
        exists|p: Seq<u8>| on_path(fst_keys(*s), p) && fst_addr(*s, p) == addr,
    ensures
        forall|p: Seq<u8>|
            on_path(fst_keys(*s), p) && #[trigger] fst_addr(*s, p) == addr ==> (r
                <==> fst_keys(*s).contains(p)),
{
    s.as_fst().node(addr).is_final()
}

/// The entries of the words before `ws[n]`, and those of `ws[n]` split
/// before position `m`.
spec fn forms_upto(ws: Seq<Seq<char>>, n: int, m: int) -> Set<Seq<u8>> {
    Set::new(
        |e: Seq<u8>|
            exists|i: int, k: int|
                0 <= i <= n && i < ws.len() && is_word(ws[i]) && 1 <= k <= ws[i].len() && (i < n
                    || k < m) && e == #[trigger] gaddag_form(word_key(ws[i]), k),
    )
}

pub fn is_letter_exec(c: char) -> (r: bool)
    ensures
        r == is_letter(c),
{
    let u = c as u32;
    (65 <= u && u <= 90) || (97 <= u && u <= 122)
}

pub fn letter_byte_exec(c: char) -> (r: u8)
    requires
        is_letter(c),
    ensures
        r == letter_byte(c),
{
    let u = c as u32;
    if 97 <= u && u <= 122 {
        (u - 32) as u8
    } else {
        u as u8
    }
}

/// The case-normalized bytes of `w`, or `None` where `w` is not a word.
fn key_of(w: &str) -> (r: Option<Vec<u8>>)
    ensures
        r is Some <==> is_word(w@),
        r is Some ==> r->0@ == word_key(w@),
{
    let n = w.unicode_len();
    if n == 0 {
        return None;
    }
    let mut out: Vec<u8> = Vec::new();
    let mut i: usize = 0;
    while i < n
        invariant
            n == w@.len(),
            i <= n,
            out@ == word_key(w@).take(i as int),
            forall|j: int| 0 <= j < i ==> is_letter(#[trigger] w@[j]),
        decreases n - i,
    {
        let c = w.get_char(i);
        if !is_letter_exec(c) {
            return None;
        }
        out.push(letter_byte_exec(c));
        i += 1;
        assert(out@ =~= word_key(w@).take(i as int));
    }
    assert(out@ =~= word_key(w@));
    Some(out)
}

/// The case-normalized bytes of the letters `w`, or `None` where they are
/// not a word.
fn key_of_chars(w: &Vec<char>) -> (r: Option<Vec<u8>>)
    ensures
        r is Some <==> is_word(w@),
        r is Some ==> r->0@ == word_key(w@),
{
    let n = w.len();
    if n == 0 {
        return None;
    }
    let mut out: Vec<u8> = Vec::new();
    let mut i: usize = 0;
    while i < n
        invariant
            n == w@.len(),
            i <= n,
            out@ == word_key(w@).take(i as int),
            forall|j: int| 0 <= j < i ==> is_letter(#[trigger] w@[j]),
        decreases n - i,
    {
        let c = w[i];
        if !is_letter_exec(c) {
            return None;
        }
        out.push(letter_byte_exec(c));
        i += 1;
        assert(out@ =~= word_key(w@).take(i as int));
    }
    assert(out@ =~= word_key(w@));
    Some(out)
}

/// The generalized entry of `key` split after its first `k` bytes.
fn form_of(key: &Vec<u8>, k: usize) -> (r: Vec<u8>)
    requires
        1 <= k <= key@.len(),
    ensures
        r@ == gaddag_form(key@, k as int),
{
    let mut out: Vec<u8> = Vec::new();
    let mut i: usize = k;
    while i > 0
        invariant
            i <= k <= key@.len(),
            out@ == key@.subrange(i as int, k as int).reverse(),
        decreases i,
    {
        out.push(key[i - 1]);
        i -= 1;
        assert(out@ =~= key@.subrange(i as int, k as int).reverse());
    }
    assert(key@.subrange(0, k as int) =~= key@.take(k as int));
    if k == key.len() {
        assert(key@.take(k as int) =~= key@);
        return out;
    }
    out.push(SEP);
    let ghost head = out@;
    let mut j: usize = k;
    while j < key.len()
        invariant
            k <= j <= key@.len(),
            head == key@.take(k as int).reverse().push(SEP),
            out@ == head + key@.subrange(k as int, j as int),
        decreases key@.len() - j,
    {
        out.push(key[j]);
        j += 1;
        assert(out@ =~= head + key@.subrange(k as int, j as int));
    }
    assert(key@.subrange(k as int, j as int) =~= key@.skip(k as int));
    out
}

/// Every generalized entry of every well-formed word of `words`.
fn build_entries(words: &Vec<String>) -> (r: Vec<Vec<u8>>)
    ensures
        views_of(r@).to_set() == index_keys(texts_of(words@)),
{
    let ghost ws = texts_of(words@);
    let mut out: Vec<Vec<u8>> = Vec::new();
    let mut i: usize = 0;
    assert(views_of(out@).to_set() =~= forms_upto(ws, 0, 1));
    while i < words.len()
        invariant
            ws == texts_of(words@),
            i <= words@.len(),
            views_of(out@).to_set() == forms_upto(ws, i as int, 1),
        decreases words@.len() - i,
    {
        let w = words[i].as_str();
        assert(w@ == ws[i as int]);
        match key_of(w) {
            None => {
                assert(forms_upto(ws, i as int, 1) =~= forms_upto(ws, i as int + 1, 1));
            },
            Some(key) => {
                let mut k: usize = 0;
                while k < key.len()
                    invariant
                        ws == texts_of(words@),
                        i < words@.len(),
                        is_word(ws[i as int]),
                        key@ == word_key(ws[i as int]),
                        key@.len() == ws[i as int].len(),
                        k <= key@.len(),
                        views_of(out@).to_set() == forms_upto(ws, i as int, k as int + 1),
                    decreases key@.len() - k,
                {
                    let e = form_of(&key, k + 1);
                    proof {
                        out@.lemma_push_map_commute(|v: Vec<u8>| v@, e);
                        views_of(out@).lemma_push_to_set_commute(e@);
                        assert(forms_upto(ws, i as int, k as int + 2) =~= forms_upto(
                            ws,
                            i as int,
                            k as int + 1,
                        ).insert(e@));
                    }
                    out.push(e);
                    k += 1;
                }
                assert(forms_upto(ws, i as int, k as int + 1) =~= forms_upto(ws, i as int + 1, 1));
            },
        }
        i += 1;
    }
    assert(forms_upto(ws, i as int, 1) =~= index_keys(ws));
    out
}

/// A node of the index: where a walk along some path from the start stops.
#[derive(Clone, Copy)]
pub struct Node {
    addr: usize,
    path: Ghost<Seq<u8>>,
}

impl View for Node {
    type V = Seq<u8>;

    /// The bytes walked from the start to reach this node.
    closed spec fn view(&self) -> Seq<u8> {
        self.path@
    }
}

/// A GADDAG: every word is stored in each of its generalized forms, so that
/// a walk can start at any letter of it.
#[derive(Clone)]
pub struct Gaddag {
    set: fst::Set<Vec<u8>>,
}

impl View for Gaddag {
    type V = Set<Seq<u8>>;

    /// The generalized entries held.
    closed spec fn view(&self) -> Set<Seq<u8>> {
        fst_keys(self.set)
    }
}

impl Gaddag {
    /// The set under this index can be read: it was built here or read back
    /// from bytes that a built index serialized to.
    pub closed spec fn wf(&self) -> bool {
        fst_built(self.set)
    }

    /// `n` was reached by walking its path from the start of this index.
    pub closed spec fn node_ok(&self, n: &Node) -> bool {
        on_path(self@, n@) && n.addr == fst_addr(self.set, n@)
    }

    /// The serialized form of this index.
    pub closed spec fn bytes(&self) -> Seq<u8> {
        fst_bytes(self.set)
    }

    /// Whether `w` is one of the words of this index.
    pub fn contains(&self, input: &str) -> (r: bool)
        requires
            self.wf(),
        ensures
            r == accepts(self@, input@),
    {
        match key_of(input) {
            None => false,
            Some(key) => {
                let rev = reversed(&key);
                fst_contains(&self.set, &rev)
            },
        }
    }

    /// Whether the letters of `w` spell one of the words of this index.
    pub fn contains_chars(&self, w: &Vec<char>) -> (r: bool)
        requires
            self.wf(),
        ensures
            r == accepts(self@, w@),
    {
        match key_of_chars(w) {
            None => false,
            Some(key) => {
                let rev = reversed(&key);
                fst_contains(&self.set, &rev)
            },
        }
    }

    /// The start node: the empty path.
    pub fn root(&self) -> (r: Node)
        requires
            self.wf(),
        ensures
            self.node_ok(&r),
            r@ == Seq::<u8>::empty(),
    {
        Node { addr: fst_root(&self.set), path: Ghost(Seq::empty()) }
    }

    /// An index over the entries of an `fst::Set`.
    pub fn from_fst(set: fst::Set<Vec<u8>>) -> (r: Gaddag)
        ensures
            r@ == fst_keys(set),
            r.wf() == fst_built(set),
    {
        Gaddag { set }
    }

    /// Builds an index from its serialized form, as `as_bytes` gives it.
    /// Only the header of the bytes is checked here: bytes that no index
    /// serialized to are refused or give an index whose walks may fail.
    pub fn from_bytes(bytes: Vec<u8>) -> (r: Result<Gaddag, fst::Error>)
        ensures
            restores(bytes@, r),
    {
        match fst_from_bytes(bytes) {
            Ok(set) => Ok(Gaddag { set }),
            Err(e) => Err(e),
        }
    }

    /// Builds an index holding every generalized form of every word of
    /// `input`; words that are empty or hold a character that is no ASCII
    /// letter are skipped, and case is ignored.
    pub fn from_words(input: Vec<String>) -> (r: Gaddag)
        ensures
            r.wf(),
            r@ == index_keys(texts_of(input@)),
    {
        let mut entries = build_entries(&input);
        sort_keys(&mut entries);
        let set = fst_from_sorted(entries).unwrap();
        Gaddag { set }
    }

    /// The serialized form of this index.
    pub fn as_bytes(&self) -> (r: &[u8])
        ensures
            r@ == self.bytes(),
    {
        fst_as_bytes(&self.set)
    }

    /// The node reached by walking `prefix` from the start, if every
    /// character of it leads on.
    pub fn node_for_prefix(&self, prefix: &str) -> (r: Option<Node>)
        requires
            self.wf(),
        ensures
            r is Some <==> walkable(prefix@) && on_path(self@, walk_bytes(prefix@)),
            r is Some ==> self.node_ok(&r->0) && r->0@ == walk_bytes(prefix@),
    {
        let n = prefix.unicode_len();
        let mut node = self.root();
        let mut i: usize = 0;
        while i < n
            invariant
                self.wf(),
                n == prefix@.len(),
                i <= n,
                self.node_ok(&node),
                walkable(prefix@.take(i as int)),
                node@ == walk_bytes(prefix@.take(i as int)),
            decreases n - i,
        {
            let c = prefix.get_char(i);
            proof {
                lemma_walk_take_succ(prefix@, i as int);
            }
            match self.next_node(&node, c) {
                Some(next) => {
                    node = next;
                },
                None => {
                    proof {
                        lemma_walk_extends(self@, prefix@, i as int);
                    }
                    return None;
                },
            }
            i += 1;
        }
        assert(prefix@.take(n as int) =~= prefix@);
        Some(node)
    }

    /// Follows the edge labelled `next` out of `node`.
    pub fn next_node(&self, node: &Node, next: char) -> (r: Option<Node>)
        requires
            self.wf(),
            self.node_ok(node),
        ensures
            r is Some <==> is_walk_char(next) && on_path(self@, node@.push(walk_byte(next))),
            r is Some ==> self.node_ok(&r->0) && r->0@ == node@.push(walk_byte(next)),
    {
        if !is_walk_char_exec(next) {
            return None;
        }
        let b = walk_byte_exec(next);
        proof {
            assert(on_path(fst_keys(self.set), node.path@) && fst_addr(self.set, node.path@)
                == node.addr);
        }
        match fst_step(&self.set, node.addr, b) {
            Some(a) => Some(Node { addr: a, path: Ghost(node.path@.push(b)) }),
            None => None,
        }
    }

    /// Whether `node` ends a generalized entry.
    pub fn is_final(&self, node: &Node) -> (r: bool)
        requires
            self.wf(),
            self.node_ok(node),
        ensures
            r == self@.contains(node@),
    {
        proof {
            assert(on_path(fst_keys(self.set), node.path@) && fst_addr(self.set, node.path@)
                == node.addr);
        }
        fst_is_final(&self.set, node.addr)
    }
}

/// A character that a walk can follow: an ASCII character, read as its
/// byte, as given (the separator is `+`).
pub open spec fn is_walk_char(c: char) -> bool {
    (c as u32) < 128
}

/// The byte a walk follows for `c`.
pub open spec fn walk_byte(c: char) -> u8 {
    c as u32 as u8
}

pub open spec fn walkable(s: Seq<char>) -> bool {
    forall|i: int| 0 <= i < s.len() ==> is_walk_char(#[trigger] s[i])
}

pub open spec fn walk_bytes(s: Seq<char>) -> Seq<u8> {
    s.map_values(|c: char| walk_byte(c))
}

fn is_walk_char_exec(c: char) -> (r: bool)
    ensures
        r == is_walk_char(c),
{
    (c as u32) < 128
}

fn walk_byte_exec(c: char) -> (r: u8)
    requires
        is_walk_char(c),
    ensures
        r == walk_byte(c),
{
    c as u32 as u8
}

fn reversed(v: &Vec<u8>) -> (r: Vec<u8>)
    ensures
        r@ == v@.reverse(),
{
    let mut out: Vec<u8> = Vec::new();
    let mut i: usize = v.len();
    while i > 0
        invariant
            i <= v@.len(),
            out@ == v@.skip(i as int).reverse(),
        decreases i,
    {
        out.push(v[i - 1]);
        i -= 1;
        assert(out@ =~= v@.skip(i as int).reverse());
    }
    assert(v@.skip(0) =~= v@);
    out
}

proof fn lemma_walk_take_succ(s: Seq<char>, i: int)
    requires
        0 <= i < s.len(),
    ensures
        walk_bytes(s.take(i + 1)) == walk_bytes(s.take(i)).push(walk_byte(s[i])),
        walkable(s.take(i)) && is_walk_char(s[i]) ==> walkable(s.take(i + 1)),
{
    assert(walk_bytes(s.take(i + 1)) =~= walk_bytes(s.take(i)).push(walk_byte(s[i])));
    if walkable(s.take(i)) && is_walk_char(s[i]) {
        assert forall|j: int| 0 <= j < s.take(i + 1).len() implies is_walk_char(
            #[trigger] s.take(i + 1)[j],
        ) by {
            if j < i {
                assert(s.take(i + 1)[j] == s.take(i)[j]);
            }
        }
    }
}

/// A walk that is blocked after `i` characters is blocked for the whole text.
proof fn lemma_walk_extends(keys: Set<Seq<u8>>, s: Seq<char>, i: int)
    requires
        0 <= i < s.len(),
        !(is_walk_char(s[i]) && on_path(keys, walk_bytes(s.take(i)).push(walk_byte(s[i])))),
        walk_bytes(s.take(i + 1)) == walk_bytes(s.take(i)).push(walk_byte(s[i])),
    ensures
        !(walkable(s) && on_path(keys, walk_bytes(s))),
{
    if walkable(s) && on_path(keys, walk_bytes(s)) {
        let p = walk_bytes(s.take(i + 1));
        let k = choose|k: Seq<u8>| keys.contains(k) && walk_bytes(s).is_prefix_of(k);
        assert(p.is_prefix_of(k)) by {
            assert forall|j: int| 0 <= j < p.len() implies p[j] == k[j] by {
                assert(p[j] == walk_bytes(s)[j]);
            }
        }
        assert(is_walk_char(s[i]));
        assert(on_path(keys, p));
    }
}

/// `r`, built from `bytes`, is readable and holds the entries of every
/// readable index that serializes to `bytes`.
pub open spec fn restores(bytes: Seq<u8>, r: Result<Gaddag, fst::Error>) -> bool {
    forall|g: Gaddag| g.wf() && #[trigger] g.bytes() == bytes ==> (r is Ok && r->Ok_0@ == g@ && r->Ok_0.wf())
}

proof fn lemma_key_has_no_sep(w: Seq<char>, j: int)
    requires
        is_word(w),
        0 <= j < w.len(),
    ensures
        word_key(w)[j] != SEP,
        word_key(w).len() == w.len(),
{
    assert(is_letter(w[j]));
}

/// An index built from a word list accepts exactly the well-formed words
/// whose case-normalized letters are those of a word of the list.
pub proof fn lemma_accepts_exactly_the_words(ws: Seq<Seq<char>>, w: Seq<char>)
    ensures
        accepts(index_keys(ws), w) <==> is_word(w) && exists|i: int|
            0 <= i < ws.len() && is_word(ws[i]) && #[trigger] word_key(ws[i]) == word_key(w),
{
    let keys = index_keys(ws);
    let b = word_key(w);
    if is_word(w) && exists|i: int|
        0 <= i < ws.len() && is_word(ws[i]) && #[trigger] word_key(ws[i]) == word_key(w) {
        let i = choose|i: int|
            0 <= i < ws.len() && is_word(ws[i]) && #[trigger] word_key(ws[i]) == word_key(w);
        assert(keys.contains(gaddag_form(word_key(ws[i]), ws[i].len() as int)));
    }
    if accepts(keys, w) {
        let (i, k) = choose|i: int, k: int|
            0 <= i < ws.len() && is_word(ws[i]) && 1 <= k <= ws[i].len() && b.reverse()
                == #[trigger] gaddag_form(word_key(ws[i]), k);
        let c = word_key(ws[i]);
        lemma_key_has_no_sep(ws[i], 0);
        lemma_key_has_no_sep(w, 0);
        if k < c.len() {
            assert(gaddag_form(c, k).len() == c.len() + 1);
            assert(b.len() == c.len() + 1);
            lemma_key_has_no_sep(w, b.len() - 1 - k);
            assert(gaddag_form(c, k)[k] == SEP);
            assert(b.reverse()[k] == b[b.len() - 1 - k]);
        }
        assert(b.reverse() == c.reverse());
        assert(b =~= b.reverse().reverse());
        assert(c =~= c.reverse().reverse());
    }
}

/// Every generalized form of every well-formed word of the list is held.
pub proof fn lemma_every_form_held(ws: Seq<Seq<char>>, i: int, k: int)
    requires
        0 <= i < ws.len(),
        is_word(ws[i]),
        1 <= k <= ws[i].len(),
    ensures
        index_keys(ws).contains(gaddag_form(word_key(ws[i]), k)),
{
}

/// Restoring an index from its serialized form gives an index that accepts
/// the same words.
pub proof fn lemma_round_trip(g: Gaddag, r: Result<Gaddag, fst::Error>, w: Seq<char>)
    requires
        g.wf(),
        restores(g.bytes(), r),
    ensures
        r is Ok,
        r->Ok_0.wf(),
        accepts(r->Ok_0@, w) == accepts(g@, w),
{
}

} // verus!
