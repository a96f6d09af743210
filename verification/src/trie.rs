//! Generic trie data structure for dictionary management.

use std::collections::HashMap;
use vstd::prelude::*;
use crate::bytes::is_prefix_of;

verus! {

/// A node in the trie.
#[derive(Debug)]
pub struct TrieNode {
    /// Children indexed by byte value.
    children: HashMap<u8, TrieNode>,
    /// Optional code/value associated with this node.
    code: Option<u16>,
    /// Whether this node represents a complete entry.
    is_terminal: bool,
}

impl TrieNode {
    /// The children of this node, by byte.
    pub closed spec fn spec_children(&self) -> Map<u8, TrieNode> {
        self.children@
    }

    /// The code stored at this node.
    pub closed spec fn spec_code(&self) -> Option<u16> {
        self.code
    }

    /// Whether this node was marked as a complete entry.
    pub closed spec fn spec_terminal(&self) -> bool {
        self.is_terminal
    }

    /// A node with no children, no code, not terminal.
    pub open spec fn is_fresh(&self) -> bool {
        &&& self.spec_children() == Map::<u8, TrieNode>::empty()
        &&& self.spec_code() is None
        &&& !self.spec_terminal()
    }

    /// A node has finitely many children.
    pub proof fn lemma_children_finite(&self)
        ensures
            self.spec_children().dom().finite(),
    {
    }

    /// Create a new empty trie node.
    pub fn new() -> (n: Self)
        ensures
            n.is_fresh(),
    {
        TrieNode { children: HashMap::new(), code: None, is_terminal: false }
    }

    /// Get a child node by byte key.
    pub fn get_child(&self, key: u8) -> (r: Option<&TrieNode>)
        ensures
            r matches Some(c) ==> self.spec_children().contains_key(key) && *c
                == self.spec_children()[key],
            r is None ==> !self.spec_children().contains_key(key),
    {
        self.children.get(&key)
    }

    /// Get a mutable child by byte key, creating if needed.
    pub fn get_or_create_child(&mut self, key: u8) -> (r: &mut TrieNode)
        ensures
            old(self).spec_children().contains_key(key) ==> *r == old(self).spec_children()[key],
            !old(self).spec_children().contains_key(key) ==> r.is_fresh(),
            final(self).spec_children() == old(self).spec_children().insert(key, *final(r)),
            final(self).spec_children().len() == old(self).spec_children().len() + (if old(
                self,
            ).spec_children().contains_key(key) {
                0int
            } else {
                1int
            }),
            final(self).spec_code() == old(self).spec_code(),
            final(self).spec_terminal() == old(self).spec_terminal(),
    {
        self.children.entry(key).or_insert(TrieNode::new())
    }

    /// Set the code for this node.
    pub fn set_code(&mut self, code: u16)
        ensures
            final(self).spec_children() == old(self).spec_children(),
            final(self).spec_code() == Some(code),
            final(self).spec_terminal(),
    {
        self.code = Some(code);
        self.is_terminal = true;
    }

    /// Get the code for this node.
    pub fn code(&self) -> (r: Option<u16>)
        ensures
            r == self.spec_code(),
    {
        self.code
    }

    /// Whether this is a terminal node.
    pub fn is_terminal(&self) -> (r: bool)
        ensures
            r == self.spec_terminal(),
    {
        self.is_terminal
    }

    /// Number of children.
    pub fn child_count(&self) -> (r: usize)
        ensures
            r == self.spec_children().len(),
    {
        self.children.len()
    }
}

/// The code and terminal flag of the node at `q` below `n`, if it exists.
pub open spec fn info_at(n: TrieNode, q: Seq<u8>) -> Option<(Option<u16>, bool)> {
    match node_at(n, q) {
        Some(m) => Some((m.spec_code(), m.spec_terminal())),
        None => None,
    }
}

/// Two nodes hold the same subtrie: the same paths lead to nodes, with the
/// same codes and terminal flags.
pub open spec fn same_contents(a: TrieNode, b: TrieNode) -> bool {
    forall|q: Seq<u8>| #[trigger] info_at(a, q) == info_at(b, q)
}

impl Clone for TrieNode {
    /// A deep copy of the node and everything below it.
    fn clone(&self) -> (r: Self)
        ensures
            same_contents(r, *self),
        decreases self,
    {
        let mut children: HashMap<u8, TrieNode> = HashMap::new();
        let mut b: u16 = 0;
        while b < 256
            invariant
                b <= 256,
                forall|c: u8|
                    #[trigger] children@.contains_key(c) <==> ((c as int) < b
                        && self.spec_children().contains_key(c)),
                forall|c: u8|
                    #[trigger] children@.contains_key(c) ==> same_contents(
                        children@[c],
                        self.spec_children()[c],
                    ),
            decreases 256 - b,
        {
            let byte = b as u8;
            if let Some(child) = self.children.get(&byte) {
                proof {
                    assert(decreases_to!(self => child)) by {
                        assert(decreases_to!(self => self.children));
                        assert(decreases_to!(self.children => self.children@));
                        assert(decreases_to!(self.children@ => self.children@[byte]));
                    }
                }
                let copy = child.clone();
                children.insert(byte, copy);
            }
            b += 1;
        }
        let r = TrieNode { children, code: self.code, is_terminal: self.is_terminal };
        proof {
            assert forall|q: Seq<u8>| #[trigger] info_at(r, q) == info_at(*self, q) by {
                if q.len() > 0 {
                    let c = q[0];
                    if self.spec_children().contains_key(c) {
                        assert(same_contents(children@[c], self.spec_children()[c]));
                        assert(info_at(children@[c], q.drop_first()) == info_at(
                            self.spec_children()[c],
                            q.drop_first(),
                        ));
                    }
                }
            }
        }
        r
    }
}

impl Default for TrieNode {
    fn default() -> (n: Self)
        ensures
            n.is_fresh(),
    {
        Self::new()
    }
}

/// The node reached from `node` by following the bytes of `path`.
pub open spec fn node_at(node: TrieNode, path: Seq<u8>) -> Option<TrieNode>
    decreases path.len(),
{
    if path.len() == 0 {
        Some(node)
    } else if node.spec_children().contains_key(path[0]) {
        node_at(node.spec_children()[path[0]], path.drop_first())
    } else {
        None
    }
}

/// Whether a node exists at `path` below `node` (outer `Some`) and the code
/// it carries (inner option).
pub open spec fn code_at(node: TrieNode, path: Seq<u8>) -> Option<Option<u16>> {
    match node_at(node, path) {
        Some(n) => Some(n.spec_code()),
        None => None,
    }
}

/// The contents at `q` after every node along `path` has been created:
/// existing nodes keep their code, new nodes carry none.
pub open spec fn extended(node: TrieNode, path: Seq<u8>, q: Seq<u8>) -> Option<Option<u16>> {
    match code_at(node, q) {
        Some(c) => Some(c),
        None => if is_prefix_of(q, path) {
            Some(None)
        } else {
            None
        },
    }
}

/// Below a fresh node only the node itself exists, without a code.
pub proof fn lemma_fresh_code_at(n: TrieNode, q: Seq<u8>)
    requires
        n.is_fresh(),
    ensures
        code_at(n, q) == (if q.len() == 0 {
            Some(None::<u16>)
        } else {
            None
        }),
{
}

/// Prefixes and equality of a sequence that starts with a given byte.
proof fn lemma_cons(b: u8, p: Seq<u8>, q: Seq<u8>)
    requires
        q.len() > 0,
    ensures
        is_prefix_of(q, seq![b] + p) <==> (q[0] == b && is_prefix_of(q.drop_first(), p)),
        q == seq![b] + p <==> (q[0] == b && q.drop_first() == p),
{
    let bp = seq![b] + p;
    if is_prefix_of(q, bp) {
        assert(bp.subrange(0, q.len() as int)[0] == bp[0]);
        assert(p.subrange(0, q.len() - 1) =~= bp.subrange(0, q.len() as int).drop_first());
    }
    if q[0] == b && is_prefix_of(q.drop_first(), p) {
        assert forall|j: int| 0 <= j < q.len() implies bp.subrange(0, q.len() as int)[j] == q[j] by {
            if j > 0 {
                assert(p.subrange(0, q.len() - 1)[j - 1] == q.drop_first()[j - 1]);
            }
        }
        assert(bp.subrange(0, q.len() as int) =~= q);
    }
    if q[0] == b && q.drop_first() == p {
        assert(q =~= bp);
    }
    if q == bp {
        assert(q.drop_first() =~= p);
    }
}

/// One level of creating the path `b + p`: when the child at `b` changed
/// as creating `p` below it prescribes, the node changed as creating `b + p`
/// prescribes.
proof fn lemma_create_step(
    old_n: TrieNode,
    new_n: TrieNode,
    b: u8,
    old_child: TrieNode,
    new_child: TrieNode,
    p: Seq<u8>,
    assigned: bool,
    fresh: Option<u16>,
)
    requires
        new_n.spec_children() == old_n.spec_children().insert(b, new_child),
        new_n.spec_code() == old_n.spec_code(),
        old_n.spec_children().contains_key(b) ==> old_child == old_n.spec_children()[b],
        !old_n.spec_children().contains_key(b) ==> old_child.is_fresh(),
        forall|q: Seq<u8>| #[trigger]
            code_at(new_child, q) == (if assigned && q == p {
                Some(fresh)
            } else {
                extended(old_child, p, q)
            }),
    ensures
        forall|q: Seq<u8>| #[trigger]
            code_at(new_n, q) == (if assigned && q == seq![b] + p {
                Some(fresh)
            } else {
                extended(old_n, seq![b] + p, q)
            }),
{
    let bp = seq![b] + p;
    assert forall|q: Seq<u8>| #[trigger]
        code_at(new_n, q) == (if assigned && q == bp {
            Some(fresh)
        } else {
            extended(old_n, bp, q)
        }) by {
        if q.len() == 0 {
            assert(q != bp);
            assert(bp.subrange(0, 0) =~= q);
        } else {
            lemma_cons(b, p, q);
            let q1 = q.drop_first();
            if q[0] == b {
                assert(code_at(new_n, q) == code_at(new_child, q1));
                assert(code_at(new_child, q1) == (if assigned && q1 == p {
                    Some(fresh)
                } else {
                    extended(old_child, p, q1)
                }));
                if q1.len() == 0 {
                    assert(p.subrange(0, 0) =~= q1);
                }
                if old_n.spec_children().contains_key(b) {
                    assert(code_at(old_n, q) == code_at(old_child, q1));
                } else {
                    lemma_fresh_code_at(old_child, q1);
                    assert(code_at(old_n, q) is None);
                }
            } else {
                assert(code_at(new_n, q) == code_at(old_n, q));
            }
        }
    }
}

/// Whether the node at `q` below `n`, if any, is terminal exactly when it
/// carries a code.
pub open spec fn node_flags_ok(n: TrieNode, q: Seq<u8>) -> bool {
    match node_at(n, q) {
        Some(m) => m.spec_terminal() == (m.spec_code() is Some),
        None => true,
    }
}

/// Every node below `n` (and `n` itself) is terminal exactly when it carries a code.
pub open spec fn flags_consistent(n: TrieNode) -> bool {
    forall|q: Seq<u8>| #[trigger] node_flags_ok(n, q)
}

/// A fresh node has consistent flags.
pub proof fn lemma_fresh_consistent(n: TrieNode)
    requires
        n.is_fresh(),
    ensures
        flags_consistent(n),
{
    assert forall|q: Seq<u8>| #[trigger] node_flags_ok(n, q) by {
        lemma_fresh_code_at(n, q);
    }
}

/// The children of a node with consistent flags have consistent flags.
pub proof fn lemma_consistent_child(n: TrieNode, b: u8)
    requires
        flags_consistent(n),
        n.spec_children().contains_key(b),
    ensures
        flags_consistent(n.spec_children()[b]),
{
    let child = n.spec_children()[b];
    assert forall|q: Seq<u8>| #[trigger] node_flags_ok(child, q) by {
        let bq = seq![b] + q;
        assert(bq[0] == b);
        assert(bq.drop_first() =~= q);
        assert(node_flags_ok(n, bq));
    }
}

/// Replacing one child by a node with consistent flags keeps the flags of a
/// node with consistent flags consistent (what `get_or_create_child` does,
/// once the child it handed out is consistent again).
pub proof fn lemma_consistent_step(old_n: TrieNode, new_n: TrieNode, b: u8, new_child: TrieNode)
    requires
        flags_consistent(old_n),
        flags_consistent(new_child),
        new_n.spec_children() == old_n.spec_children().insert(b, new_child),
        new_n.spec_code() == old_n.spec_code(),
        new_n.spec_terminal() == old_n.spec_terminal(),
    ensures
        flags_consistent(new_n),
{
    assert forall|q: Seq<u8>| #[trigger] node_flags_ok(new_n, q) by {
        assert(node_flags_ok(old_n, q));
        if q.len() > 0 {
            if q[0] == b {
                assert(node_flags_ok(new_child, q.drop_first()));
            }
        }
    }
}

/// Storing a code at a node with consistent flags (what `set_code` does)
/// keeps its flags consistent.
pub proof fn lemma_set_code_consistent(old_n: TrieNode, new_n: TrieNode)
    requires
        flags_consistent(old_n),
        new_n.spec_children() == old_n.spec_children(),
        new_n.spec_code() is Some,
        new_n.spec_terminal(),
    ensures
        flags_consistent(new_n),
{
    assert forall|q: Seq<u8>| #[trigger] node_flags_ok(new_n, q) by {
        if q.len() > 0 {
            assert(node_flags_ok(old_n, q));
        }
    }
}

/// Walk `seq[i..]` from `node`, creating missing children. At the end node,
/// give back its code when it has one; otherwise store `fresh` there, if any.
/// The flag tells whether `fresh` was stored.
fn walk_create(node: &mut TrieNode, seq: &[u8], i: usize, fresh: Option<u16>) -> (r: (
    Option<u16>,
    bool,
))
    requires
        i <= seq@.len(),
        flags_consistent(*old(node)),
    ensures
        flags_consistent(*final(node)),
        r == (match code_at(*old(node), seq@.skip(i as int)) {
            Some(Some(c)) => (Some(c), false),
            _ => (fresh, fresh is Some),
        }),
        forall|q: Seq<u8>| #[trigger]
            code_at(*final(node), q) == (if r.1 && q == seq@.skip(i as int) {
                Some(fresh)
            } else {
                extended(*old(node), seq@.skip(i as int), q)
            }),
    decreases seq.len() - i,
{
    let ghost old_node = *node;
    let ghost p = seq@.skip(i as int);
    if i == seq.len() {
        proof {
            assert(p.len() == 0);
        }
        if let Some(c) = node.code() {
            proof {
                assert forall|q: Seq<u8>| #[trigger]
                    code_at(*node, q) == extended(old_node, p, q) by {
                    if q.len() == 0 {
                        assert(p.subrange(0, 0) =~= q);
                    }
                }
            }
            return (Some(c), false);
        }
        match fresh {
            Some(c) => {
                node.set_code(c);
                proof {
                    assert forall|q: Seq<u8>| #[trigger] node_flags_ok(*node, q) by {
                        if q.len() > 0 {
                            assert(node_flags_ok(old_node, q));
                        }
                    }
                    assert forall|q: Seq<u8>| #[trigger]
                        code_at(*node, q) == (if q == p {
                            Some(fresh)
                        } else {
                            extended(old_node, p, q)
                        }) by {
                        if q.len() == 0 {
                            assert(q =~= p);
                        } else {
                            assert(q != p);
                        }
                    }
                }
                (Some(c), true)
            },
            None => {
                proof {
                    assert forall|q: Seq<u8>| #[trigger]
                        code_at(*node, q) == extended(old_node, p, q) by {
                        if q.len() == 0 {
                            assert(p.subrange(0, 0) =~= q);
                        }
                    }
                }
                (None, false)
            },
        }
    } else {
        let b = seq[i];
        proof {
            assert(p =~= seq![b] + seq@.skip(i + 1));
            assert(p.drop_first() =~= seq@.skip(i + 1));
            assert(p[0] == b);
        }
        let child = node.get_or_create_child(b);
        let ghost old_child = *child;
        proof {
            if old_node.spec_children().contains_key(b) {
                lemma_consistent_child(old_node, b);
            } else {
                lemma_fresh_consistent(old_child);
            }
        }
        let r = walk_create(child, seq, i + 1, fresh);
        proof {
            lemma_consistent_step(old_node, *node, b, *child);
            if old_node.spec_children().contains_key(b) {
                assert(code_at(old_node, p) == code_at(old_child, seq@.skip(i + 1)));
                lemma_consistent_child(old_node, b);
            } else {
                lemma_fresh_code_at(old_child, seq@.skip(i + 1));
                lemma_fresh_consistent(old_child);
            }
            lemma_create_step(
                old_node,
                *node,
                b,
                old_child,
                *child,
                seq@.skip(i + 1),
                r.1,
                fresh,
            );
        }
        r
    }
}

/// Extending a path by one byte moves to the corresponding child.
pub proof fn lemma_node_at_push(n: TrieNode, p: Seq<u8>, b: u8)
    ensures
        node_at(n, p.push(b)) == (match node_at(n, p) {
            Some(m) => if m.spec_children().contains_key(b) {
                Some(m.spec_children()[b])
            } else {
                None
            },
            None => None,
        }),
    decreases p.len(),
{
    let pb = p.push(b);
    assert(pb.len() > 0);
    if p.len() > 0 {
        assert(pb.drop_first() =~= p.drop_first().push(b));
        assert(pb[0] == p[0]);
        if n.spec_children().contains_key(p[0]) {
            let child = n.spec_children()[p[0]];
            assert(node_at(n, pb) == node_at(child, pb.drop_first()));
            assert(node_at(n, p) == node_at(child, p.drop_first()));
            lemma_node_at_push(child, p.drop_first(), b);
        } else {
            assert(node_at(n, pb) is None);
            assert(node_at(n, p) is None);
        }
    } else {
        assert(pb.drop_first() =~= Seq::<u8>::empty());
        assert(pb[0] == b);
        assert(node_at(n, p) == Some(n));
        if n.spec_children().contains_key(b) {
            assert(node_at(n, pb) == node_at(n.spec_children()[b], pb.drop_first()));
        }
    }
}

/// The longest prefix of `rest` whose node below `n` carries a code, as that
/// code and the prefix length; `(None, 0)` when no non-empty prefix has one.
pub open spec fn walk(n: TrieNode, rest: Seq<u8>) -> (Option<u16>, nat)
    decreases rest.len(),
{
    if rest.len() > 0 && n.spec_children().contains_key(rest[0]) {
        let child = n.spec_children()[rest[0]];
        let sub = walk(child, rest.drop_first());
        if sub.0 is Some {
            (sub.0, sub.1 + 1)
        } else if child.spec_code() is Some {
            (child.spec_code(), 1)
        } else {
            (None, 0)
        }
    } else {
        (None, 0)
    }
}

/// Whether the node at `path` below `n` exists and carries a code.
pub open spec fn carries_code(n: TrieNode, path: Seq<u8>) -> bool {
    code_at(n, path) matches Some(Some(_))
}

/// `walk` finds the longest prefix that carries a code: the prefix it
/// reports carries the reported code, and no longer prefix carries one.
pub proof fn lemma_walk_longest(n: TrieNode, rest: Seq<u8>)
    ensures
        walk(n, rest).1 <= rest.len(),
        walk(n, rest).0 is None ==> walk(n, rest).1 == 0,
        walk(n, rest).0 is Some ==> {
            &&& walk(n, rest).1 >= 1
            &&& code_at(n, rest.take(walk(n, rest).1 as int)) == Some(walk(n, rest).0)
        },
        forall|k: int|
            1 <= k <= rest.len() && #[trigger] carries_code(n, rest.take(k)) ==> {
                &&& walk(n, rest).0 is Some
                &&& k <= walk(n, rest).1
            },
    decreases rest.len(),
{
    if rest.len() > 0 && n.spec_children().contains_key(rest[0]) {
        let child = n.spec_children()[rest[0]];
        let r1 = rest.drop_first();
        lemma_walk_longest(child, r1);
        assert forall|k: int| 1 <= k <= rest.len() implies #[trigger] code_at(n, rest.take(k))
            == code_at(child, r1.take(k - 1)) by {
            assert(rest.take(k)[0] == rest[0]);
            assert(rest.take(k).drop_first() =~= r1.take(k - 1));
        }
        let sub = walk(child, r1);
        if sub.0 is Some {
            assert(code_at(n, rest.take(sub.1 + 1 as int)) == code_at(child, r1.take(sub.1 as int)));
        }
        assert(r1.take(0) =~= Seq::<u8>::empty());
        assert forall|k: int|
            1 <= k <= rest.len() && #[trigger] carries_code(n, rest.take(k)) implies {
                &&& walk(n, rest).0 is Some
                &&& k <= walk(n, rest).1
            } by {
            assert(code_at(n, rest.take(k)) == code_at(child, r1.take(k - 1)));
            if k >= 2 {
                assert(carries_code(child, r1.take(k - 1)));
            }
        }
    } else {
        assert forall|k: int|
            1 <= k <= rest.len() && #[trigger] carries_code(n, rest.take(k)) implies false by {
            assert(rest.take(k)[0] == rest[0]);
        }
    }
}

/// Reading back a stored sequence: when the node at `s` carries code `c`,
/// the longest-prefix walk along `s` consumes all of `s` and reports `c`.
pub proof fn lemma_lookup_stored(t: Trie, s: Seq<u8>, c: u16)
    requires
        t.code_of(s) == Some(Some(c)),
        s.len() > 0,
    ensures
        walk(t.spec_root(), s) == (Some(c), s.len()),
{
    lemma_walk_longest(t.spec_root(), s);
    assert(s.take(s.len() as int) =~= s);
    assert(carries_code(t.spec_root(), s.take(s.len() as int)));
}

/// The contents of a freshly built trie: the root without a code and one
/// child per byte, carrying that byte as its code.
pub open spec fn initial_code_at(q: Seq<u8>) -> Option<Option<u16>> {
    if q.len() == 0 {
        Some(None)
    } else if q.len() == 1 {
        Some(Some(q[0] as u16))
    } else {
        None
    }
}

/// A root node with one child per byte, child `b` carrying code `b`.
fn initial_root() -> (root: TrieNode)
    ensures
        forall|q: Seq<u8>| #[trigger] code_at(root, q) == initial_code_at(q),
        root.spec_children().len() == 256,
        flags_consistent(root),
{
    let mut root = TrieNode::new();
    let mut i: u16 = 0;
    while i < 256
        invariant
            i <= 256,
            root.spec_code() is None,
            !root.spec_terminal(),
            root.spec_children().dom() =~= Set::new(|b: u8| (b as int) < i),
            root.spec_children().len() == i,
            forall|b: u8|
                (b as int) < i ==> (#[trigger] root.spec_children()[b]).spec_code() == Some(
                    b as u16,
                ) && root.spec_children()[b].spec_children() == Map::<u8, TrieNode>::empty()
                    && root.spec_children()[b].spec_terminal(),
        decreases 256 - i,
    {
        let byte = i as u8;
        let mut child = TrieNode::new();
        child.set_code(i);
        let ghost before = root.spec_children();
        root.children.insert(byte, child);
        proof {
            assert(!before.dom().contains(byte));
            assert(root.spec_children().dom() =~= before.dom().insert(byte));
        }
        i += 1;
    }
    proof {
        assert forall|q: Seq<u8>| #[trigger] code_at(root, q) == initial_code_at(q) by {
            if q.len() > 0 {
                let b = q[0];
                assert(root.spec_children().dom().contains(b));
                let c = root.spec_children()[b];
                assert(c.spec_code() == Some(b as u16));
                assert(c.spec_children() == Map::<u8, TrieNode>::empty());
                assert(node_at(root, q) == node_at(c, q.drop_first()));
                if q.len() > 1 {
                    assert(!c.spec_children().contains_key(q.drop_first()[0]));
                    assert(node_at(c, q.drop_first()) is None);
                } else {
                    assert(q.drop_first().len() == 0);
                }
            }
        }
        assert forall|q: Seq<u8>| #[trigger] node_flags_ok(root, q) by {
            if q.len() > 0 {
                let c = root.spec_children()[q[0]];
                assert(root.spec_children().dom().contains(q[0]));
                if q.len() > 1 {
                    assert(!c.spec_children().contains_key(q.drop_first()[0]));
                    assert(node_at(c, q.drop_first()) is None);
                } else {
                    assert(q.drop_first().len() == 0);
                }
            }
        }
    }
    root
}

/// A trie that maps byte sequences to codes.
///
/// Used as the dictionary for LZ78/LZW compression.
#[derive(Debug)]
pub struct Trie {
    root: TrieNode,
    /// Next code to assign.
    next_code: u16,
    /// Maximum code value before reset.
    max_code: u16,
}

impl Trie {
    /// The root node.
    pub closed spec fn spec_root(&self) -> TrieNode {
        self.root
    }

    /// The next code to be handed out.
    pub closed spec fn spec_next_code(&self) -> u16 {
        self.next_code
    }

    /// The largest code that may be handed out.
    pub closed spec fn spec_max_code(&self) -> u16 {
        self.max_code
    }

    /// Whether a node exists at `path` (outer `Some`) and the code it carries.
    pub open spec fn code_of(&self, path: Seq<u8>) -> Option<Option<u16>> {
        code_at(self.spec_root(), path)
    }

    /// Whether no further codes can be handed out.
    pub open spec fn spec_full(&self) -> bool {
        self.spec_next_code() > self.spec_max_code()
    }

    /// Well-formedness: every stored code is below the next code, no code is
    /// stored twice, each single byte keeps its own value as code, and every
    /// node is terminal exactly when it carries a code.
    pub open spec fn wf(&self) -> bool {
        &&& self.spec_next_code() >= 256
        &&& forall|p: Seq<u8>|
            (#[trigger] self.code_of(p) matches Some(Some(c)) ==> c < self.spec_next_code())
        &&& forall|p: Seq<u8>, q: Seq<u8>|
            #![trigger self.code_of(p), self.code_of(q)]
            self.code_of(p) matches Some(Some(_)) && self.code_of(p) == self.code_of(q) ==> p == q
        &&& forall|b: u8| #[trigger] self.code_of(seq![b]) == Some(Some(b as u16))
        &&& flags_consistent(self.spec_root())
    }

    /// The path whose node carries `code`, when there is one.
    pub open spec fn path_of_code(&self, code: u16) -> Seq<u8> {
        choose|p: Seq<u8>| self.code_of(p) == Some(Some(code))
    }

    /// Whether some node carries `code`.
    pub open spec fn has_code(&self, code: u16) -> bool {
        exists|p: Seq<u8>| self.code_of(p) == Some(Some(code))
    }

    /// Create a new trie initialized with single-byte entries (0-255).
    ///
    /// Codes 0-255 are reserved for literal bytes. New entries start at 256.
    pub fn new() -> (t: Self)
        ensures
            t.wf(),
            forall|q: Seq<u8>| #[trigger] t.code_of(q) == initial_code_at(q),
            t.spec_root().spec_children().len() == 256,
            t.spec_next_code() == 256,
            t.spec_max_code() == 65535,
    {
        let root = initial_root();
        let t = Trie { root, next_code: 256, max_code: 65535 };
        proof {
            lemma_initial_wf(t);
        }
        t
    }

    /// Create a trie with a custom maximum code.
    pub fn with_max_code(max_code: u16) -> (t: Self)
        ensures
            t.wf(),
            forall|q: Seq<u8>| #[trigger] t.code_of(q) == initial_code_at(q),
            t.spec_next_code() == 256,
            t.spec_max_code() == max_code,
    {
        let mut t = Trie::new();
        let ghost t0 = t;
        t.max_code = max_code;
        proof {
            assert(t.spec_root() == t0.spec_root());
            assert forall|q: Seq<u8>| #[trigger] t.code_of(q) == initial_code_at(q) by {
                assert(t0.code_of(q) == initial_code_at(q));
            }
            lemma_initial_wf(t);
        }
        t
    }

    /// Look up the longest prefix of `data` starting at `offset` in the trie.
    ///
    /// Returns `(code, match_length)` where `code` is the trie code for the
    /// longest match and `match_length` is how many bytes matched.
    pub fn longest_prefix(&self, data: &[u8], offset: usize) -> (r: (Option<u16>, usize))
        requires
            offset <= data@.len(),
        ensures
            r.0 == walk(self.spec_root(), data@.skip(offset as int)).0,
            r.1 == walk(self.spec_root(), data@.skip(offset as int)).1,
    {
        let ghost rest = data@.skip(offset as int);
        let mut node = &self.root;
        let mut last_code: Option<u16> = None;
        let mut matched: usize = 0;
        let mut depth: usize = 0;
        let mut i: usize = offset;
        proof {
            assert(data@.skip(i as int) == rest);
        }
        while i < data.len()
            invariant
                offset <= i <= data@.len(),
                depth == i - offset,
                matched <= depth,
                rest == data@.skip(offset as int),
                last_code is None ==> matched == 0,
                ({
                    let sub = walk(*node, data@.skip(i as int));
                    walk(self.spec_root(), rest) == (if sub.0 is Some {
                        (sub.0, (depth + sub.1) as nat)
                    } else {
                        (last_code, matched as nat)
                    })
                }),
            ensures
                walk(*node, data@.skip(i as int)).0 is None,
                walk(self.spec_root(), rest) == (last_code, matched as nat),
            decreases data.len() - i,
        {
            let byte = data[i];
            let ghost s = data@.skip(i as int);
            proof {
                assert(s[0] == byte);
                assert(s.drop_first() =~= data@.skip(i + 1));
            }
            match node.get_child(byte) {
                Some(child) => {
                    depth += 1;
                    if let Some(c) = child.code() {
                        last_code = Some(c);
                        matched = depth;
                    }
                    node = child;
                },
                None => break,
            }
            i += 1;
        }
        (last_code, matched)
    }

    /// Insert a new sequence: the existing prefix (code `prefix_code`) + `next_byte`.
    ///
    /// Returns the sequence's code when it already has one, the new code
    /// assigned otherwise, or `None` if no node below the root carries
    /// `prefix_code` or the dictionary is full. A code stored at the root
    /// itself (by inserting the empty sequence) names no prefix here.
    pub fn insert(&mut self, prefix_code: u16, next_byte: u8) -> (r: Option<u16>)
        requires
            old(self).wf(),
            old(self).insert_allocates(prefix_code, next_byte) ==> old(self).spec_next_code()
                < 65535,
        ensures
            final(self).wf(),
            final(self).spec_max_code() == old(self).spec_max_code(),
            !old(self).insert_allocates(prefix_code, next_byte) ==> {
                &&& final(self).spec_next_code() == old(self).spec_next_code()
                &&& forall|q: Seq<u8>| #[trigger]
                    final(self).code_of(q) == old(self).code_of(q)
                &&& r == (if old(self).has_prefix_code(prefix_code) {
                    match old(self).code_of(
                        old(self).path_of_code(prefix_code).push(next_byte),
                    ) {
                        Some(Some(c)) => Some(c),
                        _ => None,
                    }
                } else {
                    None
                })
            },
            old(self).insert_allocates(prefix_code, next_byte) ==> {
                let path = old(self).path_of_code(prefix_code).push(next_byte);
                &&& r == Some(old(self).spec_next_code())
                &&& final(self).spec_next_code() == old(self).spec_next_code() + 1
                &&& forall|q: Seq<u8>| #[trigger]
                    final(self).code_of(q) == (if q == path {
                        Some(Some(old(self).spec_next_code()))
                    } else {
                        old(self).code_of(q)
                    })
            },
    {
        proof {
            lemma_path_of_code_unique(*self, prefix_code);
        }
        // Find the node for prefix_code
        let path = match self.find_node_by_code(prefix_code) {
            Some(p) => p,
            None => return None,
        };
        // The root is no prefix node
        if path.len() == 0 {
            return None;
        }
        let mut full: Vec<u8> = path;
        full.push(next_byte);
        // The sequence already has a code
        if let Some(existing) = self.node_lookup(full.as_slice()) {
            if let Some(c) = existing.code() {
                return Some(c);
            }
        }
        if self.next_code > self.max_code {
            return None;
        }
        let ghost old_self = *self;
        let new_code = self.next_code;
        let r = walk_create(&mut self.root, full.as_slice(), 0, Some(new_code));
        self.next_code += 1;
        proof {
            assert(full@.skip(0) =~= full@);
            lemma_node_at_push(old_self.spec_root(), old_self.path_of_code(prefix_code), next_byte);
            lemma_assign_wf_extended(old_self, *self, full@, new_code);
            let pp = old_self.path_of_code(prefix_code);
            assert(full@ == pp.push(next_byte));
            assert forall|q: Seq<u8>| #[trigger]
                self.code_of(q) == (if q == full@ {
                    Some(Some(new_code))
                } else {
                    old_self.code_of(q)
                }) by {
                if q != full@ && old_self.code_of(q) is None && is_prefix_of(q, full@) {
                    lemma_prefix_of_push(pp, next_byte, q);
                    lemma_prefix_node(old_self.spec_root(), pp, q);
                }
            }
        }
        Some(new_code)
    }

    /// Whether a node below the root carries `code`.
    pub open spec fn has_prefix_code(&self, code: u16) -> bool {
        self.has_code(code) && self.path_of_code(code).len() > 0
    }

    /// Whether `insert(prefix_code, next_byte)` hands out a new code: some
    /// node below the root carries `prefix_code`, its child for `next_byte` is missing or
    /// carries no code, and the trie is not full.
    pub open spec fn insert_allocates(&self, prefix_code: u16, next_byte: u8) -> bool {
        &&& self.has_prefix_code(prefix_code)
        &&& !carries_code(self.spec_root(), self.path_of_code(prefix_code).push(next_byte))
        &&& !self.spec_full()
    }

    /// Insert a byte sequence directly, creating the nodes along it.
    ///
    /// Returns the sequence's code when it already has one, the new code
    /// assigned otherwise, or `None` when the trie is full (the nodes along
    /// the sequence are created all the same).
    pub fn insert_sequence(&mut self, seq: &[u8]) -> (r: Option<u16>)
        requires
            old(self).wf(),
            !(old(self).code_of(seq@) matches Some(Some(_))) && !old(self).spec_full()
                ==> old(self).spec_next_code() < 65535,
        ensures
            final(self).wf(),
            final(self).spec_max_code() == old(self).spec_max_code(),
            old(self).code_of(seq@) matches Some(Some(c)) ==> {
                &&& r == Some(c)
                &&& final(self).spec_next_code() == old(self).spec_next_code()
                &&& forall|q: Seq<u8>| #[trigger]
                    final(self).code_of(q) == old(self).code_of(q)
            },
            !(old(self).code_of(seq@) matches Some(Some(_))) ==> {
                &&& r == (if old(self).spec_full() {
                    None
                } else {
                    Some(old(self).spec_next_code())
                })
                &&& final(self).spec_next_code() == old(self).spec_next_code() + (if r is Some {
                    1int
                } else {
                    0
                })
                &&& forall|q: Seq<u8>| #[trigger]
                    final(self).code_of(q) == (if r is Some && q == seq@ {
                        Some(r)
                    } else {
                        extended(old(self).spec_root(), seq@, q)
                    })
            },
    {
        let ghost old_self = *self;
        let fresh = if self.next_code > self.max_code {
            None
        } else {
            Some(self.next_code)
        };
        assert(seq@.skip(0) =~= seq@);
        let (r, assigned) = walk_create(&mut self.root, seq, 0, fresh);
        if assigned {
            self.next_code += 1;
        }
        proof {
            assert(seq@.skip(0) =~= seq@);
            if old_self.code_of(seq@) matches Some(Some(c)) {
                assert forall|q: Seq<u8>| #[trigger] self.code_of(q) == old_self.code_of(q) by {
                    if old_self.code_of(q) is None && is_prefix_of(q, seq@) {
                        lemma_prefix_node(old_self.spec_root(), seq@, q);
                    }
                }
            } else if assigned {
                lemma_assign_wf_extended(old_self, *self, seq@, old_self.spec_next_code());
            } else {
                lemma_extend_wf(old_self, *self, seq@);
            }
        }
        r
    }

    /// Get the root node.
    pub fn root(&self) -> (r: &TrieNode)
        ensures
            *r == self.spec_root(),
    {
        &self.root
    }

    /// Next code to be assigned.
    pub fn next_code(&self) -> (r: u16)
        ensures
            r == self.spec_next_code(),
    {
        self.next_code
    }

    /// Number of entries in the trie (including initial 256).
    pub fn len(&self) -> (r: usize)
        ensures
            r == self.spec_next_code(),
    {
        self.next_code as usize
    }

    /// Whether the trie has no entries (never: it always has the 256 initial ones).
    pub fn is_empty(&self) -> (r: bool)
        ensures
            r == false,
    {
        false
    }

    /// Whether the trie has only its initial single-byte entries.
    pub fn is_only_initial(&self) -> (r: bool)
        ensures
            r == (self.spec_next_code() == 256),
    {
        self.next_code == 256
    }

    /// Reset the trie to initial state (only single-byte entries).
    pub fn reset(&mut self)
        ensures
            final(self).wf(),
            forall|q: Seq<u8>| #[trigger] final(self).code_of(q) == initial_code_at(q),
            final(self).spec_root().spec_children().len() == 256,
            final(self).spec_next_code() == 256,
            final(self).spec_max_code() == old(self).spec_max_code(),
    {
        self.root = initial_root();
        self.next_code = 256;
        proof {
            assert forall|q: Seq<u8>| #[trigger] self.code_of(q) == initial_code_at(q) by {}
            lemma_initial_wf(*self);
        }
    }

    /// The path of the node carrying `code`, if any.
    fn find_node_by_code(&self, code: u16) -> (r: Option<Vec<u8>>)
        requires
            self.wf(),
        ensures
            r matches Some(p) ==> self.code_of(p@) == Some(Some(code)),
            r is None ==> !self.has_code(code),
    {
        // For codes 0-255, we know exactly where they are
        if code < 256 {
            let byte = code as u8;
            let mut p: Vec<u8> = Vec::new();
            p.push(byte);
            proof {
                assert(p@ =~= seq![byte]);
                assert(self.code_of(seq![byte]) == Some(Some(byte as u16)));
            }
            return Some(p);
        }
        // For higher codes, search
        let r = search_node(&self.root, code);
        proof {
            if r is None {
                assert forall|p: Seq<u8>| self.code_of(p) != Some(Some(code)) by {
                    assert(code_at(self.spec_root(), p) != Some(Some(code)));
                }
            }
        }
        r
    }

    /// The node at `path`, if it exists.
    fn node_lookup(&self, path: &[u8]) -> (r: Option<&TrieNode>)
        ensures
            r matches Some(n) ==> node_at(self.spec_root(), path@) == Some(*n),
            r is None ==> node_at(self.spec_root(), path@) is None,
    {
        let mut node = &self.root;
        let mut i: usize = 0;
        while i < path.len()
            invariant
                i <= path@.len(),
                node_at(self.spec_root(), path@.subrange(0, i as int)) == Some(*node),
            decreases path.len() - i,
        {
            proof {
                lemma_node_at_push(self.spec_root(), path@.subrange(0, i as int), path@[i as int]);
                assert(path@.subrange(0, i as int).push(path@[i as int]) =~= path@.subrange(
                    0,
                    i + 1,
                ));
            }
            match node.get_child(path[i]) {
                Some(child) => {
                    node = child;
                },
                None => {
                    proof {
                        lemma_node_at_absent_extends(
                            self.spec_root(),
                            path@.subrange(0, i + 1),
                            path@,
                        );
                    }
                    return None;
                },
            }
            i += 1;
        }
        proof {
            assert(path@.subrange(0, path@.len() as int) =~= path@);
        }
        Some(node)
    }
}

/// Nodes with the same contents carry the same codes, and one has
/// consistent flags when the other does.
pub proof fn lemma_same_contents(a: TrieNode, b: TrieNode)
    requires
        same_contents(a, b),
    ensures
        forall|q: Seq<u8>| #[trigger] code_at(a, q) == code_at(b, q),
        flags_consistent(b) ==> flags_consistent(a),
{
    assert forall|q: Seq<u8>| #[trigger] code_at(a, q) == code_at(b, q) by {
        assert(info_at(a, q) == info_at(b, q));
    }
    if flags_consistent(b) {
        assert forall|q: Seq<u8>| #[trigger] node_flags_ok(a, q) by {
            assert(info_at(a, q) == info_at(b, q));
            assert(node_flags_ok(b, q));
        }
    }
}

impl Clone for Trie {
    /// A deep copy of the trie.
    fn clone(&self) -> (r: Self)
        ensures
            same_contents(r.spec_root(), self.spec_root()),
            forall|q: Seq<u8>| #[trigger] r.code_of(q) == self.code_of(q),
            r.spec_next_code() == self.spec_next_code(),
            r.spec_max_code() == self.spec_max_code(),
            self.wf() ==> r.wf(),
    {
        let r = Trie { root: self.root.clone(), next_code: self.next_code, max_code: self.max_code };
        proof {
            lemma_same_contents(r.spec_root(), self.spec_root());
            assert forall|q: Seq<u8>| #[trigger] r.code_of(q) == self.code_of(q) by {
                assert(code_at(r.spec_root(), q) == code_at(self.spec_root(), q));
            }
        }
        r
    }
}

impl Default for Trie {
    fn default() -> (t: Self)
        ensures
            t.wf(),
            forall|q: Seq<u8>| #[trigger] t.code_of(q) == initial_code_at(q),
            t.spec_next_code() == 256,
            t.spec_max_code() == 65535,
    {
        Self::new()
    }
}

/// Nodes exist along every prefix of a path that reaches a node.
pub proof fn lemma_prefix_node(n: TrieNode, s: Seq<u8>, q: Seq<u8>)
    requires
        node_at(n, s) is Some,
        is_prefix_of(q, s),
    ensures
        node_at(n, q) is Some,
    decreases q.len(),
{
    if q.len() > 0 {
        assert(s.subrange(0, q.len() as int)[0] == s[0]);
        assert(q[0] == s[0]);
        let child = n.spec_children()[s[0]];
        assert(s.drop_first().subrange(0, q.len() - 1) =~= q.drop_first());
        lemma_prefix_node(child, s.drop_first(), q.drop_first());
    }
}

/// A proper prefix of `p.push(b)` is a prefix of `p`.
proof fn lemma_prefix_of_push(p: Seq<u8>, b: u8, q: Seq<u8>)
    requires
        is_prefix_of(q, p.push(b)),
        q != p.push(b),
    ensures
        is_prefix_of(q, p),
{
    if q.len() == p.len() + 1 {
        assert(p.push(b).subrange(0, q.len() as int) =~= p.push(b));
    }
    assert(p.subrange(0, q.len() as int) =~= p.push(b).subrange(0, q.len() as int));
}

/// If a prefix of `path` has no node, `path` has none either.
proof fn lemma_node_at_absent_extends(n: TrieNode, pre: Seq<u8>, path: Seq<u8>)
    requires
        pre.len() <= path.len(),
        pre == path.subrange(0, pre.len() as int),
        node_at(n, pre) is None,
    ensures
        node_at(n, path) is None,
{
    if node_at(n, path) is Some {
        lemma_prefix_node(n, path, pre);
    }
}

/// A freshly built trie is well formed.
proof fn lemma_initial_wf(t: Trie)
    requires
        forall|q: Seq<u8>| #[trigger] t.code_of(q) == initial_code_at(q),
        t.spec_next_code() == 256,
        flags_consistent(t.spec_root()),
    ensures
        t.wf(),
{
    assert forall|p: Seq<u8>, q: Seq<u8>|
        #![trigger t.code_of(p), t.code_of(q)]
        t.code_of(p) matches Some(Some(_)) && t.code_of(p) == t.code_of(q) implies p == q by {
        assert(t.code_of(p) == initial_code_at(p));
        assert(t.code_of(q) == initial_code_at(q));
        assert(p[0] as u16 == q[0] as u16);
        assert(p =~= q);
    }
    assert forall|p: Seq<u8>|
        (#[trigger] t.code_of(p) matches Some(Some(c)) ==> c < t.spec_next_code()) by {
        assert(t.code_of(p) == initial_code_at(p));
    }
    assert forall|b: u8| #[trigger] t.code_of(seq![b]) == Some(Some(b as u16)) by {
        assert(t.code_of(seq![b]) == initial_code_at(seq![b]));
    }
}

/// In a well-formed trie the path carrying a code is unique.
proof fn lemma_path_of_code_unique(t: Trie, code: u16)
    requires
        t.wf(),
    ensures
        forall|p: Seq<u8>| t.code_of(p) == Some(Some(code)) ==> p == t.path_of_code(code),
{
    if t.has_code(code) {
        let q = t.path_of_code(code);
        assert(t.code_of(q) == Some(Some(code)));
    }
}

/// Creating the nodes along `s` keeps a trie well formed.
proof fn lemma_extend_wf(old_t: Trie, new_t: Trie, s: Seq<u8>)
    requires
        old_t.wf(),
        new_t.spec_next_code() == old_t.spec_next_code(),
        flags_consistent(new_t.spec_root()),
        forall|q: Seq<u8>| #[trigger] new_t.code_of(q) == extended(old_t.spec_root(), s, q),
    ensures
        new_t.wf(),
{
    assert forall|p: Seq<u8>|
        (#[trigger] new_t.code_of(p) matches Some(Some(c)) ==> c < new_t.spec_next_code()) by {
        assert(new_t.code_of(p) == extended(old_t.spec_root(), s, p));
        if new_t.code_of(p) matches Some(Some(_)) {
            assert(old_t.code_of(p) == new_t.code_of(p));
        }
    }
    assert forall|p: Seq<u8>, q: Seq<u8>|
        #![trigger new_t.code_of(p), new_t.code_of(q)]
        new_t.code_of(p) matches Some(Some(_)) && new_t.code_of(p) == new_t.code_of(q) implies p
        == q by {
        assert(new_t.code_of(p) == extended(old_t.spec_root(), s, p));
        assert(new_t.code_of(q) == extended(old_t.spec_root(), s, q));
        assert(old_t.code_of(p) == new_t.code_of(p));
        assert(old_t.code_of(q) == new_t.code_of(q));
    }
    assert forall|b: u8| #[trigger] new_t.code_of(seq![b]) == Some(Some(b as u16)) by {
        assert(old_t.code_of(seq![b]) == Some(Some(b as u16)));
        assert(new_t.code_of(seq![b]) == extended(old_t.spec_root(), s, seq![b]));
    }
}

/// Creating the nodes along `s` and storing the next code at `s` (which had
/// no code) keeps a trie well formed.
proof fn lemma_assign_wf_extended(old_t: Trie, new_t: Trie, s: Seq<u8>, c: u16)
    requires
        old_t.wf(),
        !(old_t.code_of(s) matches Some(Some(_))),
        c == old_t.spec_next_code(),
        new_t.spec_next_code() == old_t.spec_next_code() + 1,
        flags_consistent(new_t.spec_root()),
        forall|q: Seq<u8>| #[trigger]
            new_t.code_of(q) == (if q == s {
                Some(Some(c))
            } else {
                extended(old_t.spec_root(), s, q)
            }),
    ensures
        new_t.wf(),
{
    assert forall|p: Seq<u8>|
        (#[trigger] new_t.code_of(p) matches Some(Some(x)) ==> x < new_t.spec_next_code()) by {
        assert(new_t.code_of(p) == (if p == s {
            Some(Some(c))
        } else {
            extended(old_t.spec_root(), s, p)
        }));
        if p != s && new_t.code_of(p) matches Some(Some(_)) {
            assert(old_t.code_of(p) == new_t.code_of(p));
        }
    }
    assert forall|p: Seq<u8>, q: Seq<u8>|
        #![trigger new_t.code_of(p), new_t.code_of(q)]
        new_t.code_of(p) matches Some(Some(_)) && new_t.code_of(p) == new_t.code_of(q) implies p
        == q by {
        assert(new_t.code_of(p) == (if p == s {
            Some(Some(c))
        } else {
            extended(old_t.spec_root(), s, p)
        }));
        assert(new_t.code_of(q) == (if q == s {
            Some(Some(c))
        } else {
            extended(old_t.spec_root(), s, q)
        }));
        if p != s {
            assert(old_t.code_of(p) == new_t.code_of(p));
        }
        if q != s {
            assert(old_t.code_of(q) == new_t.code_of(q));
        }
    }
    assert forall|b: u8| #[trigger] new_t.code_of(seq![b]) == Some(Some(b as u16)) by {
        assert(old_t.code_of(seq![b]) == Some(Some(b as u16)));
        assert(seq![b] != s);
        assert(new_t.code_of(seq![b]) == extended(old_t.spec_root(), s, seq![b]));
    }
}

/// Depth-first search for the path below `node` whose node carries `code`.
/// Children are probed in byte order; in a well-formed trie at most one node
/// carries a given code, so the order does not affect the result.
fn search_node(node: &TrieNode, code: u16) -> (r: Option<Vec<u8>>)
    ensures
        r matches Some(p) ==> code_at(*node, p@) == Some(Some(code)),
        r is None ==> forall|p: Seq<u8>| code_at(*node, p) != Some(Some(code)),
    decreases node,
{
    if let Some(c) = node.code() {
        if c == code {
            proof {
                assert(code_at(*node, Seq::<u8>::empty()) == Some(Some(code)));
            }
            return Some(Vec::new());
        }
    }
    let mut b: u16 = 0;
    while b < 256
        invariant
            b <= 256,
            node.spec_code() != Some(code),
            forall|c: u8, p: Seq<u8>|
                #![trigger code_at(node.spec_children()[c], p)]
                (c as int) < b && node.spec_children().contains_key(c) ==> code_at(
                    node.spec_children()[c],
                    p,
                ) != Some(Some(code)),
        decreases 256 - b,
    {
        let byte = b as u8;
        if let Some(child) = node.get_child(byte) {
            proof {
                assert(decreases_to!(node => child)) by {
                    assert(decreases_to!(node => node.children));
                    assert(decreases_to!(node.children => node.children@));
                    assert(decreases_to!(node.children@ => node.children@[byte]));
                }
            }
            if let Some(sub) = search_node(child, code) {
                let mut p: Vec<u8> = Vec::new();
                p.push(byte);
                crate::bytes::append_bytes(&mut p, sub.as_slice());
                proof {
                    assert(p@[0] == byte);
                    assert(p@.drop_first() =~= sub@);
                }
                return Some(p);
            }
        }
        b += 1;
    }
    proof {
        assert forall|p: Seq<u8>| code_at(*node, p) != Some(Some(code)) by {
            if p.len() > 0 {
                if node.spec_children().contains_key(p[0]) {
                    assert(code_at(*node, p) == code_at(node.spec_children()[p[0]], p.drop_first()));
                }
            }
        }
    }
    None
}

} // verus!
