//! A byte trie: patterns of bytes end in an action, and a walk over an
//! input decides which pattern it starts with.
use vstd::prelude::*;

verus! {

/// A trie node: an accepting leaf carrying its action, or an inner
/// node with one labelled edge per continuation byte.
pub enum Node {
    Accept(u8),
    Mid(Vec<(u8, Node)>),
}

/// The child behind the first edge of `edges` labelled `b`, if any.
pub open spec fn edge_for(edges: Seq<(u8, Node)>, b: u8) -> Option<Node>
    decreases edges.len(),
{
    if edges.len() == 0 {
        Option::None
    } else if edges[0].0 == b {
        Option::Some(edges[0].1)
    } else {
        edge_for(edges.skip(1), b)
    }
}

/// What the trie decides on `s`: the action of the first accepting
/// node reached, walking one edge per byte; nothing when the walk runs
/// off the bytes or off the edges.
pub open spec fn lookup(n: Node, s: Seq<u8>) -> Option<u8>
    decreases s.len(),
{
    match n {
        Node::Accept(a) => Option::Some(a),
        Node::Mid(edges) => {
            if s.len() == 0 {
                Option::None
            } else {
                match edge_for(edges@, s[0]) {
                    Option::Some(child) => lookup(child, s.skip(1)),
                    Option::None => Option::None,
                }
            }
        },
    }
}

/// `p` is a prefix of `s`.
pub open spec fn is_prefix(p: Seq<u8>, s: Seq<u8>) -> bool
    decreases p.len(),
{
    p.len() == 0 || (s.len() > 0 && s[0] == p[0] && is_prefix(p.skip(1), s.skip(1)))
}

/// When index `j` holds the first edge labelled `c`, it is the edge
/// the search finds.
proof fn lemma_edge_first(edges: Seq<(u8, Node)>, j: int, c: u8)
    requires
        0 <= j < edges.len(),
        edges[j].0 == c,
        forall|jj: int| 0 <= jj < j ==> (#[trigger] edges[jj]).0 != c,
    ensures
        edge_for(edges, c) == Option::Some(edges[j].1),
    decreases j,
{
    if j > 0 {
        assert(edges.skip(1)[j - 1] == edges[j]);
        assert forall|jj: int| 0 <= jj < j - 1 implies (#[trigger] edges.skip(1)[jj]).0 != c by {
            assert(edges.skip(1)[jj] == edges[jj + 1]);
        }
        lemma_edge_first(edges.skip(1), j - 1, c);
    }
}

/// When no edge is labelled `c`, the search finds nothing.
proof fn lemma_edge_none(edges: Seq<(u8, Node)>, c: u8)
    requires
        forall|jj: int| 0 <= jj < edges.len() ==> (#[trigger] edges[jj]).0 != c,
    ensures
        edge_for(edges, c) is None,
    decreases edges.len(),
{
    if edges.len() > 0 {
        assert forall|jj: int| 0 <= jj < edges.skip(1).len() implies (#[trigger] edges.skip(
            1,
        )[jj]).0 != c by {
            assert(edges.skip(1)[jj] == edges[jj + 1]);
        }
        lemma_edge_none(edges.skip(1), c);
    }
}

/// Replacing the child behind the first `c` edge redirects only the
/// search for `c`.
proof fn lemma_edge_update(edges: Seq<(u8, Node)>, j: int, c: u8, child: Node, b: u8)
    requires
        0 <= j < edges.len(),
        edges[j].0 == c,
        forall|jj: int| 0 <= jj < j ==> (#[trigger] edges[jj]).0 != c,
    ensures
        edge_for(edges.update(j, (c, child)), b) == if b == c {
            Option::Some(child)
        } else {
            edge_for(edges, b)
        },
    decreases edges.len(),
{
    let up = edges.update(j, (c, child));
    if j == 0 {
        if edges[0].0 != b {
            assert(up.skip(1) =~= edges.skip(1));
        }
    } else {
        assert(up[0] == edges[0]);
        assert(up.skip(1) =~= edges.skip(1).update(j - 1, (c, child)));
        assert(edges.skip(1)[j - 1] == edges[j]);
        assert forall|jj: int| 0 <= jj < j - 1 implies (#[trigger] edges.skip(1)[jj]).0 != c by {
            assert(edges.skip(1)[jj] == edges[jj + 1]);
        }
        lemma_edge_update(edges.skip(1), j - 1, c, child, b);
    }
}

/// An appended edge is reached only for its own label, and only where
/// no earlier edge matches.
proof fn lemma_edge_push(edges: Seq<(u8, Node)>, c: u8, child: Node, b: u8)
    requires
        edge_for(edges, c) is None,
    ensures
        edge_for(edges.push((c, child)), b) == if b == c {
            Option::Some(child)
        } else {
            edge_for(edges, b)
        },
    decreases edges.len(),
{
    let up = edges.push((c, child));
    if edges.len() == 0 {
        assert(up[0] == (c, child));
        if b != c {
            assert(up.skip(1) =~= edges);
        }
    } else {
        assert(up[0] == edges[0]);
        assert(up.skip(1) =~= edges.skip(1).push((c, child)));
        lemma_edge_push(edges.skip(1), c, child, b);
    }
}

/// Build the chain that accepts exactly the continuations of
/// `pat[i..]` with `action`.
pub fn new(pat: &Vec<u8>, i: usize, action: u8) -> (r: Node)
    requires
        i <= pat@.len(),
    ensures
        forall|s: Seq<u8>| #[trigger] lookup(r, s) == if is_prefix(pat@.skip(i as int), s) {
            Option::Some(action)
        } else {
            Option::<u8>::None
        },
        forall|q: Seq<u8>|
            !is_prefix(q, pat@.skip(i as int)) && !is_prefix(pat@.skip(i as int), q)
                ==> #[trigger] can_add(r, q),
    decreases pat@.len() - i,
{
    if i == pat.len() {
        let r = Node::Accept(action);
        proof {
            assert(pat@.skip(i as int).len() == 0);
            assert forall|q: Seq<u8>| is_prefix(pat@.skip(i as int), q) by {}
        }
        r
    } else {
        let c = pat[i];
        let child = new(pat, i + 1, action);
        let ghost childv = child;
        let edges: Vec<(u8, Node)> = vec![(c, child)];
        let ghost ev = edges@;
        let r = Node::Mid(edges);
        proof {
            let p = pat@.skip(i as int);
            assert(p[0] == c);
            assert(p.skip(1) =~= pat@.skip(i + 1));
            assert forall|s: Seq<u8>| #[trigger] lookup(r, s) == (if is_prefix(p, s) {
                Option::Some(action)
            } else {
                Option::<u8>::None
            }) by {
                if s.len() > 0 {
                    assert(ev[0] == (c, childv));
                    if s[0] == c {
                        assert(edge_for(ev, s[0]) == Option::Some(childv));
                        assert(lookup(r, s) == lookup(childv, s.skip(1)));
                        assert(lookup(childv, s.skip(1)) == if is_prefix(
                            pat@.skip(i + 1),
                            s.skip(1),
                        ) {
                            Option::Some(action)
                        } else {
                            Option::<u8>::None
                        });
                    } else {
                        assert(ev.skip(1).len() == 0);
                        assert(edge_for(ev.skip(1), s[0]) is None);
                        assert(edge_for(ev, s[0]) is None);
                    }
                }
            }
            assert forall|q: Seq<u8>|
                !is_prefix(q, p) && !is_prefix(p, q) implies #[trigger] can_add(r, q) by {
                if q.len() > 0 {
                    if q[0] == c {
                        assert(edge_for(ev, q[0]) == Option::Some(childv));
                        assert(!is_prefix(q.skip(1), pat@.skip(i + 1)));
                        assert(!is_prefix(pat@.skip(i + 1), q.skip(1)));
                        assert(can_add(childv, q.skip(1)));
                    } else {
                        assert(edge_for(ev.skip(1), q[0]) is None);
                        assert(edge_for(ev, q[0]) is None);
                    }
                }
            }
        }
        r
    }
}

/// Whether `p` can be added to the trie: its path must not cross or
/// stop at an accepting node, and where it ends nothing may continue.
pub open spec fn can_add(n: Node, p: Seq<u8>) -> bool
    decreases p.len(),
{
    match n {
        Node::Accept(_) => false,
        Node::Mid(edges) => {
            if p.len() == 0 {
                edges@.len() == 0
            } else {
                match edge_for(edges@, p[0]) {
                    Option::Some(child) => can_add(child, p.skip(1)),
                    Option::None => true,
                }
            }
        },
    }
}

impl Node {
    /// Add the pattern `pat[i..]` with `action`: afterwards the trie
    /// accepts continuations of the new pattern with the new action and
    /// decides everything else as it did before.
    pub fn add(&mut self, pat: &Vec<u8>, i: usize, action: u8)
        requires
            i <= pat@.len(),
            can_add(*old(self), pat@.skip(i as int)),
        ensures
            forall|s: Seq<u8>| #[trigger] lookup(*final(self), s) == if is_prefix(
                pat@.skip(i as int),
                s,
            ) {
                Option::Some(action)
            } else {
                lookup(*old(self), s)
            },
            forall|q: Seq<u8>|
                can_add(*old(self), q) && !is_prefix(q, pat@.skip(i as int)) && !is_prefix(
                    pat@.skip(i as int),
                    q,
                ) ==> #[trigger] can_add(*final(self), q),
        decreases pat@.len() - i,
    {
        let ghost p = pat@.skip(i as int);
        if i == pat.len() {
            proof {
                assert(p.len() == 0);
            }
            *self = Node::Accept(action);
            proof {
                assert forall|s: Seq<u8>| #[trigger] lookup(*self, s) == (if is_prefix(p, s) {
                    Option::Some(action)
                } else {
                    lookup(*old(self), s)
                }) by {
                    assert(is_prefix(p, s));
                }
                assert forall|q: Seq<u8>| is_prefix(p, q) by {}
            }
            return ;
        }
        let c = pat[i];
        proof {
            assert(p[0] == c);
            assert(p.skip(1) =~= pat@.skip(i + 1));
        }
        let mut cur = Node::Mid(Vec::new());
        core::mem::swap(self, &mut cur);
        match cur {
            Node::Accept(_) => {
                proof {
                    assert(false);
                }
            },
            Node::Mid(mut edges) => {
                let ghost ev0 = edges@;
                let mut j: usize = 0;
                #[verifier::loop_isolation(false)]
                while j < edges.len() && edges[j].0 != c
                    invariant
                        j <= ev0.len(),
                        edges@ == ev0,
                        forall|jj: int| 0 <= jj < j ==> (#[trigger] ev0[jj]).0 != c,
                    decreases ev0.len() - j,
                {
                    j += 1;
                }
                if j < edges.len() {
                    proof {
                        lemma_edge_first(ev0, j as int, c);
                        assert(can_add(ev0[j as int].1, p.skip(1)));
                    }
                    let mut pair = edges.remove(j);
                    pair.1.add(pat, i + 1, action);
                    let ghost child1 = pair.1;
                    edges.insert(j, pair);
                    proof {
                        assert(edges@ =~= ev0.update(j as int, (c, child1)));
                    }
                    *self = Node::Mid(edges);
                    proof {
                        assert forall|s: Seq<u8>| #[trigger] lookup(*self, s) == (if is_prefix(
                            p,
                            s,
                        ) {
                            Option::Some(action)
                        } else {
                            lookup(*old(self), s)
                        }) by {
                            if s.len() > 0 {
                                lemma_edge_update(ev0, j as int, c, child1, s[0]);
                                if s[0] == c {
                                    assert(lookup(child1, s.skip(1)) == if is_prefix(
                                        pat@.skip(i + 1),
                                        s.skip(1),
                                    ) {
                                        Option::Some(action)
                                    } else {
                                        lookup(ev0[j as int].1, s.skip(1))
                                    });
                                }
                            }
                        }
                        assert forall|q: Seq<u8>|
                            can_add(*old(self), q) && !is_prefix(q, p) && !is_prefix(
                                p,
                                q,
                            ) implies #[trigger] can_add(*self, q) by {
                            if q.len() > 0 {
                                lemma_edge_update(ev0, j as int, c, child1, q[0]);
                                if q[0] == c {
                                    assert(can_add(ev0[j as int].1, q.skip(1)));
                                    assert(!is_prefix(q.skip(1), pat@.skip(i + 1)));
                                    assert(!is_prefix(pat@.skip(i + 1), q.skip(1)));
                                    assert(can_add(child1, q.skip(1)));
                                }
                            }
                        }
                    }
                } else {
                    proof {
                        lemma_edge_none(ev0, c);
                    }
                    let child = new(pat, i + 1, action);
                    let ghost childv = child;
                    edges.push((c, child));
                    *self = Node::Mid(edges);
                    proof {
                        assert forall|s: Seq<u8>| #[trigger] lookup(*self, s) == (if is_prefix(
                            p,
                            s,
                        ) {
                            Option::Some(action)
                        } else {
                            lookup(*old(self), s)
                        }) by {
                            if s.len() > 0 {
                                lemma_edge_push(ev0, c, childv, s[0]);
                                if s[0] == c {
                                    assert(lookup(childv, s.skip(1)) == if is_prefix(
                                        pat@.skip(i + 1),
                                        s.skip(1),
                                    ) {
                                        Option::Some(action)
                                    } else {
                                        Option::<u8>::None
                                    });
                                }
                            }
                        }
                        assert forall|q: Seq<u8>|
                            can_add(*old(self), q) && !is_prefix(q, p) && !is_prefix(
                                p,
                                q,
                            ) implies #[trigger] can_add(*self, q) by {
                            if q.len() > 0 {
                                lemma_edge_push(ev0, c, childv, q[0]);
                                if q[0] == c {
                                    assert(!is_prefix(q.skip(1), pat@.skip(i + 1)));
                                    assert(!is_prefix(pat@.skip(i + 1), q.skip(1)));
                                    assert(can_add(childv, q.skip(1)));
                                }
                            }
                        }
                    }
                }
            },
        }
    }
}

/// Walk the trie over `input` from position `i`, one edge per byte.
#[verifier::rlimit(30)]
fn test_from(node: &Node, input: &Vec<u8>, i: usize) -> (r: Option<u8>)
    requires
        i <= input@.len(),
    ensures
        r == lookup(*node, input@.skip(i as int)),
    decreases input@.len() - i,
{
    match node {
        Node::Accept(a) => Option::Some(*a),
        Node::Mid(edges) => {
            if i == input.len() {
                proof {
                    assert(input@.skip(i as int).len() == 0);
                }
                return Option::None;
            }
            let b = input[i];
            proof {
                assert(input@.skip(i as int)[0] == b);
                assert(input@.skip(i as int).skip(1) =~= input@.skip(i + 1));
            }
            let mut j: usize = 0;
            proof {
                assert(edges@.skip(0) =~= edges@);
            }
            #[verifier::loop_isolation(false)]
            while j < edges.len()
                invariant
                    j <= edges@.len(),
                    edge_for(edges@, b) == edge_for(edges@.skip(j as int), b),
                decreases edges@.len() - j,
            {
                proof {
                    assert(edges@.skip(j as int)[0] == edges@[j as int]);
                }
                if edges[j].0 == b {
                    proof {
                        assert(edge_for(edges@.skip(j as int), b) == Option::Some(
                            edges@[j as int].1,
                        ));
                    }
                    return test_from(&edges[j].1, input, i + 1);
                }
                j += 1;
                proof {
                    assert(edges@.skip(j - 1).skip(1) =~= edges@.skip(j as int));
                }
            }
            proof {
                assert(edges@.skip(j as int).len() == 0);
            }
            Option::None
        },
    }
}

/// Decide which pattern `input` starts with: the action of the first
/// accepting node reached, or nothing when the trie rejects it.
pub fn test(start: &Node, input: &Vec<u8>) -> (r: Option<u8>)
    ensures
        r == lookup(*start, input@),
{
    proof {
        assert(input@.skip(0) =~= input@);
    }
    test_from(start, input, 0)
}

} // verus!
