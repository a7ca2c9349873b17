use vstd::prelude::*;
use crate::transform::TransformId;

verus! {

/// A node's links: parent, first child, last child, next sibling, previous sibling.
pub type Links = (Option<TransformId>, Option<TransformId>, Option<TransformId>, Option<TransformId>, Option<TransformId>);

pub open spec fn tid(i: int) -> TransformId {
    TransformId { index: i as usize }
}

pub open spec fn first_of(c: Seq<TransformId>) -> Option<TransformId> {
    if c.len() == 0 { None } else { Some(c[0]) }
}

pub open spec fn last_of(c: Seq<TransformId>) -> Option<TransformId> {
    if c.len() == 0 { None } else { Some(c.last()) }
}

/// Node `i` agrees with the child lists `ch`: its parent lists it, a root has no
/// siblings, and its first and last child are those of its own list.
#[verifier::opaque]
pub open spec fn node_ok(ls: Seq<Links>, ch: Seq<Seq<TransformId>>, i: int) -> bool {
    let n = ls[i];
    &&& (n.0 matches Some(q) ==> 0 <= q.index < ls.len() && ch[q.index as int].contains(tid(i)))
    &&& (n.0 is None ==> n.3 is None && n.4 is None)
    &&& n.1 == first_of(ch[i])
    &&& n.2 == last_of(ch[i])
    &&& ch[i].no_duplicates()
}

/// The `k`-th child of `p` names `p` as its parent and its neighbours in the
/// list as its siblings.
#[verifier::opaque]
pub open spec fn entry_ok(ls: Seq<Links>, ch: Seq<Seq<TransformId>>, p: int, k: int) -> bool {
    let e = ch[p][k];
    &&& 0 <= e.index < ls.len()
    &&& ls[e.index as int].0 == Some(tid(p))
    &&& ls[e.index as int].4 == (if k == 0 { None } else { Some(ch[p][k - 1]) })
    &&& ls[e.index as int].3 == (if k + 1 == ch[p].len() { None } else { Some(ch[p][k + 1]) })
}

/// Every child list is a doubly linked list, reachable from its parent's first
/// child by next-sibling links, and holds exactly the nodes that name that parent.
pub open spec fn links_ok(ls: Seq<Links>, ch: Seq<Seq<TransformId>>) -> bool {
    &&& ch.len() == ls.len()
    &&& forall|i: int| 0 <= i < ls.len() ==> #[trigger] node_ok(ls, ch, i)
    &&& forall|p: int, k: int| 0 <= p < ls.len() && 0 <= k < ch[p].len() ==> #[trigger] entry_ok(ls, ch, p, k)
}

pub open spec fn with_next(x: Links, v: Option<TransformId>) -> Links {
    (x.0, x.1, x.2, v, x.4)
}

pub open spec fn with_prev(x: Links, v: Option<TransformId>) -> Links {
    (x.0, x.1, x.2, x.3, v)
}

pub open spec fn with_first(x: Links, v: Option<TransformId>) -> Links {
    (x.0, v, x.2, x.3, x.4)
}

pub open spec fn with_last(x: Links, v: Option<TransformId>) -> Links {
    (x.0, x.1, v, x.3, x.4)
}

/// The links after `c` is spliced at the end of `p`'s children.
pub open spec fn attach_links(ls: Seq<Links>, c: TransformId, p: TransformId) -> Seq<Links> {
    let last = ls[p.index as int].2;
    let a = match last {
        Some(l) => if l.index < ls.len() { ls.update(l.index as int, with_next(ls[l.index as int], Some(c))) } else { ls },
        None => ls.update(p.index as int, with_first(ls[p.index as int], Some(c))),
    };
    let b = a.update(p.index as int, with_last(a[p.index as int], Some(c)));
    b.update(c.index as int, (Some(p), b[c.index as int].1, b[c.index as int].2, None, last))
}

/// Splicing a root `c` at the end of `p`'s children keeps every child list
/// linked, provided `p` is not its own parent.
pub proof fn lemma_attach_links(ls: Seq<Links>, ch: Seq<Seq<TransformId>>, c: TransformId, p: TransformId)
    requires
        links_ok(ls, ch),
        ls.len() <= usize::MAX,
        c.index < ls.len(),
        p.index < ls.len(),
        c != p,
        ls[c.index as int].0 is None,
        ls[p.index as int].0 != Some(p),
    ensures
        links_ok(attach_links(ls, c, p), ch.update(p.index as int, ch[p.index as int].push(c))),
{
    let ls2 = attach_links(ls, c, p);
    let ch2 = ch.update(p.index as int, ch[p.index as int].push(c));
    let ci = c.index as int;
    let pi = p.index as int;
    let cl = ch[pi];
    assert(tid(ci) == c && tid(pi) == p);
    reveal(node_ok);
    reveal(entry_ok);
    assert(node_ok(ls, ch, ci) && node_ok(ls, ch, pi));
    assert(!cl.contains(c)) by {
        if cl.contains(c) {
            let k = choose|k: int| 0 <= k < cl.len() && cl[k] == c;
            assert(entry_ok(ls, ch, pi, k));
        }
    }
    if cl.len() > 0 {
        assert(entry_ok(ls, ch, pi, cl.len() - 1));
        let l = cl.last();
        assert(l.index != ci);
        assert(l.index != pi);
    }
    assert(ch2[pi].no_duplicates()) by {
        assert forall|a: int, b: int| 0 <= a < b < ch2[pi].len() implies ch2[pi][a] != ch2[pi][b] by {
            assert(ch2[pi][a] == cl[a]);
            if b == cl.len() {
                assert(ch2[pi][b] == c);
            } else {
                assert(ch2[pi][b] == cl[b]);
            }
        }
    }
    assert forall|i: int| 0 <= i < ls2.len() implies #[trigger] node_ok(ls2, ch2, i) by {
        assert(node_ok(ls, ch, i));
        if i != pi {
            assert(ch2[i] == ch[i]);
        }
        if let Some(q) = ls2[i].0 {
            if i != ci && q.index == pi {
                let k = choose|k: int| 0 <= k < cl.len() && cl[k] == tid(i);
                assert(ch2[pi][k] == tid(i));
            } else if i == ci {
                assert(ch2[pi][cl.len() as int] == c);
            }
        }
        if i == pi && cl.len() > 0 {
            assert(ch2[pi][0] == cl[0]);
        }
    }
    assert forall|q: int, k: int| 0 <= q < ls2.len() && 0 <= k < ch2[q].len() implies #[trigger] entry_ok(ls2, ch2, q, k) by {
        if q == pi && k == cl.len() {
            if k > 0 {
                assert(ch2[q][k - 1] == cl.last());
            }
        } else {
            assert(entry_ok(ls, ch, q, k));
            let e = ch[q][k];
            assert(ch2[q][k] == e);
            assert(e.index != ci);
            if k > 0 {
                assert(ch2[q][k - 1] == ch[q][k - 1]);
            }
            if k + 1 < ch[q].len() {
                assert(ch2[q][k + 1] == ch[q][k + 1]);
            }
            if q == pi && k + 1 == cl.len() {
                assert(ch2[q][k + 1] == c);
            }
        }
    }
}

/// The links after `n` is taken out of its parent's children.
pub open spec fn detach_links(ls: Seq<Links>, n: TransformId) -> Seq<Links> {
    let prev = ls[n.index as int].4;
    let next = ls[n.index as int].3;
    let l1 = match prev {
        Some(p) => if p.index < ls.len() { ls.update(p.index as int, with_next(ls[p.index as int], next)) } else { ls },
        None => ls,
    };
    let l2 = match next {
        Some(q) => if q.index < ls.len() { l1.update(q.index as int, with_prev(l1[q.index as int], prev)) } else { l1 },
        None => l1,
    };
    let l3 = match l2[n.index as int].0 {
        Some(q) => if q.index < ls.len() {
            let a = if l2[q.index as int].1 == Some(n) { with_first(l2[q.index as int], next) } else { l2[q.index as int] };
            let b = if a.2 == Some(n) { with_last(a, prev) } else { a };
            l2.update(q.index as int, b)
        } else {
            l2
        },
        None => l2,
    };
    l3.update(n.index as int, (None, l3[n.index as int].1, l3[n.index as int].2, None, None))
}

/// The child lists after `n` is taken out of its parent's.
/// `k` is where `n` stands in its parent's list.
pub open spec fn detach_children(ls: Seq<Links>, ch: Seq<Seq<TransformId>>, n: TransformId, k: int) -> Seq<Seq<TransformId>> {
    match ls[n.index as int].0 {
        Some(q) => ch.update(q.index as int, ch[q.index as int].remove(k)),
        None => ch,
    }
}

/// Taking `n` out of its parent's children keeps every child list linked,
/// provided no node is its own parent.
pub proof fn lemma_detach_links(ls: Seq<Links>, ch: Seq<Seq<TransformId>>, n: TransformId, k: int)
    requires
        links_ok(ls, ch),
        ls.len() <= usize::MAX,
        n.index < ls.len(),
        forall|i: int| 0 <= i < ls.len() ==> ls[i].0 != Some(tid(i)),
        ls[n.index as int].0 matches Some(q) ==> 0 <= k < ch[q.index as int].len() && ch[q.index as int][k] == n,
    ensures
        links_ok(detach_links(ls, n), detach_children(ls, ch, n, k)),
{
    reveal(node_ok);
    reveal(entry_ok);
    let ni = n.index as int;
    assert(tid(ni) == n);
    assert(node_ok(ls, ch, ni));
    let ls2 = detach_links(ls, n);
    let ch2 = detach_children(ls, ch, n, k);
    match ls[ni].0 {
        None => {
            assert(ls2 =~= ls);
            assert(ch2 == ch);
        },
        Some(q) => {
            let qi = q.index as int;
            assert(tid(qi) == q);
            let c = ch[qi];
            let c2 = c.remove(k);
            assert(ch2 == ch.update(qi, c2));
            assert(entry_ok(ls, ch, qi, k));
            assert(node_ok(ls, ch, qi));
            assert(qi != ni);
            assert forall|j: int| 0 <= j < c2.len() implies #[trigger] c2[j] == (if j < k { c[j] } else { c[j + 1] }) by {}
            if k > 0 {
                assert(entry_ok(ls, ch, qi, k - 1));
                assert(c[k - 1] != n);
                assert(c[k - 1].index != qi);
            }
            if k + 1 < c.len() {
                assert(entry_ok(ls, ch, qi, k + 1));
                assert(c[k + 1] != n);
                assert(c[k + 1].index != qi);
                if k > 0 {
                    assert(c[k + 1] != c[k - 1]);
                }
            }
            assert(c2.no_duplicates()) by {
                assert forall|a: int, b: int| 0 <= a < b < c2.len() implies c2[a] != c2[b] by {
                    assert(c2[a] == (if a < k { c[a] } else { c[a + 1] }));
                    assert(c2[b] == (if b < k { c[b] } else { c[b + 1] }));
                }
            }
            assert forall|i: int| 0 <= i < ls2.len() implies #[trigger] node_ok(ls2, ch2, i) by {
                assert(node_ok(ls, ch, i));
                if i != qi {
                    assert(ch2[i] == ch[i]);
                }
                if i == qi {
                    if c2.len() > 0 {
                        assert(c2[0] == (if 0 < k { c[0] } else { c[1] }));
                        assert(c2.last() == (if c2.len() - 1 < k { c[c2.len() - 1] } else { c[c2.len() as int] }));
                    }
                }
                if i != ni {
                    if let Some(r) = ls2[i].0 {
                        assert(ls[i].0 == Some(r));
                        if r.index == qi {
                            let j = choose|j: int| 0 <= j < c.len() && c[j] == tid(i);
                            assert(j != k);
                            if j < k {
                                assert(c2[j] == tid(i));
                            } else {
                                assert(c2[j - 1] == tid(i));
                            }
                        }
                    }
                }
            }
            assert forall|r: int, j: int| 0 <= r < ls2.len() && 0 <= j < ch2[r].len() implies #[trigger] entry_ok(ls2, ch2, r, j) by {
                if r != qi {
                    assert(entry_ok(ls, ch, r, j));
                    assert(ch2[r] == ch[r]);
                    let e = ch[r][j];
                    assert(e.index != ni);
                    if k > 0 {
                        assert(e != c[k - 1]);
                    }
                    if k + 1 < c.len() {
                        assert(e != c[k + 1]);
                    }
                } else {
                    let oj = if j < k { j } else { j + 1 };
                    assert(entry_ok(ls, ch, qi, oj));
                    assert(c2[j] == c[oj]);
                    if j > 0 {
                        assert(c2[j - 1] == (if j - 1 < k { c[j - 1] } else { c[j] }));
                    }
                    if j + 1 < c2.len() {
                        assert(c2[j + 1] == (if j + 1 < k { c[j + 1] } else { c[j + 2] }));
                    }
                    assert(c[oj] != n);
                }
            }
        },
    }
}

/// A new detached node keeps every child list linked.
pub proof fn lemma_links_push(ls: Seq<Links>, ch: Seq<Seq<TransformId>>)
    requires
        links_ok(ls, ch),
    ensures
        links_ok(ls.push((None, None, None, None, None)), ch.push(Seq::empty())),
{
    reveal(node_ok);
    reveal(entry_ok);
    let ls2 = ls.push((None, None, None, None, None));
    let ch2 = ch.push(Seq::<TransformId>::empty());
    assert forall|i: int| 0 <= i < ls2.len() implies #[trigger] node_ok(ls2, ch2, i) by {
        if i < ls.len() {
            assert(node_ok(ls, ch, i));
            assert(ls2[i] == ls[i] && ch2[i] == ch[i]);
            if let Some(q) = ls[i].0 {
                assert(ch2[q.index as int] == ch[q.index as int]);
            }
        } else {
            assert(ch2[i] == Seq::<TransformId>::empty());
        }
    }
    assert forall|p: int, k: int| 0 <= p < ls2.len() && 0 <= k < ch2[p].len() implies #[trigger] entry_ok(ls2, ch2, p, k) by {
        assert(p < ls.len());
        assert(entry_ok(ls, ch, p, k));
        assert(ch2[p] == ch[p]);
        assert(ls2[ch[p][k].index as int] == ls[ch[p][k].index as int]);
    }
}

} // verus!
