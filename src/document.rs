//! The cache document: a tree of string-keyed tables whose leaves are cached strings.

use vstd::prelude::*;

verus! {

/// One value of the cache document.
#[derive(Debug, PartialEq, Eq)]
pub enum Node {
    /// A cached string.
    Text(String),
    /// A non-negative integer, such as the format version.
    Unsigned(u64),
    /// A table from segment to value, in insertion order.
    Table(Vec<(String, Node)>),
    /// Any other value, kept as its serialized text so that it is written back unchanged.
    Other(String),
}

/// Position of the first entry of `e` whose segment is `k`, or -1.
pub open spec fn key_index(e: Seq<(String, Node)>, k: Seq<char>) -> int
    decreases e.len(),
{
    if e.len() == 0 {
        -1
    } else if e[0].0@ == k {
        0
    } else {
        let r = key_index(e.drop_first(), k);
        if r < 0 {
            -1
        } else {
            r + 1
        }
    }
}

/// The node reached from the table `e` by following the segments of `p`.
pub open spec fn node_at(e: Seq<(String, Node)>, p: Seq<Seq<char>>) -> Option<Node>
    decreases p.len(),
{
    if p.len() == 0 {
        None
    } else {
        let i = key_index(e, p[0]);
        if i < 0 {
            None
        } else if p.len() == 1 {
            Some(e[i].1)
        } else {
            match e[i].1 {
                Node::Table(sub) => node_at(sub@, p.drop_first()),
                _ => None,
            }
        }
    }
}

/// The string cached at `p`: present only where `p` leads to a string leaf.
pub open spec fn value_at(e: Seq<(String, Node)>, p: Seq<Seq<char>>) -> Option<Seq<char>> {
    match node_at(e, p) {
        Some(Node::Text(s)) => Some(s@),
        _ => None,
    }
}

/// Whether `p` leads to a table.
pub open spec fn table_at(e: Seq<(String, Node)>, p: Seq<Seq<char>>) -> bool {
    node_at(e, p) matches Some(Node::Table(_))
}

/// Whether every segment of `p` that exists in the tree holds a table, so that a walk
/// along `p` never meets a leaf.
pub open spec fn open_path(e: Seq<(String, Node)>, p: Seq<Seq<char>>) -> bool
    decreases p.len(),
{
    if p.len() == 0 {
        true
    } else {
        let i = key_index(e, p[0]);
        if i < 0 {
            true
        } else {
            match e[i].1 {
                Node::Table(sub) => open_path(sub@, p.drop_first()),
                _ => false,
            }
        }
    }
}

pub open spec fn is_prefix(a: Seq<Seq<char>>, b: Seq<Seq<char>>) -> bool {
    a.len() <= b.len() && b.subrange(0, a.len() as int) == a
}

/// What a store of `v` at `k` leaves in the tree `after`, given the tree `before`: the
/// leaf at `k`, tables on the way to it, nothing below it, and everything else as it was.
pub open spec fn stored(
    before: Seq<(String, Node)>,
    k: Seq<Seq<char>>,
    v: Seq<char>,
    after: Seq<(String, Node)>,
) -> bool {
    &&& value_at(after, k) == Some(v)
    &&& forall|q: Seq<Seq<char>>|
        !is_prefix(q, k) && !is_prefix(k, q) ==> #[trigger] node_at(after, q) == node_at(before, q)
    &&& forall|q: Seq<Seq<char>>|
        is_prefix(k, q) && q != k ==> #[trigger] node_at(after, q) is None
    &&& forall|q: Seq<Seq<char>>|
        is_prefix(q, k) && q != k && q.len() >= 1 ==> #[trigger] table_at(after, q)
}

/// What a lookup walk along `k` leaves in the tree: every cached value as it was, every
/// node off the walk (any path that is not a prefix of `k` without its last segment) as it
/// was, and, where no leaf blocks the way, a table at each proper prefix of `k`.
pub open spec fn walked(before: Seq<(String, Node)>, k: Seq<Seq<char>>, after: Seq<(String, Node)>) -> bool {
    &&& forall|q: Seq<Seq<char>>| #[trigger] value_at(after, q) == value_at(before, q)
    &&& forall|q: Seq<Seq<char>>|
        !is_prefix(q, k.drop_last()) ==> #[trigger] node_at(after, q) == node_at(before, q)
    &&& open_path(before, k.drop_last()) ==> forall|j: int|
        1 <= j < k.len() ==> #[trigger] table_at(after, k.subrange(0, j))
    &&& !open_path(before, k.drop_last()) ==> after == before
}

/// `key_index` points at the first entry with the segment, or is -1 where none has it.
pub(crate) proof fn lemma_key_index(e: Seq<(String, Node)>, k: Seq<char>)
    ensures
        -1 <= key_index(e, k) < e.len(),
        key_index(e, k) >= 0 ==> e[key_index(e, k)].0@ == k,
        forall|j: int| 0 <= j < key_index(e, k) ==> e[j].0@ != k,
        key_index(e, k) < 0 ==> forall|j: int| 0 <= j < e.len() ==> e[j].0@ != k,
    decreases e.len(),
{
    if e.len() > 0 && e[0].0@ != k {
        lemma_key_index(e.drop_first(), k);
        assert forall|j: int| 1 <= j < e.len() implies e[j].0@ == e.drop_first()[j - 1].0@ by {}
    }
}

/// `key_index` is determined by where the segment first occurs.
pub(crate) proof fn lemma_key_index_by_first(e: Seq<(String, Node)>, k: Seq<char>, i: int)
    requires
        -1 <= i < e.len(),
        i >= 0 ==> e[i].0@ == k,
        forall|j: int| 0 <= j < e.len() && (i < 0 || j < i) ==> e[j].0@ != k,
    ensures
        key_index(e, k) == i,
{
    lemma_key_index(e, k);
}

/// Replacing the node of one entry, under the same segment, moves no segment.
pub(crate) proof fn lemma_key_index_update(e: Seq<(String, Node)>, i: int, entry: (String, Node), k: Seq<char>)
    requires
        0 <= i < e.len(),
        entry.0@ == e[i].0@,
    ensures
        key_index(e.update(i, entry), k) == key_index(e, k),
{
    lemma_key_index(e, k);
    lemma_key_index_by_first(e.update(i, entry), k, key_index(e, k));
}

/// Appending an entry under a fresh segment moves no other segment.
pub(crate) proof fn lemma_key_index_push(e: Seq<(String, Node)>, entry: (String, Node), k: Seq<char>)
    requires
        key_index(e, entry.0@) < 0,
    ensures
        key_index(e.push(entry), k) == if k == entry.0@ { e.len() as int } else { key_index(e, k) },
{
    lemma_key_index(e, k);
    lemma_key_index(e, entry.0@);
    if k == entry.0@ {
        lemma_key_index_by_first(e.push(entry), k, e.len() as int);
    } else {
        lemma_key_index_by_first(e.push(entry), k, key_index(e, k));
    }
}

/// An empty table holds nothing.
pub(crate) proof fn lemma_empty_table(q: Seq<Seq<char>>)
    ensures
        node_at(Seq::<(String, Node)>::empty(), q) is None,
        open_path(Seq::<(String, Node)>::empty(), q),
{
}

/// Two paths that agree on their first segment relate as their tails do.
pub(crate) proof fn lemma_prefix_step(a: Seq<Seq<char>>, b: Seq<Seq<char>>)
    requires
        a.len() >= 1,
        b.len() >= 1,
        a[0] == b[0],
    ensures
        is_prefix(a, b) <==> is_prefix(a.drop_first(), b.drop_first()),
        (a == b) <==> (a.drop_first() == b.drop_first()),
{
    if is_prefix(a.drop_first(), b.drop_first()) {
        assert forall|j: int| 1 <= j < a.len() implies b[j] == a[j] by {
            assert(b.drop_first().subrange(0, a.drop_first().len() as int)[j - 1] == b[j]);
        }
        assert(b.subrange(0, a.len() as int) =~= a);
    }
    if is_prefix(a, b) {
        assert(b.drop_first().subrange(0, a.drop_first().len() as int) =~= a.drop_first());
    }
    if a.drop_first() == b.drop_first() {
        assert forall|j: int| 1 <= j < a.len() implies b[j] == a[j] by {
            assert(a.drop_first()[j - 1] == b.drop_first()[j - 1]);
        }
        assert(a =~= b);
    }
}

/// Paths whose first segments differ are not prefixes of each other.
pub proof fn lemma_prefix_head(a: Seq<Seq<char>>, b: Seq<Seq<char>>)
    requires
        a.len() >= 1,
        b.len() >= 1,
        is_prefix(a, b),
    ensures
        a[0] == b[0],
{
    assert(b.subrange(0, a.len() as int)[0] == b[0]);
}

/// `after` is `before` with the entry of segment `s` holding `n`, the entry added at the end
/// if `s` was absent, and every other segment where it was.
pub(crate) open spec fn placed(before: Seq<(String, Node)>, after: Seq<(String, Node)>, s: Seq<char>, n: Node) -> bool {
    &&& key_index(after, s) >= 0
    &&& after[key_index(after, s)].1 == n
    &&& forall|t: Seq<char>|
        t != s ==> #[trigger] key_index(after, t) == key_index(before, t) && (key_index(before, t) >= 0
            ==> after[key_index(before, t)] == before[key_index(before, t)])
}

pub(crate) proof fn lemma_placed_update(e: Seq<(String, Node)>, i: int, entry: (String, Node))
    requires
        0 <= i < e.len(),
        key_index(e, entry.0@) == i,
    ensures
        placed(e, e.update(i, entry), entry.0@, entry.1),
{
    lemma_key_index(e, entry.0@);
    lemma_key_index_update(e, i, entry, entry.0@);
    assert forall|t: Seq<char>| t != entry.0@ implies #[trigger] key_index(e.update(i, entry), t)
        == key_index(e, t) && (key_index(e, t) >= 0 ==> e.update(i, entry)[key_index(e, t)] == e[key_index(e, t)]) by {
        lemma_key_index_update(e, i, entry, t);
        lemma_key_index(e, t);
    }
}

pub(crate) proof fn lemma_placed_push(e: Seq<(String, Node)>, entry: (String, Node))
    requires
        key_index(e, entry.0@) < 0,
    ensures
        placed(e, e.push(entry), entry.0@, entry.1),
{
    lemma_key_index_push(e, entry, entry.0@);
    assert forall|t: Seq<char>| t != entry.0@ implies #[trigger] key_index(e.push(entry), t)
        == key_index(e, t) && (key_index(e, t) >= 0 ==> e.push(entry)[key_index(e, t)] == e[key_index(e, t)]) by {
        lemma_key_index_push(e, entry, t);
        lemma_key_index(e, t);
    }
}

/// Placing a node under one segment leaves every path that starts elsewhere as it was.
pub(crate) proof fn lemma_placed_elsewhere(
    before: Seq<(String, Node)>,
    after: Seq<(String, Node)>,
    s: Seq<char>,
    n: Node,
    q: Seq<Seq<char>>,
)
    requires
        placed(before, after, s, n),
        q.len() >= 1,
        q[0] != s,
    ensures
        node_at(after, q) == node_at(before, q),
        open_path(after, q) == open_path(before, q),
{
    assert(key_index(after, q[0]) == key_index(before, q[0]));
}

pub(crate) proof fn lemma_placed_trans(
    a: Seq<(String, Node)>,
    b: Seq<(String, Node)>,
    c: Seq<(String, Node)>,
    s: Seq<char>,
    m: Node,
    n: Node,
)
    requires
        placed(a, b, s, m),
        placed(b, c, s, n),
    ensures
        placed(a, c, s, n),
{
    assert forall|t: Seq<char>| t != s implies #[trigger] key_index(c, t) == key_index(a, t) && (key_index(a, t)
        >= 0 ==> c[key_index(a, t)] == a[key_index(a, t)]) by {
        assert(key_index(b, t) == key_index(a, t));
        assert(key_index(c, t) == key_index(b, t));
    }
}

/// Position of the first entry of `e` with segment `k`.
pub(crate) fn find_key(e: &Vec<(String, Node)>, k: &String) -> (r: Option<usize>)
    ensures
        match r {
            Some(i) => key_index(e@, k@) == i as int,
            None => key_index(e@, k@) < 0,
        },
{
    let mut i: usize = 0;
    while i < e.len()
        invariant
            0 <= i <= e@.len(),
            forall|j: int| 0 <= j < i ==> e@[j].0@ != k@,
        decreases e@.len() - i,
    {
        if e[i].0 == *k {
            proof {
                lemma_key_index_by_first(e@, k@, i as int);
            }
            return Some(i);
        }
        i += 1;
    }
    proof {
        lemma_key_index_by_first(e@, k@, -1);
    }
    None
}

/// Puts `n` under segment `s` of the table `e`, replacing the entry of that segment or
/// appending one.
fn place(e: &mut Vec<(String, Node)>, at: Option<usize>, s: &String, n: Node)
    requires
        match at {
            Some(i) => key_index(old(e)@, s@) == i as int,
            None => key_index(old(e)@, s@) < 0,
        },
    ensures
        placed(old(e)@, final(e)@, s@, n),
{
    proof {
        lemma_key_index(old(e)@, s@);
    }
    match at {
        Some(i) => {
            let entry = (s.clone(), n);
            proof {
                lemma_placed_update(e@, i as int, entry);
            }
            e.set(i, entry);
        },
        None => {
            let entry = (s.clone(), n);
            proof {
                lemma_placed_push(e@, entry);
            }
            e.push(entry);
        },
    }
}

/// The path of `path` from segment `depth` on.
pub open spec fn tail_of(path: Seq<String>, depth: int) -> Seq<Seq<char>> {
    crate::key::key_view(path).subrange(depth, path.len() as int)
}

/// Stores `value` at the tail of `path` from `depth` in the table `e`, creating tables on
/// the way and replacing any leaf that stands in the way.
pub(crate) fn store_at(e: &mut Vec<(String, Node)>, path: &Vec<String>, depth: usize, value: String)
    requires
        depth < path@.len(),
    ensures
        stored(old(e)@, tail_of(path@, depth as int), value@, final(e)@),
    decreases path@.len() - depth,
{
    let ghost k = tail_of(path@, depth as int);
    let ghost before = e@;
    let ghost v = value@;
    assert(k[0] == path@[depth as int]@);
    let found = find_key(e, &path[depth]);
    proof {
        lemma_key_index(before, k[0]);
    }
    if depth == path.len() - 1 {
        place(e, found, &path[depth], Node::Text(value));
        proof {
            let after = e@;
            assert forall|q: Seq<Seq<char>>|
                !is_prefix(q, k) && !is_prefix(k, q) implies #[trigger] node_at(after, q) == node_at(before, q) by {
                if q.len() >= 1 && q[0] == k[0] {
                    if q.len() == 1 {
                        assert(k.subrange(0, 1) =~= q);
                    } else {
                        assert(q.subrange(0, 1) =~= k);
                    }
                }
                if q.len() >= 1 {
                    lemma_placed_elsewhere(before, after, k[0], Node::Text(value), q);
                }
            }
            assert forall|q: Seq<Seq<char>>| is_prefix(k, q) && q != k implies #[trigger] node_at(after, q) is None by {
                lemma_prefix_head(k, q);
                if q.len() == 1 {
                    assert(q =~= k);
                }
            }
            assert forall|q: Seq<Seq<char>>| is_prefix(q, k) && q != k && q.len() >= 1 implies #[trigger] table_at(after, q) by {
                assert(q =~= k);
            }
        }
    } else {
        let mut sub: Vec<(String, Node)> = Vec::new();
        match found {
            Some(i) => {
                let mut entry = (String::new(), Node::Table(Vec::new()));
                e.set_and_swap(i, &mut entry);
                let (seg, node) = entry;
                if let Node::Table(v) = node {
                    sub = v;
                }
                let cleared = (seg, Node::Table(Vec::new()));
                proof {
                    lemma_key_index_update(before, i as int, cleared, k[0]);
                    lemma_placed_update(before, i as int, cleared);
                }
                e.set(i, cleared);
                proof {
                    assert(e@ =~= before.update(i as int, cleared));
                }
            },
            None => {},
        }
        let ghost middle = e@;
        let ghost sub_before = sub@;
        proof {
            assert forall|q: Seq<Seq<char>>| q.len() >= 2 && q[0] == k[0] implies node_at(before, q)
                == #[trigger] node_at(sub_before, q.drop_first()) by {
                lemma_empty_table(q.drop_first());
            }
        }
        store_at(&mut sub, path, depth + 1, value);
        let ghost sub_after = sub@;
        assert(tail_of(path@, depth + 1) =~= k.drop_first());
        place(e, found, &path[depth], Node::Table(sub));
        proof {
            let after = e@;
            let n = after[key_index(after, k[0])].1;
            if let Some(i) = found {
                lemma_placed_trans(before, middle, after, k[0], middle[i as int].1, n);
            }
            assert(node_at(after, k) == node_at(sub_after, k.drop_first()));
            assert forall|q: Seq<Seq<char>>|
                !is_prefix(q, k) && !is_prefix(k, q) implies #[trigger] node_at(after, q) == node_at(before, q) by {
                if q.len() >= 1 && q[0] == k[0] {
                    if q.len() == 1 {
                        assert(k.subrange(0, 1) =~= q);
                    } else {
                        lemma_prefix_step(q, k);
                        lemma_prefix_step(k, q);
                        assert(node_at(after, q) == node_at(sub_after, q.drop_first()));
                        assert(node_at(before, q) == node_at(sub_before, q.drop_first()));
                    }
                }
                if q.len() >= 1 && q[0] != k[0] {
                    lemma_placed_elsewhere(before, after, k[0], n, q);
                }
                if q.len() == 0 {
                    assert(k.subrange(0, 0) =~= q);
                }
            }
            assert forall|q: Seq<Seq<char>>| is_prefix(k, q) && q != k implies #[trigger] node_at(after, q) is None by {
                lemma_prefix_head(k, q);
                lemma_prefix_step(k, q);
                assert(node_at(after, q) == node_at(sub_after, q.drop_first()));
            }
            assert forall|q: Seq<Seq<char>>| is_prefix(q, k) && q != k && q.len() >= 1 implies #[trigger] table_at(after, q) by {
                lemma_prefix_head(q, k);
                if q.len() >= 2 {
                    lemma_prefix_step(q, k);
                    assert(node_at(after, q) == node_at(sub_after, q.drop_first()));
                    assert(table_at(sub_after, q.drop_first()));
                }
            }
        }
    }
}

/// The model of an optional string.
pub open spec fn opt_view(r: Option<String>) -> Option<Seq<char>> {
    match r {
        Some(s) => Some(s@),
        None => None,
    }
}

/// Reads the string at the tail of `path` from `depth` in the table `e`, leaving the tree
/// untouched.
pub(crate) fn peek_at(e: &Vec<(String, Node)>, path: &Vec<String>, depth: usize) -> (r: Option<String>)
    requires
        depth < path@.len(),
    ensures
        opt_view(r) == value_at(e@, tail_of(path@, depth as int)),
    decreases path@.len() - depth,
{
    let ghost k = tail_of(path@, depth as int);
    assert(k[0] == path@[depth as int]@);
    let found = find_key(e, &path[depth]);
    proof {
        lemma_key_index(e@, k[0]);
    }
    match found {
        None => None,
        Some(i) => {
            if depth == path.len() - 1 {
                match &e[i].1 {
                    Node::Text(s) => Some(s.clone()),
                    _ => None,
                }
            } else {
                assert(tail_of(path@, depth + 1) =~= k.drop_first());
                match &e[i].1 {
                    Node::Table(sub) => peek_at(sub, path, depth + 1),
                    _ => None,
                }
            }
        },
    }
}

/// Whether a walk along the tail of `path` from `depth`, last segment left out, meets no
/// leaf in the table `e`.
pub(crate) fn open_at(e: &Vec<(String, Node)>, path: &Vec<String>, depth: usize) -> (r: bool)
    requires
        depth < path@.len(),
    ensures
        r == open_path(e@, tail_of(path@, depth as int).drop_last()),
    decreases path@.len() - depth,
{
    let ghost k = tail_of(path@, depth as int);
    if depth == path.len() - 1 {
        return true;
    }
    assert(k.drop_last()[0] == path@[depth as int]@);
    assert(tail_of(path@, depth + 1).drop_last() =~= k.drop_last().drop_first());
    let found = find_key(e, &path[depth]);
    proof {
        lemma_key_index(e@, k[0]);
    }
    match found {
        None => true,
        Some(i) => match &e[i].1 {
            Node::Table(sub) => open_at(sub, path, depth + 1),
            _ => false,
        },
    }
}

/// Walks the tail of `path` from `depth`, last segment left out, creating an empty table
/// at each segment that does not exist yet.
pub(crate) fn grow_at(e: &mut Vec<(String, Node)>, path: &Vec<String>, depth: usize)
    requires
        depth < path@.len(),
        open_path(old(e)@, tail_of(path@, depth as int).drop_last()),
    ensures
        forall|q: Seq<Seq<char>>| #[trigger] value_at(final(e)@, q) == value_at(old(e)@, q),
        forall|q: Seq<Seq<char>>|
            !is_prefix(q, tail_of(path@, depth as int).drop_last()) ==> #[trigger] node_at(final(e)@, q)
                == node_at(old(e)@, q),
        forall|j: int|
            1 <= j < path@.len() - depth ==> #[trigger] table_at(final(e)@, tail_of(path@, depth as int).subrange(0, j)),
    decreases path@.len() - depth,
{
    let ghost k = tail_of(path@, depth as int);
    let ghost before = e@;
    if depth == path.len() - 1 {
        return;
    }
    assert(k[0] == path@[depth as int]@);
    assert(k.drop_last()[0] == k[0]);
    assert(tail_of(path@, depth + 1).drop_last() =~= k.drop_last().drop_first());
    let found = find_key(e, &path[depth]);
    proof {
        lemma_key_index(before, k[0]);
    }
    let mut sub: Vec<(String, Node)> = Vec::new();
    match found {
        Some(i) => {
            let mut entry = (String::new(), Node::Table(Vec::new()));
            e.set_and_swap(i, &mut entry);
            let (seg, node) = entry;
            if let Node::Table(v) = node {
                sub = v;
            }
            let cleared = (seg, Node::Table(Vec::new()));
            proof {
                lemma_key_index_update(before, i as int, cleared, k[0]);
                lemma_placed_update(before, i as int, cleared);
            }
            e.set(i, cleared);
            proof {
                assert(e@ =~= before.update(i as int, cleared));
            }
        },
        None => {},
    }
    let ghost middle = e@;
    let ghost sub_before = sub@;
    proof {
        lemma_empty_table(tail_of(path@, depth + 1).drop_last());
        assert forall|q: Seq<Seq<char>>| q.len() >= 2 && q[0] == k[0] implies node_at(before, q)
            == #[trigger] node_at(sub_before, q.drop_first()) by {
            lemma_empty_table(q.drop_first());
        }
    }
    grow_at(&mut sub, path, depth + 1);
    let ghost sub_after = sub@;
    place(e, found, &path[depth], Node::Table(sub));
    proof {
        let after = e@;
        let n = after[key_index(after, k[0])].1;
        if let Some(i) = found {
            lemma_placed_trans(before, middle, after, k[0], middle[i as int].1, n);
        }
        assert forall|q: Seq<Seq<char>>| #[trigger] value_at(after, q) == value_at(before, q) by {
            if q.len() >= 1 && q[0] != k[0] {
                lemma_placed_elsewhere(before, after, k[0], n, q);
            }
            if q.len() >= 2 && q[0] == k[0] {
                assert(node_at(after, q) == node_at(sub_after, q.drop_first()));
                assert(node_at(before, q) == node_at(sub_before, q.drop_first()));
                assert(value_at(sub_after, q.drop_first()) == value_at(sub_before, q.drop_first()));
            }
        }
        assert forall|q: Seq<Seq<char>>| !is_prefix(q, k.drop_last()) implies #[trigger] node_at(after, q)
            == node_at(before, q) by {
            if q.len() == 0 {
                assert(k.drop_last().subrange(0, 0) =~= q);
            } else if q[0] != k[0] {
                lemma_placed_elsewhere(before, after, k[0], n, q);
            } else if q.len() == 1 {
                assert(k.drop_last().subrange(0, 1) =~= q);
            } else {
                lemma_prefix_step(q, k.drop_last());
                assert(node_at(after, q) == node_at(sub_after, q.drop_first()));
                assert(node_at(before, q) == node_at(sub_before, q.drop_first()));
            }
        }
        assert forall|j: int| 1 <= j < path@.len() - depth implies #[trigger] table_at(after, k.subrange(0, j)) by {
            if j >= 2 {
                let t = tail_of(path@, depth + 1);
                assert(k.subrange(0, j).drop_first() =~= t.subrange(0, j - 1));
                assert(table_at(sub_after, t.subrange(0, j - 1)));
            }
        }
    }
}

/// A lookup walk followed by a store at the same key has the effect of the store alone.
pub proof fn lemma_walk_then_store(
    before: Seq<(String, Node)>,
    k: Seq<Seq<char>>,
    middle: Seq<(String, Node)>,
    v: Seq<char>,
    after: Seq<(String, Node)>,
)
    requires
        k.len() >= 1,
        walked(before, k, middle),
        stored(middle, k, v, after),
    ensures
        stored(before, k, v, after),
{
    assert forall|q: Seq<Seq<char>>| !is_prefix(q, k) && !is_prefix(k, q) implies #[trigger] node_at(after, q)
        == node_at(before, q) by {
        if is_prefix(q, k.drop_last()) {
            assert(k.subrange(0, q.len() as int) =~= k.drop_last().subrange(0, q.len() as int));
        }
        assert(node_at(after, q) == node_at(middle, q));
        assert(node_at(middle, q) == node_at(before, q));
    }
}

/// Whether `q` and `k` lie on one branch without being equal.
pub open spec fn related(q: Seq<Seq<char>>, k: Seq<Seq<char>>) -> bool {
    q != k && (is_prefix(q, k) || is_prefix(k, q))
}

/// After a store of `v` at `k`, the value at any path: `v` at `k`, none on the branch of
/// `k`, and elsewhere the value from before.
pub proof fn lemma_stored_values(
    before: Seq<(String, Node)>,
    k: Seq<Seq<char>>,
    v: Seq<char>,
    after: Seq<(String, Node)>,
)
    requires
        k.len() >= 1,
        stored(before, k, v, after),
    ensures
        forall|q: Seq<Seq<char>>| #[trigger] value_at(after, q) == if q == k {
            Some(v)
        } else if related(q, k) {
            None
        } else {
            value_at(before, q)
        },
{
    assert forall|q: Seq<Seq<char>>| #[trigger] value_at(after, q) == if q == k {
        Some(v)
    } else if related(q, k) {
        None
    } else {
        value_at(before, q)
    } by {
        if q != k && is_prefix(q, k) && q.len() >= 1 {
            assert(table_at(after, q));
        }
        if !is_prefix(q, k) && !is_prefix(k, q) {
            assert(node_at(after, q) == node_at(before, q));
        }
        if q != k && is_prefix(k, q) {
            assert(node_at(after, q) is None);
        }
    }
}

/// Storing the same value at the same key twice leaves every cached value as storing it
/// once does.
pub proof fn lemma_store_idempotent(
    before: Seq<(String, Node)>,
    k: Seq<Seq<char>>,
    v: Seq<char>,
    once: Seq<(String, Node)>,
    twice: Seq<(String, Node)>,
)
    requires
        k.len() >= 1,
        stored(before, k, v, once),
        stored(once, k, v, twice),
    ensures
        forall|q: Seq<Seq<char>>| #[trigger] value_at(twice, q) == value_at(once, q),
{
    lemma_stored_values(before, k, v, once);
    lemma_stored_values(once, k, v, twice);
}

/// Stores at two keys on different branches give the same cached values in either order,
/// and each keeps its own value.
pub proof fn lemma_stores_commute(
    before: Seq<(String, Node)>,
    k1: Seq<Seq<char>>,
    v1: Seq<char>,
    k2: Seq<Seq<char>>,
    v2: Seq<char>,
    a1: Seq<(String, Node)>,
    a2: Seq<(String, Node)>,
    b1: Seq<(String, Node)>,
    b2: Seq<(String, Node)>,
)
    requires
        k1.len() >= 1,
        k2.len() >= 1,
        !is_prefix(k1, k2),
        !is_prefix(k2, k1),
        stored(before, k1, v1, a1),
        stored(a1, k2, v2, a2),
        stored(before, k2, v2, b1),
        stored(b1, k1, v1, b2),
    ensures
        value_at(a2, k1) == Some(v1),
        value_at(a2, k2) == Some(v2),
        forall|q: Seq<Seq<char>>| #[trigger] value_at(a2, q) == value_at(b2, q),
{
    lemma_stored_values(before, k1, v1, a1);
    lemma_stored_values(a1, k2, v2, a2);
    lemma_stored_values(before, k2, v2, b1);
    lemma_stored_values(b1, k1, v1, b2);
    assert(value_at(a2, k1) == value_at(a1, k1));
}

} // verus!
