use vstd::prelude::*;

use crate::models::strs;

verus! {

/// Whether the name `s` occurs in `v`.
pub fn contains_name(v: &Vec<String>, s: &String) -> (r: bool)
    ensures
        r == strs(v@).contains(s@),
{
    let mut i: usize = 0;
    while i < v.len()
        invariant
            i <= v.len(),
            forall|j: int| 0 <= j < i ==> v@[j]@ != s@,
        decreases v.len() - i,
    {
        if v[i] == *s {
            assert(strs(v@)[i as int] == s@);
            return true;
        }
        i = i + 1;
    }
    proof {
        if strs(v@).contains(s@) {
            let j = choose|j: int| 0 <= j < strs(v@).len() && strs(v@)[j] == s@;
            assert(v@[j]@ == s@);
        }
    }
    false
}

/// The index of the entry whose key is `key`, if any.
fn key_position(entries: &Vec<(String, Vec<String>)>, key: &String) -> (r: Option<usize>)
    ensures
        r matches Some(i) ==> i < entries@.len() && entries@[i as int].0@ == key@,
        r is None ==> forall|j: int| 0 <= j < entries@.len() ==> entries@[j].0@ != key@,
{
    let mut i: usize = 0;
    while i < entries.len()
        invariant
            i <= entries@.len(),
            forall|j: int| 0 <= j < i ==> entries@[j].0@ != key@,
        decreases entries@.len() - i,
    {
        if entries[i].0 == *key {
            return Some(i);
        }
        i = i + 1;
    }
    None
}

/// The keys of a sequence of adjacency entries.
spec fn entry_keys(entries: Seq<(String, Vec<String>)>) -> Seq<Seq<char>> {
    entries.map_values(|e: (String, Vec<String>)| e.0@)
}

/// The dependency adjacency of the component graph: each component name is
/// mapped to the names it depends on (in declaration order, repetitions kept).
#[derive(Debug)]
pub struct Adjacency {
    entries: Vec<(String, Vec<String>)>,
}

impl Adjacency {
    /// The keys of the entries, in insertion order.
    pub closed spec fn key_seq(&self) -> Seq<Seq<char>> {
        entry_keys(self.entries@)
    }

    /// The dependency lists of the entries, in insertion order.
    pub closed spec fn dep_seq(&self) -> Seq<Seq<Seq<char>>> {
        self.entries@.map_values(|e: (String, Vec<String>)| strs(e.1@))
    }

    #[verifier::type_invariant]
    closed spec fn keys_distinct(&self) -> bool {
        self.key_seq().no_duplicates()
    }

    proof fn lemma_lookup(&self, i: int)
        requires
            self.key_seq().no_duplicates(),
            0 <= i < self.entries@.len(),
        ensures
            self@.contains_key(self.key_seq()[i]),
            self@[self.key_seq()[i]] == self.dep_seq()[i],
    {
        let k = self.key_seq()[i];
        assert(self.key_seq().contains(k));
        let j = self.key_seq().index_of(k);
        assert(self.key_seq()[j] == k);
    }
}

impl View for Adjacency {
    type V = Map<Seq<char>, Seq<Seq<char>>>;

    closed spec fn view(&self) -> Map<Seq<char>, Seq<Seq<char>>> {
        Map::new(
            |k: Seq<char>| self.key_seq().contains(k),
            |k: Seq<char>| self.dep_seq()[self.key_seq().index_of(k)],
        )
    }
}

impl Adjacency {
    /// An adjacency with no entries.
    pub fn new() -> (r: Adjacency)
        ensures
            r@ == Map::<Seq<char>, Seq<Seq<char>>>::empty(),
    {
        let r = Adjacency { entries: Vec::new() };
        assert(r@ =~= Map::<Seq<char>, Seq<Seq<char>>>::empty());
        r
    }

    /// Sets the dependencies of `key`, replacing any it had.
    pub fn insert(&mut self, key: String, deps: Vec<String>)
        ensures
            final(self)@ == old(self)@.insert(key@, strs(deps@)),
    {
        proof { use_type_invariant(&*self); }
        let ghost old_self = *self;
        let ghost kv = key@;
        let ghost dv = strs(deps@);
        let mut entries: Vec<(String, Vec<String>)> = Vec::new();
        std::mem::swap(&mut entries, &mut self.entries);
        assert(entries@ == old_self.entries@);
        let n = entries.len();
        let pos = key_position(&entries, &key);
        if let Some(i) = pos {
            assert(old_self.key_seq()[i as int] == kv);
            entries.set(i, (key, deps));
            assert(entry_keys(entries@) =~= old_self.key_seq());
            let new_self = Adjacency { entries };
            proof {
                assert(new_self.key_seq() =~= old_self.key_seq());
                assert(new_self.dep_seq() =~= old_self.dep_seq().update(i as int, dv));
                new_self.lemma_lookup(i as int);
                assert forall|k: Seq<char>| k != kv && old_self.key_seq().contains(k)
                    implies new_self@[k] == old_self@[k] by {
                    let j = old_self.key_seq().index_of(k);
                    old_self.lemma_lookup(j);
                    new_self.lemma_lookup(j);
                }
                assert(new_self@ =~= old_self@.insert(kv, dv));
            }
            *self = new_self;
        } else {
            entries.push((key, deps));
            assert(entry_keys(entries@) =~= old_self.key_seq().push(kv));
            assert(!old_self.key_seq().contains(kv));
            assert(entry_keys(entries@).no_duplicates());
            let new_self = Adjacency { entries };
            proof {
                assert(new_self.key_seq() =~= old_self.key_seq().push(kv));
                assert(new_self.dep_seq() =~= old_self.dep_seq().push(dv));
                assert(!old_self.key_seq().contains(kv));
                assert(new_self.key_seq().no_duplicates());
                new_self.lemma_lookup(n as int);
                assert(new_self.key_seq()[n as int] == kv);
                assert forall|k: Seq<char>| new_self.key_seq().contains(k)
                    implies old_self.key_seq().contains(k) || k == kv by {
                    let j = choose|j: int| 0 <= j < new_self.key_seq().len() && new_self.key_seq()[j] == k;
                    if j < n {
                        assert(old_self.key_seq()[j] == k);
                    }
                }
                assert forall|k: Seq<char>| old_self.key_seq().contains(k)
                    implies new_self.key_seq().contains(k) by {
                    let j = choose|j: int| 0 <= j < old_self.key_seq().len() && old_self.key_seq()[j] == k;
                    assert(new_self.key_seq()[j] == k);
                }
                assert(new_self@.dom() =~= old_self@.dom().insert(kv));
                assert forall|k: Seq<char>| k != kv && old_self.key_seq().contains(k)
                    implies new_self@[k] == old_self@[k] by {
                    let j = old_self.key_seq().index_of(k);
                    old_self.lemma_lookup(j);
                    new_self.lemma_lookup(j);
                }
                assert(new_self@ =~= old_self@.insert(kv, dv));
            }
            *self = new_self;
        }
    }

    /// The dependencies recorded for `key`, if any.
    pub fn get(&self, key: &String) -> (r: Option<&Vec<String>>)
        ensures
            r is Some <==> self@.contains_key(key@),
            r matches Some(v) ==> strs(v@) == self@[key@],
    {
        proof { use_type_invariant(self); }
        match key_position(&self.entries, key) {
            Some(i) => {
                proof { self.lemma_lookup(i as int); }
                Some(&self.entries[i].1)
            },
            None => {
                assert(!self.key_seq().contains(key@));
                None
            },
        }
    }
}


/// Every node named in the entries: keys and their dependencies.
spec fn entry_nodes(entries: Seq<(String, Vec<String>)>) -> Seq<Seq<char>>
    decreases entries.len(),
{
    if entries.len() == 0 {
        Seq::empty()
    } else {
        entry_nodes(entries.drop_last()).push(entries.last().0@) + strs(entries.last().1@)
    }
}

proof fn lemma_entry_nodes(entries: Seq<(String, Vec<String>)>, i: int)
    requires
        0 <= i < entries.len(),
    ensures
        entry_nodes(entries).contains(entries[i].0@),
        forall|v: Seq<char>| strs(entries[i].1@).contains(v) ==> entry_nodes(entries).contains(v),
    decreases entries.len(),
{
    let last = entries.len() - 1;
    let pre = entry_nodes(entries.drop_last()).push(entries.last().0@);
    let all = pre + strs(entries.last().1@);
    assert(entry_nodes(entries) == all);
    if i == last {
        assert(pre[pre.len() - 1] == entries[i].0@);
        assert(all[pre.len() - 1] == entries[i].0@);
        assert forall|v: Seq<char>| strs(entries[i].1@).contains(v) implies all.contains(v) by {
            let k = choose|k: int| 0 <= k < strs(entries[i].1@).len() && strs(entries[i].1@)[k] == v;
            assert(all[pre.len() + k] == v);
        }
    } else {
        lemma_entry_nodes(entries.drop_last(), i);
        assert(entries.drop_last()[i] == entries[i]);
        let e = entry_nodes(entries.drop_last());
        assert forall|v: Seq<char>| e.contains(v) implies all.contains(v) by {
            let k = choose|k: int| 0 <= k < e.len() && e[k] == v;
            assert(pre[k] == v);
            assert(all[k] == v);
        }
    }
}

/// `u` depends directly on `v` in the adjacency `g`.
pub open spec fn depends_on(g: Map<Seq<char>, Seq<Seq<char>>>, u: Seq<char>, v: Seq<char>) -> bool {
    g.contains_key(u) && g[u].contains(v)
}

/// `p` follows dependency edges: each node depends on the next one.
pub open spec fn is_dep_path(g: Map<Seq<char>, Seq<Seq<char>>>, p: Seq<Seq<char>>) -> bool {
    forall|i: int| 0 <= i < p.len() - 1 ==> #[trigger] depends_on(g, p[i], p[i + 1])
}

/// `p` starts at one of `names`, follows dependency edges, and ends at a node
/// it has already passed: a dependency cycle reachable from `names`.
pub open spec fn is_lasso(
    g: Map<Seq<char>, Seq<Seq<char>>>,
    names: Seq<Seq<char>>,
    p: Seq<Seq<char>>,
) -> bool {
    &&& p.len() >= 2
    &&& names.contains(p[0])
    &&& is_dep_path(g, p)
    &&& exists|j: int| 0 <= j < p.len() - 1 && p[j] == p.last()
}

/// Some dependency cycle can be reached from one of `names`.
pub open spec fn has_reachable_cycle(
    g: Map<Seq<char>, Seq<Seq<char>>>,
    names: Seq<Seq<char>>,
) -> bool {
    exists|p: Seq<Seq<char>>| is_lasso(g, names, p)
}

/// Finished nodes come in an order in which every dependency of a node is
/// finished before it.
spec fn finished_ok(g: Map<Seq<char>, Seq<Seq<char>>>, done: Seq<Seq<char>>) -> bool {
    &&& done.no_duplicates()
    &&& forall|i: int, v: Seq<char>|
        0 <= i < done.len() && #[trigger] depends_on(g, done[i], v) ==> exists|j: int|
            0 <= j < i && done[j] == v
}

/// `b` can be reached from `a` along dependency edges (in no steps when they
/// are the same node).
pub open spec fn reaches(g: Map<Seq<char>, Seq<Seq<char>>>, a: Seq<char>, b: Seq<char>) -> bool {
    exists|p: Seq<Seq<char>>| p.len() >= 1 && p[0] == a && p.last() == b && #[trigger] is_dep_path(g, p)
}

proof fn lemma_push_no_duplicates(s: Seq<Seq<char>>, x: Seq<char>)
    requires
        s.no_duplicates(),
        !s.contains(x),
    ensures
        s.push(x).no_duplicates(),
{
    assert forall|i: int, j: int| 0 <= i < j < s.push(x).len() implies s.push(x)[i] != s.push(x)[j] by {
        if j == s.len() {
            assert(s.push(x)[i] == s[i]);
        } else {
            assert(s.push(x)[i] == s[i] && s.push(x)[j] == s[j]);
        }
    }
}

proof fn lemma_reaches_self(g: Map<Seq<char>, Seq<Seq<char>>>, a: Seq<char>)
    ensures
        reaches(g, a, a),
{
    let p = seq![a];
    assert(is_dep_path(g, p));
}

proof fn lemma_reaches_prepend(g: Map<Seq<char>, Seq<Seq<char>>>, a: Seq<char>, b: Seq<char>, c: Seq<char>)
    requires
        depends_on(g, a, b),
        reaches(g, b, c),
    ensures
        reaches(g, a, c),
{
    let p = choose|p: Seq<Seq<char>>| p.len() >= 1 && p[0] == b && p.last() == c && #[trigger] is_dep_path(g, p);
    let q = seq![a] + p;
    assert forall|i: int| 0 <= i < q.len() - 1 implies #[trigger] depends_on(g, q[i], q[i + 1]) by {
        if i > 0 {
            assert(q[i] == p[i - 1] && q[i + 1] == p[i]);
            assert(depends_on(g, p[i - 1], p[(i - 1) + 1]));
        }
    }
    assert(q.last() == p.last());
    assert(is_dep_path(g, q));
}

/// A cycle report: read backwards it is a dependency path, and its first node
/// occurs again later in it or in `stack`.
spec fn is_cycle_report(
    g: Map<Seq<char>, Seq<Seq<char>>>,
    stack: Seq<Seq<char>>,
    p: Seq<Seq<char>>,
) -> bool {
    &&& p.len() >= 2
    &&& forall|i: int| 0 <= i < p.len() - 1 ==> #[trigger] depends_on(g, p[i + 1], p[i])
    &&& (stack.contains(p[0]) || p.subrange(1, p.len() as int).contains(p[0]))
}

impl Adjacency {
    /// All nodes the adjacency mentions.
    closed spec fn universe(&self) -> Set<Seq<char>> {
        entry_nodes(self.entries@).to_set()
    }

    /// The number of nodes not yet visited by the search.
    closed spec fn unvisited(&self, done: Seq<Seq<char>>, stack: Seq<Seq<char>>) -> nat {
        self.universe().difference(done.to_set().union(stack.to_set())).len()
    }

    proof fn lemma_unvisited_bound(&self, done: Seq<Seq<char>>, stack: Seq<Seq<char>>)
        ensures
            self.unvisited(done, stack) <= self.universe().len(),
    {
        broadcast use vstd::seq_lib::seq_to_set_is_finite;
        let u = self.universe();
        let a = u.difference(done.to_set().union(stack.to_set()));
        assert(a.subset_of(u));
        vstd::set_lib::lemma_len_subset(a, u);
    }

    proof fn lemma_edge_in_universe(&self, u: Seq<char>, v: Seq<char>)
        requires
            self.key_seq().no_duplicates(),
            depends_on(self@, u, v),
        ensures
            self.universe().contains(u),
            self.universe().contains(v),
    {
        let i = self.key_seq().index_of(u);
        assert(self.key_seq()[i] == u);
        self.lemma_lookup(i);
        lemma_entry_nodes(self.entries@, i);
        assert(self.dep_seq()[i] == strs(self.entries@[i].1@));
    }
}

proof fn lemma_visit_shrinks(
    g: &Adjacency,
    done: Seq<Seq<char>>,
    stack: Seq<Seq<char>>,
    done2: Seq<Seq<char>>,
    stack2: Seq<Seq<char>>,
    node: Seq<char>,
)
    requires
        g.universe().contains(node),
        !done.contains(node),
        !stack.contains(node),
        forall|x: Seq<char>| done.contains(x) ==> done2.contains(x),
        forall|x: Seq<char>| stack.contains(x) ==> stack2.contains(x),
        stack2.contains(node),
    ensures
        g.unvisited(done2, stack2) < g.unvisited(done, stack),
{
    broadcast use vstd::seq_lib::seq_to_set_is_finite;
    let u = g.universe();
    let a = u.difference(done.to_set().union(stack.to_set()));
    let b = u.difference(done2.to_set().union(stack2.to_set()));
    assert(a.finite());
    assert(b.subset_of(a.remove(node)));
    vstd::set_lib::lemma_len_subset(b, a.remove(node));
    assert(a.contains(node));
}

/// The report and finished nodes of a depth-first search from `node`, with
/// `done` finished and `stack` the current search path, given `fuel` levels
/// of depth (enough fuel gives the search's own result).
pub open spec fn dfs_spec(
    g: Map<Seq<char>, Seq<Seq<char>>>,
    node: Seq<char>,
    done: Seq<Seq<char>>,
    stack: Seq<Seq<char>>,
    fuel: nat,
) -> (Option<Seq<Seq<char>>>, Seq<Seq<char>>)
    decreases fuel, 0nat, 0nat,
{
    if fuel == 0 {
        (None, done)
    } else if !g.contains_key(node) {
        (None, done.push(node))
    } else {
        let v = visit_spec(g, node, g[node], 0, done, stack.push(node), (fuel - 1) as nat);
        match v.0 {
            Some(p) => (Some(p), v.1),
            None => (None, v.1.push(node)),
        }
    }
}

/// The search through the dependencies `ns` of `node` from the `k`-th on: a
/// dependency on the search path closes a cycle, one not yet finished is
/// searched in turn.
pub open spec fn visit_spec(
    g: Map<Seq<char>, Seq<Seq<char>>>,
    node: Seq<char>,
    ns: Seq<Seq<char>>,
    k: nat,
    done: Seq<Seq<char>>,
    stack: Seq<Seq<char>>,
    fuel: nat,
) -> (Option<Seq<Seq<char>>>, Seq<Seq<char>>)
    decreases fuel, 1nat, ns.len() - k,
{
    if k >= ns.len() {
        (None, done)
    } else {
        let nb = ns[k as int];
        if stack.contains(nb) {
            (Some(seq![nb, node]), done)
        } else if done.contains(nb) {
            visit_spec(g, node, ns, k + 1, done, stack, fuel)
        } else {
            let v = dfs_spec(g, nb, done, stack, fuel);
            match v.0 {
                Some(p) => (Some(p.push(node)), v.1),
                None => visit_spec(g, node, ns, k + 1, v.1, stack, fuel),
            }
        }
    }
}

/// The search for cycles from the names of `names` from the `i`-th on, with
/// `done` finished.
pub open spec fn search_spec(
    g: Map<Seq<char>, Seq<Seq<char>>>,
    names: Seq<Seq<char>>,
    i: nat,
    done: Seq<Seq<char>>,
    fuel: nat,
) -> Option<Seq<Seq<char>>>
    decreases names.len() - i,
{
    if i >= names.len() {
        None
    } else if done.contains(names[i as int]) {
        search_spec(g, names, i + 1, done, fuel)
    } else {
        let v = dfs_spec(g, names[i as int], done, Seq::empty(), fuel);
        match v.0 {
            Some(p) => Some(p),
            None => search_spec(g, names, i + 1, v.1, fuel),
        }
    }
}

/// The views of an optional list of names.
pub open spec fn opt_strs(r: Option<Vec<String>>) -> Option<Seq<Seq<char>>> {
    match r {
        Some(v) => Some(strs(v@)),
        None => None,
    }
}

impl Adjacency {
    /// The report `detect_cycles` gives: depth-first search from each name in
    /// turn, each node's dependencies in their order, reporting the first
    /// dependency that leads back onto the search path.
    pub closed spec fn cycle_report(&self, names: Seq<Seq<char>>) -> Option<Seq<Seq<char>>> {
        search_spec(self@, names, 0, Seq::empty(), self.universe().len() + 1)
    }
}

/// Depth-first search from `node`, which is neither finished nor on the
/// current search path `stack`. Returns a cycle report if a dependency of a
/// node on the path leads back onto the path; otherwise `node` and everything
/// reachable from it end up finished, and the nodes it finishes are all
/// reachable from it.
fn dfs(
    node: &String,
    adjacency: &Adjacency,
    done: &mut Vec<String>,
    stack: &mut Vec<String>,
) -> (r: Option<Vec<String>>)
    requires
        finished_ok(adjacency@, strs(old(done)@)),
        !strs(old(done)@).contains(node@),
        !strs(old(stack)@).contains(node@),
        strs(old(stack)@).no_duplicates(),
        forall|x: Seq<char>| strs(old(stack)@).contains(x) ==> !strs(old(done)@).contains(x),
        old(stack)@.len() > 0 ==> depends_on(adjacency@, old(stack)@.last()@, node@),
    ensures
        r is None ==> {
            &&& final(stack)@ == old(stack)@
            &&& finished_ok(adjacency@, strs(final(done)@))
            &&& strs(final(done)@).contains(node@)
            &&& strs(final(done)@).subrange(0, old(done)@.len() as int) == strs(old(done)@)
            &&& old(done)@.len() <= final(done)@.len()
            &&& forall|x: Seq<char>| strs(final(stack)@).contains(x) ==> !strs(final(done)@).contains(x)
            &&& forall|k: int|
                old(done)@.len() <= k < final(done)@.len() ==> reaches(adjacency@, node@, #[trigger] strs(final(done)@)[k])
        },
        r matches Some(p) ==> {
            &&& strs(p@).last() == node@
            &&& is_cycle_report(adjacency@, strs(old(stack)@), strs(p@))
            &&& (strs(old(stack)@) + strs(p@).reverse().drop_last()).no_duplicates()
        },
        forall|f: nat|
            f > adjacency.unvisited(strs(old(done)@), strs(old(stack)@)) ==> (#[trigger] dfs_spec(
                adjacency@,
                node@,
                strs(old(done)@),
                strs(old(stack)@),
                f,
            )).0 == opt_strs(r),
        r is None ==> forall|f: nat|
            f > adjacency.unvisited(strs(old(done)@), strs(old(stack)@)) ==> (#[trigger] dfs_spec(
                adjacency@,
                node@,
                strs(old(done)@),
                strs(old(stack)@),
                f,
            )).1 == strs(final(done)@),
    decreases adjacency.unvisited(strs(old(done)@), strs(old(stack)@)),
{
    let ghost g = adjacency@;
    let ghost done0 = strs(done@);
    let ghost stack0 = strs(stack@);
    let ghost stack_raw0 = stack@;
    let ghost big_m = adjacency.unvisited(done0, stack0);
    stack.push(node.clone());
    assert(strs(stack@) =~= stack0.push(node@));
    let neighbors = match adjacency.get(node) {
        Some(ns) => ns,
        None => {
            stack.pop();
            assert(strs(stack@) =~= stack0);
            done.push(node.clone());
            proof {
                assert(strs(done@) =~= done0.push(node@));
                assert(strs(done@)[done0.len() as int] == node@);
                lemma_reaches_self(g, node@);
                assert forall|f: nat| f > big_m implies (#[trigger] dfs_spec(g, node@, done0, stack0, f)) == (
                    None::<Seq<Seq<char>>>,
                    strs(done@),
                ) by {}
                assert(strs(done@).subrange(0, done0.len() as int) =~= done0);
                assert forall|i: int, v: Seq<char>|
                    0 <= i < strs(done@).len() && #[trigger] depends_on(g, strs(done@)[i], v)
                    implies exists|j: int| 0 <= j < i && strs(done@)[j] == v by {
                    if i < done0.len() {
                        assert(strs(done@)[i] == done0[i]);
                        let j = choose|j: int| 0 <= j < i && done0[j] == v;
                        assert(strs(done@)[j] == v);
                    }
                }
            }
            return None;
        },
    };
    assert(g.contains_key(node@) && strs(neighbors@) == g[node@]);
    let ghost ns = g[node@];
    let ghost stack1 = stack0.push(node@);
    let mut k: usize = 0;
    while k < neighbors.len()
        invariant
            g == adjacency@,
            stack0 == strs(old(stack)@),
            stack@ == stack_raw0.push(*node),
            done0 == strs(old(done)@),
            strs(neighbors@) == g[node@],
            g.contains_key(node@),
            k <= neighbors@.len(),
            strs(stack@) == stack0.push(node@),
            stack0.no_duplicates(),
            !stack0.contains(node@),
            !done0.contains(node@),
            stack0.len() > 0 ==> depends_on(g, stack0.last(), node@),
            finished_ok(g, strs(done@)),
            strs(done@).subrange(0, done0.len() as int) == done0,
            done0.len() <= strs(done@).len(),
            forall|x: Seq<char>| strs(stack@).contains(x) ==> !strs(done@).contains(x),
            forall|m: int| 0 <= m < k ==> strs(done@).contains(#[trigger] strs(neighbors@)[m]),
            forall|j: int| done0.len() <= j < strs(done@).len() ==> reaches(g, node@, #[trigger] strs(done@)[j]),
            ns == g[node@],
            stack1 == stack0.push(node@),
            big_m == adjacency.unvisited(done0, stack0),
            forall|f1: nat|
                f1 >= big_m ==> visit_spec(g, node@, ns, 0, done0, stack1, f1) == #[trigger] visit_spec(
                    g,
                    node@,
                    ns,
                    k as nat,
                    strs(done@),
                    stack1,
                    f1,
                ),
        decreases neighbors@.len() - k,
    {
        let neighbor = &neighbors[k];
        let ghost k0 = k as nat;
        assert(strs(neighbors@)[k as int] == neighbor@);
        assert(depends_on(g, node@, neighbor@));
        if contains_name(stack, neighbor) {
            let mut report: Vec<String> = Vec::new();
            report.push(neighbor.clone());
            report.push(node.clone());
            proof {
                let p = strs(report@);
                assert(p =~= seq![neighbor@, node@]);
                assert(p.reverse().drop_last() =~= seq![node@]);
                assert(stack0 + seq![node@] =~= stack0.push(node@));
                lemma_push_no_duplicates(stack0, node@);
                assert(depends_on(g, p[1], p[0]));
                let st = strs(stack@);
                let w = choose|w: int| 0 <= w < st.len() && st[w] == neighbor@;
                if w < stack0.len() {
                    assert(st[w] == stack0[w]);
                    assert(stack0.contains(neighbor@));
                } else {
                    assert(neighbor@ == node@);
                    assert(p.subrange(1, 2)[0] == p[0]);
                }
                assert(stack1.contains(neighbor@));
                assert forall|f: nat| f > big_m implies (#[trigger] dfs_spec(g, node@, done0, stack0, f)).0
                    == opt_strs(Some(report)) by {
                    let f1 = (f - 1) as nat;
                    assert(visit_spec(g, node@, ns, 0, done0, stack1, f1) == visit_spec(
                        g,
                        node@,
                        ns,
                        k as nat,
                        strs(done@),
                        stack1,
                        f1,
                    ));
                }
            }
            return Some(report);
        }
        if !contains_name(done, neighbor) {
            let ghost done1 = strs(done@);
            proof {
                assert(stack1.last() == node@);
                assert(stack1.no_duplicates());
                use_type_invariant(adjacency);
                adjacency.lemma_edge_in_universe(node@, neighbor@);
                assert forall|x: Seq<char>| done0.contains(x) implies done1.contains(x) by {
                    let j = choose|j: int| 0 <= j < done0.len() && done0[j] == x;
                    assert(done1.subrange(0, done0.len() as int)[j] == x);
                }
                assert(stack1[stack0.len() as int] == node@);
                assert forall|x: Seq<char>| stack0.contains(x) implies stack1.contains(x) by {
                    let j = choose|j: int| 0 <= j < stack0.len() && stack0[j] == x;
                    assert(stack1[j] == x);
                }
                lemma_visit_shrinks(adjacency, done0, stack0, done1, stack1, node@);
            }
            match dfs(neighbor, adjacency, done, stack) {
                Some(mut path) => {
                    let ghost p0 = strs(path@);
                    path.push(node.clone());
                    proof {
                        let p = strs(path@);
                        assert(p =~= p0.push(node@));
                        assert(stack1 =~= stack0.push(node@));
                        assert(stack0 + p.reverse().drop_last() =~= stack1 + p0.reverse().drop_last());
                        assert forall|i: int| 0 <= i < p.len() - 1 implies #[trigger] depends_on(g, p[i + 1], p[i]) by {
                            if i < p0.len() - 1 {
                                assert(p[i] == p0[i] && p[i + 1] == p0[i + 1]);
                            }
                        }
                        if p0.subrange(1, p0.len() as int).contains(p0[0]) {
                            let w = choose|w: int| 0 <= w < p0.len() - 1 && p0.subrange(1, p0.len() as int)[w] == p0[0];
                            assert(p.subrange(1, p.len() as int)[w] == p[0]);
                        } else if stack0.contains(p0[0]) {
                        } else {
                            assert(stack1.contains(p0[0]));
                            assert(p0[0] == node@);
                            assert(p.subrange(1, p.len() as int)[p.len() - 2] == p[0]);
                        }
                        assert forall|f: nat| f > big_m implies (#[trigger] dfs_spec(g, node@, done0, stack0, f)).0
                            == opt_strs(Some(path)) by {
                            let f1 = (f - 1) as nat;
                            assert(visit_spec(g, node@, ns, 0, done0, stack1, f1) == visit_spec(
                                g,
                                node@,
                                ns,
                                k as nat,
                                done1,
                                stack1,
                                f1,
                            ));
                            assert(dfs_spec(g, neighbor@, done1, stack1, f1).0 == Some(p0));
                        }
                    }
                    return Some(path);
                },
                None => {
                    proof {
                        let d = strs(done@);
                        assert forall|j: int| done0.len() <= j < d.len() implies reaches(g, node@, #[trigger] d[j]) by {
                            if j < done1.len() {
                                assert(d.subrange(0, done1.len() as int)[j] == done1[j]);
                            } else {
                                lemma_reaches_prepend(g, node@, neighbor@, d[j]);
                            }
                        }
                    }
                    k = k + 1;
                    proof {
                        let d = strs(done@);
                        assert(k as nat == k0 + 1);
                        assert forall|f1: nat| f1 >= big_m implies visit_spec(g, node@, ns, 0, done0, stack1, f1)
                            == #[trigger] visit_spec(g, node@, ns, k as nat, d, stack1, f1) by {
                            assert(visit_spec(g, node@, ns, 0, done0, stack1, f1) == visit_spec(
                                g,
                                node@,
                                ns,
                                k0,
                                done1,
                                stack1,
                                f1,
                            ));
                            assert(dfs_spec(g, neighbor@, done1, stack1, f1).0 == None::<Seq<Seq<char>>>);
                            assert(dfs_spec(g, neighbor@, done1, stack1, f1).1 == d);
                        }
                    }
                },
            }
        } else {
            proof {
                assert(ns == strs(neighbors@));
                assert(ns[k as int] == neighbor@);
                assert(!stack1.contains(neighbor@));
                assert(strs(done@).contains(neighbor@));
            }
            k = k + 1;
            proof {
                assert(k as nat == k0 + 1);
                assert forall|f1: nat| f1 >= big_m implies visit_spec(g, node@, ns, 0, done0, stack1, f1)
                    == #[trigger] visit_spec(g, node@, ns, k as nat, strs(done@), stack1, f1) by {
                    assert(visit_spec(g, node@, ns, 0, done0, stack1, f1) == visit_spec(
                        g,
                        node@,
                        ns,
                        k0,
                        strs(done@),
                        stack1,
                        f1,
                    ));
                }
            }
        }
    }
    let ghost done1 = strs(done@);
    let ghost st_before = stack@;
    assert(strs(stack@)[stack0.len() as int] == node@);
    assert(strs(stack@).contains(node@));
    assert forall|x: Seq<char>| stack0.contains(x) implies !done1.contains(x) by {
        let j = choose|j: int| 0 <= j < stack0.len() && stack0[j] == x;
        assert(strs(stack@)[j] == x);
    }
    stack.pop();
    assert(stack@ =~= st_before.drop_last());
    assert(stack@ =~= stack_raw0);
    assert forall|i: int| 0 <= i < stack0.len() implies strs(stack@)[i] == stack0[i] by {
        assert(strs(st_before)[i] == stack0.push(node@)[i]);
    }
    assert(strs(stack@) =~= stack0);
    done.push(node.clone());
    proof {
        let d = strs(done@);
        assert(d =~= done1.push(node@));
        assert forall|f: nat| f > big_m implies (#[trigger] dfs_spec(g, node@, done0, stack0, f)) == (
            None::<Seq<Seq<char>>>,
            d,
        ) by {
            let f1 = (f - 1) as nat;
            assert(visit_spec(g, node@, ns, 0, done0, stack1, f1) == visit_spec(
                g,
                node@,
                ns,
                neighbors@.len() as nat,
                done1,
                stack1,
                f1,
            ));
        }
        assert(!done1.contains(node@));
        assert(d.no_duplicates());
        assert(d[done1.len() as int] == node@);
        assert(d.subrange(0, done0.len() as int) =~= done1.subrange(0, done0.len() as int));
        assert forall|j: int| done0.len() <= j < d.len() implies reaches(g, node@, #[trigger] d[j]) by {
            if j < done1.len() {
                assert(d[j] == done1[j]);
            } else {
                lemma_reaches_self(g, node@);
            }
        }
        assert forall|i: int, v: Seq<char>|
            0 <= i < d.len() && #[trigger] depends_on(g, d[i], v)
            implies exists|j: int| 0 <= j < i && d[j] == v by {
            if i < done1.len() {
                assert(d[i] == done1[i]);
                let j = choose|j: int| 0 <= j < i && done1[j] == v;
                assert(d[j] == v);
            } else {
                assert(d[i] == node@);
                let m = choose|m: int| 0 <= m < g[node@].len() && g[node@][m] == v;
                assert(strs(neighbors@)[m] == v);
                assert(done1.contains(v));
                let j = choose|j: int| 0 <= j < done1.len() && done1[j] == v;
                assert(d[j] == v);
            }
        }
        assert forall|x: Seq<char>| stack0.contains(x) implies !d.contains(x) by {
            if d.contains(x) {
                let j = choose|j: int| 0 <= j < d.len() && d[j] == x;
                if j < done1.len() {
                    assert(done1[j] == x);
                }
            }
        }
    }
    None
}


/// Along a dependency path that starts at a finished node, every node is
/// finished, and finished strictly earlier than all nodes before it.
proof fn lemma_path_descends(
    g: Map<Seq<char>, Seq<Seq<char>>>,
    done: Seq<Seq<char>>,
    p: Seq<Seq<char>>,
    b: int,
)
    requires
        finished_ok(g, done),
        is_dep_path(g, p),
        done.contains(p[0]),
        0 <= b < p.len(),
    ensures
        done.contains(p[b]),
        forall|a: int| 0 <= a < b ==> done.index_of(p[b]) < done.index_of(p[a]),
    decreases b,
{
    if b > 0 {
        lemma_path_descends(g, done, p, b - 1);
        let i = done.index_of(p[b - 1]);
        assert(done[i] == p[b - 1]);
        let i0 = b - 1;
        assert(depends_on(g, p[i0], p[i0 + 1]));
        assert(depends_on(g, done[i], p[b]));
        let j = choose|j: int| 0 <= j < i && done[j] == p[b];
        assert(done.contains(p[b]));
        let k = done.index_of(p[b]);
        assert(done[k] == p[b]);
        assert(k == j);
    }
}

/// No dependency cycle can be reached from finished nodes.
proof fn lemma_finished_no_lasso(
    g: Map<Seq<char>, Seq<Seq<char>>>,
    done: Seq<Seq<char>>,
    names: Seq<Seq<char>>,
)
    requires
        finished_ok(g, done),
        forall|x: Seq<char>| names.contains(x) ==> done.contains(x),
    ensures
        !has_reachable_cycle(g, names),
{
    if has_reachable_cycle(g, names) {
        let p = choose|p: Seq<Seq<char>>| is_lasso(g, names, p);
        let j = choose|j: int| 0 <= j < p.len() - 1 && p[j] == p.last();
        lemma_path_descends(g, done, p, p.len() - 1);
        assert(done.index_of(p[p.len() - 1]) < done.index_of(p[j]));
    }
}

/// `c` reports a cycle as the search finds it: read backwards it is a lasso
/// from the first of `names` from which a cycle can be reached, along
/// distinct nodes up to its last, which repeats one of them.
pub open spec fn is_search_report(
    g: Map<Seq<char>, Seq<Seq<char>>>,
    names: Seq<Seq<char>>,
    c: Seq<Seq<char>>,
) -> bool {
    &&& is_lasso(g, names, c.reverse())
    &&& c.reverse().drop_last().no_duplicates()
    &&& exists|i: int|
        0 <= i < names.len() && #[trigger] names[i] == c.last() && forall|m: int|
            0 <= m < i ==> !has_reachable_cycle(g, seq![#[trigger] names[m]])
}

/// Looks for a dependency cycle reachable from `names` by depth-first search,
/// starting from each name in turn. Returns `None` when there is none;
/// otherwise the report of the first cycle met, from the node that closes it
/// back to the name the search started from (see `is_search_report`). The
/// report is exactly `cycle_report`: the search takes the names in order and
/// each node's dependencies in their order.
pub fn detect_cycles(adjacency: &Adjacency, names: &Vec<String>) -> (r: Option<Vec<String>>)
    ensures
        r is Some <==> has_reachable_cycle(adjacency@, strs(names@)),
        r matches Some(c) ==> is_search_report(adjacency@, strs(names@), strs(c@)),
        opt_strs(r) == adjacency.cycle_report(strs(names@)),
{
    let ghost g = adjacency@;
    let ghost nv = strs(names@);
    let ghost fuel = adjacency.universe().len() + 1;
    let mut done: Vec<String> = Vec::new();
    let mut stack: Vec<String> = Vec::new();
    let mut i: usize = 0;
    assert(strs(done@) =~= Seq::<Seq<char>>::empty());
    while i < names.len()
        invariant
            g == adjacency@,
            nv == strs(names@),
            i <= names@.len(),
            stack@.len() == 0,
            finished_ok(g, strs(done@)),
            forall|m: int| 0 <= m < i ==> strs(done@).contains(#[trigger] nv[m]),
            forall|m: int| 0 <= m < i ==> !has_reachable_cycle(g, seq![#[trigger] nv[m]]),
            fuel == adjacency.universe().len() + 1,
            adjacency.cycle_report(nv) == search_spec(g, nv, i as nat, strs(done@), fuel),
        decreases names@.len() - i,
    {
        let name = &names[i];
        assert(nv[i as int] == name@);
        let ghost i0 = i as nat;
        let ghost done_i = strs(done@);
        if !contains_name(&done, name) {
            assert(strs(stack@) =~= Seq::<Seq<char>>::empty());
            let ghost done1 = strs(done@);
            proof {
                adjacency.lemma_unvisited_bound(done1, Seq::empty());
            }
            match dfs(name, adjacency, &mut done, &mut stack) {
                Some(c) => {
                    proof {
                        let cv = strs(c@);
                        let rv = cv.reverse();
                        assert(rv[0] == name@);
                        assert(nv.contains(rv[0]));
                        assert forall|k: int| 0 <= k < rv.len() - 1 implies #[trigger] depends_on(g, rv[k], rv[k + 1]) by {
                            let m = cv.len() - 2 - k;
                            assert(depends_on(g, cv[m + 1], cv[m]));
                        }
                        assert(!Seq::<Seq<char>>::empty().contains(cv[0]));
                        let w = choose|w: int| 0 <= w < cv.len() - 1 && cv.subrange(1, cv.len() as int)[w] == cv[0];
                        assert(rv[cv.len() - 2 - w] == rv.last());
                        assert(is_lasso(g, nv, rv));
                        assert(Seq::<Seq<char>>::empty() + rv.drop_last() =~= rv.drop_last());
                        assert(nv[i as int] == cv.last());
                        assert(is_search_report(g, nv, cv));
                        assert(dfs_spec(g, nv[i as int], done1, Seq::empty(), fuel).0 == Some(cv));
                    }
                    return Some(c);
                },
                None => {
                    proof {
                        let d = strs(done@);
                        assert forall|m: int| 0 <= m < i implies d.contains(#[trigger] nv[m]) by {
                            let j = choose|j: int| 0 <= j < done1.len() && done1[j] == nv[m];
                            assert(d.subrange(0, done1.len() as int)[j] == nv[m]);
                        }
                        assert(dfs_spec(g, nv[i as int], done1, Seq::empty(), fuel).0 == None::<Seq<Seq<char>>>);
                        assert(dfs_spec(g, nv[i as int], done1, Seq::empty(), fuel).1 == d);
                        assert(search_spec(g, nv, i0, done_i, fuel) == search_spec(g, nv, i0 + 1, d, fuel));
                    }
                },
            }
        } else {
            proof {
                assert(search_spec(g, nv, i0, done_i, fuel) == search_spec(g, nv, i0 + 1, done_i, fuel));
            }
        }
        proof {
            assert(strs(done@).contains(nv[i as int]));
            assert forall|x: Seq<char>| seq![nv[i as int]].contains(x) implies strs(done@).contains(x) by {
                assert(seq![nv[i as int]][0] == x);
            }
            lemma_finished_no_lasso(g, strs(done@), seq![nv[i as int]]);
        }
        i = i + 1;
    }
    proof {
        assert(search_spec(g, nv, i as nat, strs(done@), fuel) == None::<Seq<Seq<char>>>);
        assert forall|x: Seq<char>| nv.contains(x) implies strs(done@).contains(x) by {
            let m = choose|m: int| 0 <= m < nv.len() && nv[m] == x;
            assert(strs(done@).contains(nv[m]));
        }
        lemma_finished_no_lasso(g, strs(done@), nv);
    }
    None
}


/// The position of the name `s` in `v`, if it occurs.
pub fn find_name(v: &Vec<String>, s: &String) -> (r: Option<usize>)
    ensures
        r matches Some(i) ==> i < v@.len() && v@[i as int]@ == s@,
        r is None <==> !strs(v@).contains(s@),
{
    let mut i: usize = 0;
    while i < v.len()
        invariant
            i <= v.len(),
            forall|j: int| 0 <= j < i ==> v@[j]@ != s@,
        decreases v.len() - i,
    {
        if v[i] == *s {
            assert(strs(v@)[i as int] == s@);
            return Some(i);
        }
        i = i + 1;
    }
    proof {
        if strs(v@).contains(s@) {
            let j = choose|j: int| 0 <= j < strs(v@).len() && strs(v@)[j] == s@;
            assert(v@[j]@ == s@);
        }
    }
    None
}

/// The dependencies of `n` in `g` (none when `n` has no entry).
pub open spec fn deps_of(g: Map<Seq<char>, Seq<Seq<char>>>, n: Seq<char>) -> Seq<Seq<char>> {
    if g.contains_key(n) {
        g[n]
    } else {
        Seq::empty()
    }
}

/// The nodes a topological order ranges over: the given names, and every
/// adjacency key that has at least one dependency.
pub open spec fn order_nodes(g: Map<Seq<char>, Seq<Seq<char>>>, names: Seq<Seq<char>>) -> Set<
    Seq<char>,
> {
    names.to_set().union(Set::new(|k: Seq<char>| g.contains_key(k) && g[k].len() > 0))
}

/// `n` is one of `nodes`, and so is everything it transitively depends on,
/// along dependency chains shorter than `k`.
pub open spec fn ready_within(
    g: Map<Seq<char>, Seq<Seq<char>>>,
    nodes: Set<Seq<char>>,
    n: Seq<char>,
    k: nat,
) -> bool
    decreases k,
{
    k > 0 && nodes.contains(n) && forall|d: Seq<char>|
        #[trigger] deps_of(g, n).contains(d) ==> ready_within(g, nodes, d, (k - 1) as nat)
}

/// `n` can be constructed from `nodes`: it is one of them and its dependencies
/// are, transitively, without running into a cycle.
pub open spec fn buildable(g: Map<Seq<char>, Seq<Seq<char>>>, nodes: Set<Seq<char>>, n: Seq<char>) -> bool {
    exists|k: nat| ready_within(g, nodes, n, k)
}

/// Every dependency of `order[i]` occurs in `order` before position `i`.
pub open spec fn deps_first(g: Map<Seq<char>, Seq<Seq<char>>>, order: Seq<Seq<char>>) -> bool {
    forall|i: int, d: Seq<char>|
        0 <= i < order.len() && #[trigger] deps_of(g, order[i]).contains(d) ==> exists|j: int|
            0 <= j < i && order[j] == d
}

/// The number of entries of `s` that are not in `e`.
pub open spec fn pending(s: Seq<Seq<char>>, e: Seq<Seq<char>>) -> nat
    decreases s.len(),
{
    if s.len() == 0 {
        0
    } else {
        pending(s.drop_last(), e) + if e.contains(s.last()) {
            0nat
        } else {
            1nat
        }
    }
}

/// The number of entries of `s` equal to `x`.
pub open spec fn occurrences(s: Seq<Seq<char>>, x: Seq<char>) -> nat
    decreases s.len(),
{
    if s.len() == 0 {
        0
    } else {
        occurrences(s.drop_last(), x) + if s.last() == x {
            1nat
        } else {
            0nat
        }
    }
}

proof fn lemma_pending_step(s: Seq<Seq<char>>, e: Seq<Seq<char>>, x: Seq<char>)
    requires
        !e.contains(x),
    ensures
        pending(s, e) == pending(s, e.push(x)) + occurrences(s, x),
    decreases s.len(),
{
    if s.len() > 0 {
        lemma_pending_step(s.drop_last(), e, x);
        let y = s.last();
        if e.push(x).contains(y) {
            let j = choose|j: int| 0 <= j < e.push(x).len() && e.push(x)[j] == y;
            if j < e.len() {
                assert(e[j] == y);
            }
        }
        if e.contains(y) {
            let j = choose|j: int| 0 <= j < e.len() && e[j] == y;
            assert(e.push(x)[j] == y);
        }
        assert(e.push(x)[e.len() as int] == x);
    }
}

proof fn lemma_pending_zero(s: Seq<Seq<char>>, e: Seq<Seq<char>>)
    ensures
        pending(s, e) == 0 <==> forall|d: Seq<char>| s.contains(d) ==> e.contains(d),
    decreases s.len(),
{
    if s.len() > 0 {
        lemma_pending_zero(s.drop_last(), e);
        if pending(s, e) == 0 {
            assert forall|d: Seq<char>| s.contains(d) implies e.contains(d) by {
                let j = choose|j: int| 0 <= j < s.len() && s[j] == d;
                if j < s.len() - 1 {
                    assert(s.drop_last()[j] == d);
                }
            }
        }
        if forall|d: Seq<char>| s.contains(d) ==> e.contains(d) {
            assert(s.contains(s[s.len() - 1]));
            assert forall|d: Seq<char>| s.drop_last().contains(d) implies e.contains(d) by {
                let j = choose|j: int| 0 <= j < s.drop_last().len() && s.drop_last()[j] == d;
                assert(s[j] == d);
            }
        }
    }
}

proof fn lemma_pending_none_built(s: Seq<Seq<char>>)
    ensures
        pending(s, Seq::empty()) == s.len(),
    decreases s.len(),
{
    if s.len() > 0 {
        lemma_pending_none_built(s.drop_last());
    }
}

proof fn lemma_ready_monotone(
    g: Map<Seq<char>, Seq<Seq<char>>>,
    nodes: Set<Seq<char>>,
    n: Seq<char>,
    a: nat,
    b: nat,
)
    requires
        ready_within(g, nodes, n, a),
        a <= b,
    ensures
        ready_within(g, nodes, n, b),
    decreases a,
{
    assert forall|d: Seq<char>| #[trigger] deps_of(g, n).contains(d) implies ready_within(
        g,
        nodes,
        d,
        (b - 1) as nat,
    ) by {
        lemma_ready_monotone(g, nodes, d, (a - 1) as nat, (b - 1) as nat);
    }
}

/// In an order of `nodes` whose dependencies come first, every node is
/// buildable.
proof fn lemma_order_buildable(
    g: Map<Seq<char>, Seq<Seq<char>>>,
    nodes: Set<Seq<char>>,
    order: Seq<Seq<char>>,
    i: int,
)
    requires
        deps_first(g, order),
        forall|m: int| 0 <= m < order.len() ==> nodes.contains(#[trigger] order[m]),
        0 <= i < order.len(),
    ensures
        ready_within(g, nodes, order[i], (i + 1) as nat),
    decreases i,
{
    assert forall|d: Seq<char>| #[trigger] deps_of(g, order[i]).contains(d) implies ready_within(
        g,
        nodes,
        d,
        i as nat,
    ) by {
        let j = choose|j: int| 0 <= j < i && order[j] == d;
        lemma_order_buildable(g, nodes, order, j);
        lemma_ready_monotone(g, nodes, d, (j + 1) as nat, i as nat);
    }
}

/// When every node of `nodes` is in `order` exactly when all its dependencies
/// are, every buildable node is in `order`.
proof fn lemma_buildable_in_order(
    g: Map<Seq<char>, Seq<Seq<char>>>,
    nodes: Set<Seq<char>>,
    order: Seq<Seq<char>>,
    n: Seq<char>,
    k: nat,
)
    requires
        forall|m: Seq<char>|
            nodes.contains(m) ==> (order.contains(m) <==> pending(deps_of(g, m), order) == 0),
        ready_within(g, nodes, n, k),
    ensures
        order.contains(n),
    decreases k,
{
    assert forall|d: Seq<char>| deps_of(g, n).contains(d) implies order.contains(d) by {
        assert(deps_of(g, n).contains(d));
        lemma_buildable_in_order(g, nodes, order, d, (k - 1) as nat);
    }
    lemma_pending_zero(deps_of(g, n), order);
}

/// The number of times `x` occurs in `v`.
fn count_name(v: &Vec<String>, x: &String) -> (c: usize)
    ensures
        c == occurrences(strs(v@), x@),
{
    let mut c: usize = 0;
    let mut j: usize = 0;
    while j < v.len()
        invariant
            j <= v@.len(),
            c <= j,
            c == occurrences(strs(v@).take(j as int), x@),
        decreases v@.len() - j,
    {
        proof {
            assert(strs(v@).take(j + 1).drop_last() =~= strs(v@).take(j as int));
            assert(strs(v@).take(j + 1).last() == v@[j as int]@);
        }
        if v[j] == *x {
            c = c + 1;
        }
        j = j + 1;
    }
    assert(strs(v@).take(v@.len() as int) =~= strs(v@));
    c
}


pub proof fn lemma_contains_name_push(s: Seq<Seq<char>>, a: Seq<char>, x: Seq<char>)
    ensures
        s.push(a).contains(x) <==> (s.contains(x) || x == a),
{
    lemma_contains_push(s, a, x);
}

proof fn lemma_contains_push(s: Seq<Seq<char>>, a: Seq<char>, x: Seq<char>)
    ensures
        s.push(a).contains(x) <==> (s.contains(x) || x == a),
{
    if s.push(a).contains(x) {
        let j = choose|j: int| 0 <= j < s.push(a).len() && s.push(a)[j] == x;
        if j < s.len() {
            assert(s[j] == x);
        }
    }
    if s.contains(x) {
        let j = choose|j: int| 0 <= j < s.len() && s[j] == x;
        assert(s.push(a)[j] == x);
    }
    assert(s.push(a)[s.len() as int] == a);
}

/// `s` with `x` appended unless it already occurs there.
pub open spec fn unique_push(s: Seq<Seq<char>>, x: Seq<char>) -> Seq<Seq<char>> {
    if s.contains(x) {
        s
    } else {
        s.push(x)
    }
}

/// The names of `nv` in order, each kept at its first occurrence.
pub open spec fn dedup_names(nv: Seq<Seq<char>>) -> Seq<Seq<char>>
    decreases nv.len(),
{
    if nv.len() == 0 {
        Seq::empty()
    } else {
        unique_push(dedup_names(nv.drop_last()), nv.last())
    }
}

/// `s` followed, in order, by the keys with at least one dependency that it
/// does not hold yet.
pub open spec fn add_keyed(s: Seq<Seq<char>>, keys: Seq<Seq<char>>, deps: Seq<Seq<Seq<char>>>) -> Seq<Seq<char>>
    decreases keys.len(),
{
    if keys.len() == 0 || deps.len() != keys.len() {
        s
    } else {
        let r = add_keyed(s, keys.drop_last(), deps.drop_last());
        if deps.last().len() > 0 {
            unique_push(r, keys.last())
        } else {
            r
        }
    }
}

/// The nodes with no dependency, in the order of `nn`.
pub open spec fn zero_deps(g: Map<Seq<char>, Seq<Seq<char>>>, nn: Seq<Seq<char>>) -> Seq<Seq<char>>
    decreases nn.len(),
{
    if nn.len() == 0 {
        Seq::empty()
    } else {
        let r = zero_deps(g, nn.drop_last());
        if deps_of(g, nn.last()).len() == 0 {
            r.push(nn.last())
        } else {
            r
        }
    }
}

/// The keys, in order, that building `x` after `built` makes ready: those that
/// depend on `x` and have nothing else left to wait for.
pub open spec fn released(
    keys: Seq<Seq<char>>,
    g: Map<Seq<char>, Seq<Seq<char>>>,
    built: Seq<Seq<char>>,
    x: Seq<char>,
) -> Seq<Seq<char>>
    decreases keys.len(),
{
    if keys.len() == 0 {
        Seq::empty()
    } else {
        let r = released(keys.drop_last(), g, built, x);
        let k = keys.last();
        if occurrences(deps_of(g, k), x) > 0 && pending(deps_of(g, k), built.push(x)) == 0 {
            r.push(k)
        } else {
            r
        }
    }
}

/// Kahn's queue after its first `h` nodes have been taken: the queue starts as
/// `init`, and taking a node appends what it releases.
pub open spec fn kahn_queue(
    keys: Seq<Seq<char>>,
    g: Map<Seq<char>, Seq<Seq<char>>>,
    init: Seq<Seq<char>>,
    h: nat,
) -> Seq<Seq<char>>
    decreases h,
{
    if h == 0 {
        init
    } else {
        let q = kahn_queue(keys, g, init, (h - 1) as nat);
        if h - 1 < q.len() {
            q + released(keys, g, q.take(h - 1), q[h - 1])
        } else {
            q
        }
    }
}

proof fn lemma_kahn_queue_settled(
    keys: Seq<Seq<char>>,
    g: Map<Seq<char>, Seq<Seq<char>>>,
    init: Seq<Seq<char>>,
    h: nat,
    k: nat,
)
    requires
        kahn_queue(keys, g, init, h).len() == h,
        h <= k,
    ensures
        kahn_queue(keys, g, init, k) == kahn_queue(keys, g, init, h),
    decreases k - h,
{
    if k > h {
        lemma_kahn_queue_settled(keys, g, init, h, (k - 1) as nat);
    }
}

impl Adjacency {
    /// The nodes a topological order of `names` ranges over, in the order it
    /// considers them: the names, then the keys with a dependency.
    pub closed spec fn node_seq(&self, names: Seq<Seq<char>>) -> Seq<Seq<char>> {
        add_keyed(dedup_names(names), self.key_seq(), self.dep_seq())
    }

    /// The order `topological_sort` gives: Kahn's algorithm with a first-in,
    /// first-out queue, started from the nodes without dependencies in the
    /// order of `node_seq`, releasing nodes in the order of the entries.
    pub closed spec fn topo_order(&self, names: Seq<Seq<char>>) -> Seq<Seq<char>> {
        let nn = self.node_seq(names);
        kahn_queue(self.key_seq(), self@, zero_deps(self@, nn), nn.len())
    }
}

/// Appends `s` to `v` unless it already occurs there.
fn push_unique(v: &mut Vec<String>, s: &String)
    requires
        strs(old(v)@).no_duplicates(),
    ensures
        strs(final(v)@).no_duplicates(),
        forall|x: Seq<char>| strs(final(v)@).contains(x) <==> (strs(old(v)@).contains(x) || x == s@),
        strs(final(v)@) == unique_push(strs(old(v)@), s@),
{
    let ghost before = strs(v@);
    if find_name(v, s).is_none() {
        v.push(s.clone());
        assert(strs(v@) =~= before.push(s@));
        proof {
            assert forall|x: Seq<char>| strs(v@).contains(x) <==> (before.contains(x) || x == s@) by {
                lemma_contains_push(before, s@, x);
            }
        }
    }
}

impl Adjacency {
    /// The entry at `f` has key `x` and at least one dependency.
    closed spec fn keyed_at(&self, x: Seq<char>, f: int) -> bool {
        0 <= f < self.key_seq().len() && self.key_seq()[f] == x && self.dep_seq()[f].len() > 0
    }

    /// The distinct nodes a topological order ranges over.
    fn order_node_list(&self, names: &Vec<String>) -> (nodes: Vec<String>)
        ensures
            strs(nodes@).no_duplicates(),
            forall|x: Seq<char>|
                strs(nodes@).contains(x) <==> order_nodes(self@, strs(names@)).contains(x),
            strs(nodes@) == self.node_seq(strs(names@)),
    {
        proof { use_type_invariant(self); }
        let ghost nv = strs(names@);
        let mut nodes: Vec<String> = Vec::new();
        let mut i: usize = 0;
        assert(strs(nodes@) =~= Seq::<Seq<char>>::empty());
        while i < names.len()
            invariant
                nv == strs(names@),
                i <= names@.len(),
                strs(nodes@).no_duplicates(),
                forall|x: Seq<char>| strs(nodes@).contains(x) <==> nv.take(i as int).contains(x),
                strs(nodes@) == dedup_names(nv.take(i as int)),
            decreases names@.len() - i,
        {
            push_unique(&mut nodes, &names[i]);
            proof {
                assert(nv.take(i + 1) =~= nv.take(i as int).push(nv[i as int]));
                assert(nv.take(i + 1).drop_last() =~= nv.take(i as int));
                assert forall|x: Seq<char>| strs(nodes@).contains(x) <==> nv.take(i + 1).contains(x) by {
                    lemma_contains_push(nv.take(i as int), nv[i as int], x);
                }
            }
            i = i + 1;
        }
        assert(nv.take(names@.len() as int) =~= nv);
        let ghost dn = dedup_names(nv);
        assert(add_keyed(dn, self.key_seq().take(0), self.dep_seq().take(0)) == dn);
        let mut e: usize = 0;
        while e < self.entries.len()
            invariant
                nv == strs(names@),
                self.key_seq().no_duplicates(),
                e <= self.entries@.len(),
                strs(nodes@).no_duplicates(),
                forall|x: Seq<char>|
                    strs(nodes@).contains(x) <==> (nv.contains(x) || exists|f: int|
                        0 <= f < e && #[trigger] self.keyed_at(x, f)),
                dn == dedup_names(nv),
                strs(nodes@) == add_keyed(dn, self.key_seq().take(e as int), self.dep_seq().take(e as int)),
            decreases self.entries@.len() - e,
        {
            proof {
                assert(self.key_seq().take(e + 1).drop_last() =~= self.key_seq().take(e as int));
                assert(self.dep_seq().take(e + 1).drop_last() =~= self.dep_seq().take(e as int));
            }
            let ghost before = strs(nodes@);
            let ghost kx = self.key_seq()[e as int];
            assert(forall|x: Seq<char>| before.contains(x) <==> (nv.contains(x) || exists|f: int|
                        0 <= f < e && #[trigger] self.keyed_at(x, f)));
            assert(self.entries@[e as int].0@ == kx);
            assert(strs(self.entries@[e as int].1@) == self.dep_seq()[e as int]);
            if self.entries[e].1.len() > 0 {
                push_unique(&mut nodes, &self.entries[e].0);
            }
            proof {
                assert forall|x: Seq<char>|
                    strs(nodes@).contains(x) <==> (nv.contains(x) || exists|f: int|
                        0 <= f < e + 1 && #[trigger] self.keyed_at(x, f)) by {
                    if exists|f: int| 0 <= f < e + 1 && #[trigger] self.keyed_at(x, f) {
                        let f = choose|f: int| 0 <= f < e + 1 && #[trigger] self.keyed_at(x, f);
                        if f < e {
                            assert(before.contains(x));
                        } else {
                            assert(x == kx);
                        }
                    }
                    if self.keyed_at(x, e as int) {
                        assert(exists|f: int| 0 <= f < e + 1 && #[trigger] self.keyed_at(x, f));
                    }
                    if exists|f: int| 0 <= f < e && #[trigger] self.keyed_at(x, f) {
                        let f = choose|f: int| 0 <= f < e && #[trigger] self.keyed_at(x, f);
                        assert(0 <= f < e + 1 && self.keyed_at(x, f));
                    }
                }
            }
            e = e + 1;
        }
        assert(self.key_seq().take(self.entries@.len() as int) =~= self.key_seq());
        assert(self.dep_seq().take(self.entries@.len() as int) =~= self.dep_seq());
        proof {
            let g = self@;
            assert forall|x: Seq<char>|
                strs(nodes@).contains(x) <==> order_nodes(g, nv).contains(x) by {
                assert(order_nodes(g, nv).contains(x) == (nv.to_set().contains(x) || (g.contains_key(x) && g[x].len() > 0)));
                assert(nv.to_set().contains(x) == nv.contains(x));
                if g.contains_key(x) && g[x].len() > 0 {
                    let f = self.key_seq().index_of(x);
                    assert(self.key_seq()[f] == x);
                    self.lemma_lookup(f);
                    assert(self.keyed_at(x, f));
                }
                if exists|f: int| 0 <= f < self.entries@.len() && #[trigger] self.keyed_at(x, f) {
                    let f = choose|f: int| 0 <= f < self.entries@.len() && #[trigger] self.keyed_at(x, f);
                    self.lemma_lookup(f);
                }
            }
        }
        nodes
    }
}


proof fn lemma_distinct_subset_len(q: Seq<Seq<char>>, n: Seq<Seq<char>>)
    requires
        q.no_duplicates(),
        forall|x: Seq<char>| q.contains(x) ==> n.contains(x),
    ensures
        q.len() <= n.len(),
{
    broadcast use vstd::seq_lib::seq_to_set_is_finite;
    q.unique_seq_to_set();
    n.lemma_cardinality_of_set();
    assert(q.to_set().subset_of(n.to_set()));
    vstd::set_lib::lemma_len_subset(q.to_set(), n.to_set());
}

/// Orders the nodes so that each comes after everything it depends on
/// (Kahn's algorithm). The nodes are `names` and every adjacency key with a
/// dependency; a node is left out exactly when it cannot be built, because it
/// depends, transitively, on a node outside them or on a cycle.
/// The order is `topo_order` of the adjacency and the names, so the same
/// adjacency and names always give the same order.
pub fn topological_sort(adjacency: &Adjacency, names: &Vec<String>) -> (order: Vec<String>)
    ensures
        strs(order@).no_duplicates(),
        forall|i: int|
            0 <= i < order@.len() ==> order_nodes(adjacency@, strs(names@)).contains(
                #[trigger] strs(order@)[i],
            ),
        deps_first(adjacency@, strs(order@)),
        forall|n: Seq<char>|
            order_nodes(adjacency@, strs(names@)).contains(n) ==> (strs(order@).contains(n)
                <==> buildable(adjacency@, order_nodes(adjacency@, strs(names@)), n)),
        strs(order@) == adjacency.topo_order(strs(names@)),
{
    proof { use_type_invariant(adjacency); }
    let ghost g = adjacency@;
    let ghost on = order_nodes(g, strs(names@));
    let ghost keys = adjacency.key_seq();
    let nodes = adjacency.order_node_list(names);
    let ghost nn = strs(nodes@);

    let mut indeg: Vec<usize> = Vec::new();
    let mut i: usize = 0;
    while i < nodes.len()
        invariant
            g == adjacency@,
            nn == strs(nodes@),
            i <= nodes@.len(),
            indeg@.len() == i,
            forall|m: int| 0 <= m < i ==> indeg@[m] == deps_of(g, #[trigger] nn[m]).len(),
        decreases nodes@.len() - i,
    {
        let d = match adjacency.get(&nodes[i]) {
            Some(ds) => ds.len(),
            None => 0,
        };
        indeg.push(d);
        i = i + 1;
    }

    let mut queue: Vec<String> = Vec::new();
    i = 0;
    while i < nodes.len()
        invariant
            g == adjacency@,
            nn == strs(nodes@),
            nn.no_duplicates(),
            i <= nodes@.len(),
            indeg@.len() == nn.len(),
            forall|m: int| 0 <= m < nn.len() ==> indeg@[m] == deps_of(g, #[trigger] nn[m]).len(),
            strs(queue@).no_duplicates(),
            forall|x: Seq<char>| strs(queue@).contains(x) ==> nn.contains(x),
            forall|m: int|
                0 <= m < nn.len() ==> (strs(queue@).contains(#[trigger] nn[m]) <==> (m < i
                    && deps_of(g, nn[m]).len() == 0)),
            forall|m: int|
                0 <= m < strs(queue@).len() ==> deps_of(g, #[trigger] strs(queue@)[m]).len() == 0,
            strs(queue@) == zero_deps(g, nn.take(i as int)),
        decreases nodes@.len() - i,
    {
        proof {
            assert(nn.take(i + 1).drop_last() =~= nn.take(i as int));
            assert(nn.take(i + 1).last() == nn[i as int]);
        }
        if indeg[i] == 0 {
            let ghost q0 = strs(queue@);
            queue.push(nodes[i].clone());
            proof {
                let q = strs(queue@);
                assert(q =~= q0.push(nn[i as int]));
                assert(!q0.contains(nn[i as int]));
                assert forall|x: Seq<char>| q.contains(x) implies nn.contains(x) by {
                    lemma_contains_push(q0, nn[i as int], x);
                }
                assert forall|m: int| 0 <= m < nn.len() implies (q.contains(#[trigger] nn[m]) <==> (m
                    < i + 1 && deps_of(g, nn[m]).len() == 0)) by {
                    lemma_contains_push(q0, nn[i as int], nn[m]);
                }
            }
        }
        i = i + 1;
    }
    let ghost init = zero_deps(g, nn);
    assert(nn.take(nn.len() as int) =~= nn);
    assert(strs(queue@) == kahn_queue(keys, g, init, 0));
    proof {
        let q = strs(queue@);
        assert(q.take(0) =~= Seq::<Seq<char>>::empty());
        assert forall|m: int| 0 <= m < nn.len() implies indeg@[m] == pending(
            deps_of(g, #[trigger] nn[m]),
            q.take(0),
        ) by {
            lemma_pending_none_built(deps_of(g, nn[m]));
        }
        assert forall|i: int, d: Seq<char>|
            0 <= i < q.len() && #[trigger] deps_of(g, q[i]).contains(d) implies exists|j: int|
            0 <= j < i && q[j] == d by {
            assert(deps_of(g, q[i]).len() == 0);
        }
    }

    let mut result: Vec<String> = Vec::new();
    let mut head: usize = 0;
    assert(strs(result@) =~= strs(queue@).take(0));
    while head < queue.len()
        invariant
            g == adjacency@,
            adjacency.key_seq().no_duplicates(),
            nn == strs(nodes@),
            nn.no_duplicates(),
            forall|x: Seq<char>| nn.contains(x) <==> on.contains(x),
            on == order_nodes(g, strs(names@)),
            indeg@.len() == nn.len(),
            head <= queue@.len(),
            strs(queue@).no_duplicates(),
            forall|x: Seq<char>| strs(queue@).contains(x) ==> nn.contains(x),
            forall|m: int|
                0 <= m < nn.len() ==> indeg@[m] == pending(
                    deps_of(g, #[trigger] nn[m]),
                    strs(queue@).take(head as int),
                ),
            forall|m: int|
                0 <= m < nn.len() ==> (strs(queue@).contains(#[trigger] nn[m]) <==> pending(
                    deps_of(g, nn[m]),
                    strs(queue@).take(head as int),
                ) == 0),
            deps_first(g, strs(queue@)),
            strs(result@) == strs(queue@).take(head as int),
            keys == adjacency.key_seq(),
            keys.len() == adjacency.entries@.len(),
            strs(queue@) == kahn_queue(keys, g, init, head as nat),
        decreases nn.len() - head,
    {
        proof { lemma_distinct_subset_len(strs(queue@), nn); }
        let ghost q0 = strs(queue@);
        let ghost h = head as int;
        let ghost e0 = q0.take(h);
        let ghost e1 = q0.take(h + 1);
        let x = queue[head].clone();
        result.push(queue[head].clone());
        head = head + 1;
        proof {
            assert(e1 =~= e0.push(x@));
            assert(strs(result@) =~= e1);
            if e0.contains(x@) {
                let j = choose|j: int| 0 <= j < e0.len() && e0[j] == x@;
                assert(q0[j] == q0[h]);
            }
        }
        assert(x@ == q0[h]);
        assert(keys.take(0) =~= Seq::<Seq<char>>::empty());
        assert(q0 + released(keys.take(0), g, e0, x@) =~= q0);
        let mut e: usize = 0;
        while e < adjacency.entries.len()
            invariant
                g == adjacency@,
                adjacency.key_seq().no_duplicates(),
                nn == strs(nodes@),
                nn.no_duplicates(),
                forall|y: Seq<char>| nn.contains(y) <==> on.contains(y),
                on == order_nodes(g, strs(names@)),
                indeg@.len() == nn.len(),
                e <= adjacency.entries@.len(),
                head == h + 1,
                h + 1 <= q0.len(),
                e0 == q0.take(h),
                e1 == q0.take(h + 1),
                e1 == e0.push(x@),
                !e0.contains(x@),
                strs(queue@).take(q0.len() as int) == q0,
                q0.len() <= strs(queue@).len(),
                strs(queue@).no_duplicates(),
                forall|y: Seq<char>| strs(queue@).contains(y) ==> nn.contains(y),
                forall|m: int|
                    0 <= m < nn.len() ==> indeg@[m] == (if g.contains_key(#[trigger] nn[m])
                        && adjacency.key_seq().index_of(nn[m]) < e {
                        pending(deps_of(g, nn[m]), e1)
                    } else {
                        pending(deps_of(g, nn[m]), e0)
                    }),
                forall|m: int|
                    0 <= m < nn.len() ==> (strs(queue@).contains(#[trigger] nn[m]) <==> (if g.contains_key(
                        nn[m],
                    ) && adjacency.key_seq().index_of(nn[m]) < e {
                        pending(deps_of(g, nn[m]), e1) == 0
                    } else {
                        pending(deps_of(g, nn[m]), e0) == 0
                    })),
                deps_first(g, strs(queue@)),
                keys == adjacency.key_seq(),
                keys.len() == adjacency.entries@.len(),
                x@ == q0[h],
                strs(queue@) == q0 + released(keys.take(e as int), g, e0, x@),
            decreases adjacency.entries@.len() - e,
        {
            proof {
                assert(keys.take(e + 1).drop_last() =~= keys.take(e as int));
                assert(keys.take(e + 1).last() == keys[e as int]);
            }
            let ghost qb = strs(queue@);
            let ghost ib = indeg@;
            let ghost k = adjacency.key_seq()[e as int];
            let ghost ds = adjacency.dep_seq()[e as int];
            proof {
                adjacency.lemma_lookup(e as int);
                assert(adjacency.entries@[e as int].0@ == k);
                assert(strs(adjacency.entries@[e as int].1@) == ds);
                assert(deps_of(g, k) == ds);
                lemma_pending_step(ds, e0, x@);
                assert(adjacency.key_seq().index_of(k) == e) by {
                    let f = adjacency.key_seq().index_of(k);
                    assert(adjacency.key_seq().contains(k));
                    assert(adjacency.key_seq()[f] == k);
                }
                assert forall|y: Seq<char>| g.contains_key(y) && y != k implies adjacency.key_seq().index_of(y)
                    != e by {
                    let f = adjacency.key_seq().index_of(y);
                    assert(adjacency.key_seq().contains(y));
                    assert(adjacency.key_seq()[f] == y);
                }
            }
            let c = count_name(&adjacency.entries[e].1, &x);
            if c > 0 {
                proof {
                    assert(ds.len() > 0);
                    assert(on.contains(k));
                    assert(nn.contains(k));
                }
                match find_name(&nodes, &adjacency.entries[e].0) {
                    Some(pos) => {
                        assert(nn[pos as int] == k);
                        let newv = indeg[pos] - c;
                        indeg.set(pos, newv);
                        if newv == 0 {
                            proof {
                                assert(!qb.contains(k));
                            }
                            queue.push(adjacency.entries[e].0.clone());
                            proof {
                                let q = strs(queue@);
                                assert(q =~= qb.push(k));
                                lemma_pending_zero(ds, e1);
                                assert forall|y: Seq<char>| q.contains(y) implies nn.contains(y) by {
                                    lemma_contains_push(qb, k, y);
                                }
                                assert(q.take(q0.len() as int) =~= qb.take(q0.len() as int));
                                assert forall|m: int| 0 <= m < nn.len() implies (q.contains(#[trigger] nn[m]) <==> qb.contains(nn[m]) || nn[m] == k) by {
                                    lemma_contains_push(qb, k, nn[m]);
                                }
                                assert forall|i: int, d: Seq<char>|
                                    0 <= i < q.len() && #[trigger] deps_of(g, q[i]).contains(d) implies exists|j: int|
                                    0 <= j < i && q[j] == d by {
                                    if i < qb.len() {
                                        assert(q[i] == qb[i]);
                                        let j = choose|j: int| 0 <= j < i && qb[j] == d;
                                        assert(q[j] == d);
                                    } else {
                                        assert(q[i] == k);
                                        assert(e1.contains(d));
                                        let j = choose|j: int| 0 <= j < e1.len() && e1[j] == d;
                                        assert(q0[j] == d);
                                        assert(qb[j] == d);
                                        assert(q[j] == d);
                                    }
                                }
                                assert(pending(ds, e1) == 0);
                                assert(released(keys.take(e + 1), g, e0, x@) == released(keys.take(e as int), g, e0, x@).push(k));
                                assert(q =~= q0 + released(keys.take(e + 1), g, e0, x@));
                            }
                        } else {
                            proof {
                                assert(pending(ds, e1) != 0);
                                assert(released(keys.take(e + 1), g, e0, x@) == released(keys.take(e as int), g, e0, x@));
                            }
                        }
                        proof {
                            assert forall|m: int| 0 <= m < nn.len() && nn[m] != k implies indeg@[m] == ib[m] by {}
                            assert forall|m: int| 0 <= m < nn.len() && nn[m] == k implies m == pos by {}
                        }
                    },
                    None => {
                        assert(false);
                    },
                }
            } else {
                proof {
                    assert(occurrences(ds, x@) == 0);
                    assert(released(keys.take(e + 1), g, e0, x@) == released(keys.take(e as int), g, e0, x@));
                }
            }
            e = e + 1;
        }
        proof {
            assert(keys.take(keys.len() as int) =~= keys);
            assert(strs(queue@) == kahn_queue(keys, g, init, head as nat));
        }
        proof {
            let q = strs(queue@);
            assert(q.take(head as int) =~= e1) by {
                assert(q.take(q0.len() as int).take(h + 1) =~= q.take(h + 1));
            }
            assert forall|m: int| 0 <= m < nn.len() implies indeg@[m] == pending(
                deps_of(g, #[trigger] nn[m]),
                q.take(head as int),
            ) by {
                if g.contains_key(nn[m]) {
                    let f = adjacency.key_seq().index_of(nn[m]);
                    assert(adjacency.key_seq().contains(nn[m]));
                    assert(adjacency.key_seq()[f] == nn[m]);
                } else {
                    lemma_pending_none_built(deps_of(g, nn[m]));
                    assert(pending(deps_of(g, nn[m]), e0) == 0) by {
                        lemma_pending_zero(deps_of(g, nn[m]), e0);
                    }
                    assert(pending(deps_of(g, nn[m]), e1) == 0) by {
                        lemma_pending_zero(deps_of(g, nn[m]), e1);
                    }
                }
            }
            assert forall|m: int| 0 <= m < nn.len() implies (q.contains(#[trigger] nn[m]) <==> pending(
                deps_of(g, nn[m]),
                q.take(head as int),
            ) == 0) by {
                if g.contains_key(nn[m]) {
                    let f = adjacency.key_seq().index_of(nn[m]);
                    assert(adjacency.key_seq().contains(nn[m]));
                    assert(adjacency.key_seq()[f] == nn[m]);
                } else {
                    lemma_pending_zero(deps_of(g, nn[m]), e0);
                    lemma_pending_zero(deps_of(g, nn[m]), e1);
                }
            }
        }
    }
    proof {
        let q = strs(queue@);
        assert(q.take(head as int) =~= q);
        assert(strs(result@) =~= q);
        lemma_distinct_subset_len(q, nn);
        lemma_kahn_queue_settled(keys, g, init, head as nat, nn.len());
        assert(nn == adjacency.node_seq(strs(names@)));
        assert forall|i: int| 0 <= i < q.len() implies on.contains(#[trigger] q[i]) by {
            assert(q.contains(q[i]));
        }
        assert forall|n: Seq<char>| on.contains(n) implies (q.contains(n) <==> buildable(g, on, n)) by {
            if q.contains(n) {
                let i = choose|i: int| 0 <= i < q.len() && q[i] == n;
                lemma_order_buildable(g, on, q, i);
            }
            if buildable(g, on, n) {
                let k = choose|k: nat| ready_within(g, on, n, k);
                assert forall|y: Seq<char>| on.contains(y) implies (q.contains(y) <==> pending(deps_of(g, y), q) == 0) by {
                    assert(nn.contains(y));
                    let m = choose|m: int| 0 <= m < nn.len() && nn[m] == y;
                }
                lemma_buildable_in_order(g, on, q, n, k);
            }
        }
    }
    result
}


spec fn all_ready_within(
    g: Map<Seq<char>, Seq<Seq<char>>>,
    on: Set<Seq<char>>,
    s: Seq<Seq<char>>,
    k: nat,
) -> bool {
    forall|d: Seq<char>| s.contains(d) ==> ready_within(g, on, d, k)
}

proof fn lemma_all_ready(g: Map<Seq<char>, Seq<Seq<char>>>, on: Set<Seq<char>>, s: Seq<Seq<char>>)
    requires
        forall|d: Seq<char>| s.contains(d) ==> buildable(g, on, d),
    ensures
        exists|k: nat| all_ready_within(g, on, s, k),
    decreases s.len(),
{
    if s.len() == 0 {
        assert(all_ready_within(g, on, s, 0));
    } else {
        let t = s.drop_last();
        assert forall|d: Seq<char>| t.contains(d) implies buildable(g, on, d) by {
            let j = choose|j: int| 0 <= j < t.len() && t[j] == d;
            assert(s[j] == d);
            assert(s.contains(d));
        }
        lemma_all_ready(g, on, t);
        let k1 = choose|k: nat| all_ready_within(g, on, t, k);
        assert(s.contains(s.last()));
        let k2 = choose|k: nat| ready_within(g, on, s.last(), k);
        let k = if k1 < k2 { k2 } else { k1 };
        assert forall|d: Seq<char>| s.contains(d) implies ready_within(g, on, d, k) by {
            let j = choose|j: int| 0 <= j < s.len() && s[j] == d;
            if j < s.len() - 1 {
                assert(t[j] == d);
                assert(t.contains(d));
                assert(all_ready_within(g, on, t, k1));
                lemma_ready_monotone(g, on, d, k1, k);
            } else {
                lemma_ready_monotone(g, on, d, k2, k);
            }
        }
        assert(all_ready_within(g, on, s, k));
    }
}

proof fn lemma_unbuildable_step(g: Map<Seq<char>, Seq<Seq<char>>>, on: Set<Seq<char>>, m: Seq<char>)
    requires
        on.contains(m),
        !buildable(g, on, m),
    ensures
        exists|d: Seq<char>| deps_of(g, m).contains(d) && !buildable(g, on, d),
{
    if forall|d: Seq<char>| deps_of(g, m).contains(d) ==> buildable(g, on, d) {
        lemma_all_ready(g, on, deps_of(g, m));
        let k = choose|k: nat| all_ready_within(g, on, deps_of(g, m), k);
        assert(ready_within(g, on, m, k + 1));
    }
}

/// A walk from `n` that keeps stepping to an unbuildable dependency.
spec fn unbuildable_walk(
    g: Map<Seq<char>, Seq<Seq<char>>>,
    on: Set<Seq<char>>,
    n: Seq<char>,
    len: nat,
) -> Seq<Seq<char>>
    decreases len,
{
    if len == 0 {
        seq![n]
    } else {
        let p = unbuildable_walk(g, on, n, (len - 1) as nat);
        p.push(choose|d: Seq<char>| deps_of(g, p.last()).contains(d) && !buildable(g, on, d))
    }
}

proof fn lemma_unbuildable_walk(
    g: Map<Seq<char>, Seq<Seq<char>>>,
    names: Seq<Seq<char>>,
    n: Seq<char>,
    len: nat,
)
    requires
        forall|u: Seq<char>, v: Seq<char>| #[trigger] depends_on(g, u, v) ==> names.contains(v),
        names.contains(n),
        !buildable(g, order_nodes(g, names), n),
    ensures
        unbuildable_walk(g, order_nodes(g, names), n, len).len() == len + 1,
        unbuildable_walk(g, order_nodes(g, names), n, len)[0] == n,
        is_dep_path(g, unbuildable_walk(g, order_nodes(g, names), n, len)),
        forall|i: int|
            0 <= i <= len ==> names.contains(
                #[trigger] unbuildable_walk(g, order_nodes(g, names), n, len)[i],
            ) && !buildable(g, order_nodes(g, names), unbuildable_walk(g, order_nodes(g, names), n, len)[i]),
    decreases len,
{
    let on = order_nodes(g, names);
    if len > 0 {
        lemma_unbuildable_walk(g, names, n, (len - 1) as nat);
        let p = unbuildable_walk(g, on, n, (len - 1) as nat);
        let last = p.last();
        assert(names.contains(p[len - 1]));
        assert(on.contains(last));
        lemma_unbuildable_step(g, on, last);
        let d = choose|d: Seq<char>| deps_of(g, last).contains(d) && !buildable(g, on, d);
        let w = unbuildable_walk(g, on, n, len);
        assert(w == p.push(d));
        assert(depends_on(g, last, d));
        assert forall|i: int| 0 <= i < w.len() - 1 implies #[trigger] depends_on(g, w[i], w[i + 1]) by {
            if i < p.len() - 1 {
                assert(w[i] == p[i] && w[i + 1] == p[i + 1]);
                assert(depends_on(g, p[i], p[i + 1]));
            }
        }
        assert forall|i: int| 0 <= i <= len implies names.contains(#[trigger] w[i]) && !buildable(g, on, w[i]) by {
            if i < len {
                assert(w[i] == p[i]);
            }
        }
    }
}

/// Law: when every dependency names one of `names` and no dependency cycle can
/// be reached from `names`, every name can be built, so the topological order
/// lists every one of them.
pub proof fn law_acyclic_names_buildable(
    g: Map<Seq<char>, Seq<Seq<char>>>,
    names: Seq<Seq<char>>,
    n: Seq<char>,
)
    requires
        forall|u: Seq<char>, v: Seq<char>| #[trigger] depends_on(g, u, v) ==> names.contains(v),
        !has_reachable_cycle(g, names),
        names.contains(n),
    ensures
        buildable(g, order_nodes(g, names), n),
{
    broadcast use vstd::seq_lib::seq_to_set_is_finite;
    let on = order_nodes(g, names);
    if !buildable(g, on, n) {
        let len = names.len();
        lemma_unbuildable_walk(g, names, n, len);
        let w = unbuildable_walk(g, on, n, len);
        if w.no_duplicates() {
            w.unique_seq_to_set();
            names.lemma_cardinality_of_set();
            assert forall|x: Seq<char>| w.to_set().contains(x) implies names.to_set().contains(x) by {
                let i = choose|i: int| 0 <= i < w.len() && w[i] == x;
                assert(names.contains(w[i]));
            }
            vstd::set_lib::lemma_len_subset(w.to_set(), names.to_set());
            assert(false);
        }
        let (a, b) = choose|a: int, b: int| 0 <= a < w.len() && 0 <= b < w.len() && a != b && w[a] == w[b];
        let lo = if a < b { a } else { b };
        let hi = if a < b { b } else { a };
        let p = w.take(hi + 1);
        assert(p[lo] == p.last());
        assert(p[0] == n);
        assert forall|i: int| 0 <= i < p.len() - 1 implies #[trigger] depends_on(g, p[i], p[i + 1]) by {
            assert(depends_on(g, w[i], w[i + 1]));
        }
        assert(is_lasso(g, names, p));
    }
}

} // verus!
