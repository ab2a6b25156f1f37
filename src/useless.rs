use vstd::prelude::*;
use crate::grammar::{copy_ids, production_views, Grammar, ProductionReference};

verus! {

/// `b` is a non-terminal that occurs in `body`.
pub open spec fn depends_on(g: &Grammar, body: Seq<usize>, b: usize) -> bool {
    body.contains(b) && g.is_nt(b)
}

/// A set of symbols that holds the head of every production whose body's
/// non-terminals it all holds.
pub open spec fn closed_under(g: &Grammar, s: Set<usize>) -> bool {
    forall|i: int|
        0 <= i < g.productions().len() && (forall|b: usize| #[trigger]
            depends_on(g, g.productions()[i].1, b) ==> s.contains(b))
            ==> s.contains(#[trigger] g.productions()[i].0)
}

/// A productive symbol: one that every closed set holds, that is, one that
/// derives a string of terminals in finitely many steps.
pub open spec fn productive_symbol(g: &Grammar, h: usize) -> bool {
    forall|s: Set<usize>| closed_under(g, s) ==> #[trigger] s.contains(h)
}

/// A productive production: every non-terminal of its body is productive.
pub open spec fn productive_production(g: &Grammar, p: (usize, Seq<usize>)) -> bool {
    forall|b: usize| #[trigger] depends_on(g, p.1, b) ==> productive_symbol(g, b)
}

/// The stored productions that are not productive.
pub open spec fn useless_productions(g: &Grammar) -> Set<(usize, Seq<usize>)> {
    Set::new(|p: (usize, Seq<usize>)| g.productions().contains(p) && !productive_production(g, p))
}

/// How many entries of `s` are not yet marked in `done`.
spec fn pending(s: Seq<usize>, done: Seq<bool>) -> nat
    decreases s.len(),
{
    if s.len() == 0 {
        0
    } else {
        pending(s.drop_last(), done) + if done[s.last() as int] {
            0nat
        } else {
            1nat
        }
    }
}

proof fn lemma_pending_none_done(s: Seq<usize>, done: Seq<bool>)
    requires
        forall|k: int| 0 <= k < s.len() ==> !done[#[trigger] s[k] as int],
    ensures
        pending(s, done) == s.len(),
    decreases s.len(),
{
    if s.len() > 0 {
        lemma_pending_none_done(s.drop_last(), done);
    }
}

proof fn lemma_pending_zero(s: Seq<usize>, done: Seq<bool>)
    ensures
        pending(s, done) == 0 <==> forall|k: int| 0 <= k < s.len() ==> done[#[trigger] s[k] as int],
    decreases s.len(),
{
    if s.len() > 0 {
        let t = s.drop_last();
        lemma_pending_zero(t, done);
        if pending(s, done) == 0 {
            assert forall|k: int| 0 <= k < s.len() implies done[#[trigger] s[k] as int] by {
                if k < s.len() - 1 {
                    assert(s[k] == t[k]);
                }
            }
        }
        if forall|k: int| 0 <= k < s.len() ==> done[#[trigger] s[k] as int] {
            assert forall|k: int| 0 <= k < t.len() implies done[#[trigger] t[k] as int] by {
                assert(t[k] == s[k]);
            }
            assert(done[s[s.len() - 1] as int]);
        }
    }
}

proof fn lemma_pending_mark(s: Seq<usize>, done: Seq<bool>, b: usize)
    requires
        s.no_duplicates(),
        forall|k: int| 0 <= k < s.len() ==> #[trigger] s[k] < done.len(),
        b < done.len(),
        !done[b as int],
    ensures
        pending(s, done.update(b as int, true)) + (if s.contains(b) { 1nat } else { 0nat })
            == pending(s, done),
    decreases s.len(),
{
    if s.len() > 0 {
        let t = s.drop_last();
        assert(t.no_duplicates());
        assert forall|k: int| 0 <= k < t.len() implies #[trigger] t[k] < done.len() by {
            assert(t[k] == s[k]);
        }
        lemma_pending_mark(t, done, b);
        assert(s.last() == s[s.len() - 1]);
        if s.last() == b {
            assert(!t.contains(b)) by {
                if t.contains(b) {
                    let k = choose|k: int| 0 <= k < t.len() && t[k] == b;
                    assert(s[k] == s[s.len() - 1]);
                }
            }
        } else {
            assert(s.contains(b) == t.contains(b)) by {
                if s.contains(b) {
                    let k = choose|k: int| 0 <= k < s.len() && s[k] == b;
                    assert(t[k] == b);
                }
                if t.contains(b) {
                    let k = choose|k: int| 0 <= k < t.len() && t[k] == b;
                    assert(s[k] == b);
                }
            }
        }
    }
}

proof fn lemma_push_contains<A>(s: Seq<A>, x: A)
    ensures
        forall|y: A| #[trigger] s.push(x).contains(y) <==> (s.contains(y) || y == x),
{
    assert forall|y: A| #[trigger] s.push(x).contains(y) <==> (s.contains(y) || y == x) by {
        if s.contains(y) {
            let w = choose|w: int| 0 <= w < s.len() && s[w] == y;
            assert(s.push(x)[w] == y);
        }
        if y == x {
            assert(s.push(x)[s.len() as int] == y);
        }
        if s.push(x).contains(y) && y != x {
            let w = choose|w: int| 0 <= w < s.push(x).len() && s.push(x)[w] == y;
            assert(s[w] == y);
        }
    }
}

/// The ids `0..m`.
spec fn all_ids(m: nat) -> Seq<usize> {
    Seq::new(m, |k: int| k as usize)
}

proof fn lemma_all_ids(m: nat)
    requires
        m <= usize::MAX + 1,
    ensures
        all_ids(m).no_duplicates(),
        forall|b: usize| b < m ==> #[trigger] all_ids(m).contains(b),
{
    assert forall|b: usize| b < m implies #[trigger] all_ids(m).contains(b) by {
        assert(all_ids(m)[b as int] == b);
    }
}

/// Whether `v` holds `x`.
fn contains_id(v: &Vec<usize>, x: usize) -> (r: bool)
    ensures
        r == v@.contains(x),
{
    let mut i: usize = 0;
    while i < v.len()
        invariant
            0 <= i <= v@.len(),
            forall|k: int| 0 <= k < i ==> v@[k] != x,
        decreases v@.len() - i,
    {
        if v[i] == x {
            return true;
        }
        i = i + 1;
    }
    false
}

/// Whether two bodies are the same sequence of symbols.
fn same_body(a: &Vec<usize>, b: &Vec<usize>) -> (r: bool)
    ensures
        r == (a@ == b@),
{
    if a.len() != b.len() {
        return false;
    }
    let mut i: usize = 0;
    while i < a.len()
        invariant
            a@.len() == b@.len(),
            0 <= i <= a@.len(),
            forall|k: int| 0 <= k < i ==> a@[k] == b@[k],
        decreases a@.len() - i,
    {
        if a[i] != b[i] {
            return false;
        }
        i = i + 1;
    }
    assert(a@ =~= b@);
    true
}

/// Whether `list` holds a production structurally equal to `p`.
fn contains_production(list: &Vec<ProductionReference>, p: &ProductionReference) -> (r: bool)
    ensures
        r == production_views(list@).contains(p@),
{
    let mut i: usize = 0;
    while i < list.len()
        invariant
            0 <= i <= list@.len(),
            forall|k: int| 0 <= k < i ==> list@[k]@ != p@,
        decreases list@.len() - i,
    {
        if list[i].head == p.head && same_body(&list[i].body, &p.body) {
            assert(production_views(list@)[i as int] == p@);
            return true;
        }
        i = i + 1;
    }
    assert(!production_views(list@).contains(p@)) by {
        if production_views(list@).contains(p@) {
            let k = choose|k: int| 0 <= k < list@.len() && production_views(list@)[k] == p@;
            assert(list@[k]@ == p@);
        }
    }
    false
}

/// The dependency graph of a grammar's productions.
///
/// Production `i` depends on the distinct non-terminals `deps[i]` of its body.
/// A production with no dependency is productive from the start; one with a
/// single dependency becomes productive as soon as that symbol is; one with
/// several becomes productive once all of them are. `edges[b]` lists the
/// productions that wait on symbol `b`: resolving `b` counts each of them down.
struct FindUselessProductions {
    heads: Vec<usize>,
    deps: Vec<Vec<usize>>,
    edges: Vec<Vec<usize>>,
}

impl FindUselessProductions {
    /// The graph holds the first `n` productions of `g`.
    spec fn holds(&self, g: &Grammar, n: int) -> bool {
        &&& 0 <= n <= g.productions().len()
        &&& self.heads@.len() == n
        &&& self.deps@.len() == n
        &&& self.edges@.len() == g.symbols().len()
        &&& forall|i: int| 0 <= i < n ==> #[trigger] self.heads@[i] == g.productions()[i].0
        &&& forall|i: int| 0 <= i < n ==> (#[trigger] self.deps@[i])@.no_duplicates()
        &&& forall|i: int, b: usize|
            0 <= i < n ==> (#[trigger] self.deps@[i]@.contains(b) <==> depends_on(g, g.productions()[i].1, b))
        &&& forall|b: usize| b < self.edges@.len() ==> (#[trigger] self.edges@[b as int])@.no_duplicates()
        &&& forall|b: usize, i: usize|
            b < self.edges@.len() ==> (#[trigger] self.edges@[b as int]@.contains(i) <==> (i < n
                && self.deps@[i as int]@.contains(b)))
    }

    /// An empty graph over the symbols of `g`.
    fn new(g: &Grammar) -> (r: Self)
        requires
            g.wf(),
        ensures
            r.holds(g, 0),
    {
        let m = g.symbol_count();
        let mut edges: Vec<Vec<usize>> = Vec::new();
        let mut b: usize = 0;
        while b < m
            invariant
                0 <= b <= m,
                m == g.symbols().len(),
                edges@.len() == b,
                forall|k: int| 0 <= k < b ==> (#[trigger] edges@[k])@.len() == 0,
            decreases m - b,
        {
            edges.push(Vec::new());
            b = b + 1;
        }
        Self { heads: Vec::new(), deps: Vec::new(), edges }
    }

    /// Adds production `pr`, the next production of `g`, to the graph.
    fn handle_production(&mut self, g: &Grammar, pr: &ProductionReference)
        requires
            g.wf(),
            old(self).holds(g, old(self).heads@.len() as int),
            old(self).heads@.len() < g.productions().len(),
            pr@ == g.productions()[old(self).heads@.len() as int],
        ensures
            final(self).holds(g, old(self).heads@.len() + 1 as int),
    {
        let n = self.heads.len();
        let ghost body = pr.body@;
        assert(g.valid_production(g.productions()[n as int]));
        assert(body == g.productions()[n as int].1);
        assert forall|x: int| 0 <= x < body.len() implies #[trigger] body[x] < g.symbols().len() by {
            assert(g.productions()[n as int].1[x] < g.symbols().len());
        }
        let mut right_nonterminals: Vec<usize> = Vec::new();
        let mut k: usize = 0;
        while k < pr.body.len()
            invariant
                g.wf(),
                body == pr.body@,
                forall|x: int| 0 <= x < body.len() ==> #[trigger] body[x] < g.symbols().len(),
                0 <= k <= body.len(),
                right_nonterminals@.no_duplicates(),
                forall|b: usize| #[trigger] right_nonterminals@.contains(b) <==> (body.subrange(0, k as int).contains(b) && g.is_nt(b)),
            decreases body.len() - k,
        {
            let symbol = pr.body[k];
            assert(body.subrange(0, k + 1) =~= body.subrange(0, k as int).push(symbol));
            proof {
                lemma_push_contains(body.subrange(0, k as int), symbol);
                lemma_push_contains(right_nonterminals@, symbol);
            }
            let ghost before = right_nonterminals@;
            if g.is_nonterminal_id(symbol) && !contains_id(&right_nonterminals, symbol) {
                right_nonterminals.push(symbol);
            }
            assert forall|b: usize| #[trigger] right_nonterminals@.contains(b) <==> (body.subrange(0, k + 1).contains(b)
                && g.is_nt(b)) by {
                assert(body.subrange(0, k as int).push(symbol).contains(b) <==> (body.subrange(0, k as int).contains(b) || b == symbol));
                assert(before.push(symbol).contains(b) <==> (before.contains(b) || b == symbol));
                assert(before.contains(b) <==> (body.subrange(0, k as int).contains(b) && g.is_nt(b)));
            }
            k = k + 1;
        }
        assert(body.subrange(0, body.len() as int) =~= body);
        let ghost right = right_nonterminals@;
        assert forall|b: usize| #[trigger] right.contains(b) <==> (body.contains(b) && g.is_nt(b)) by {
            assert(right_nonterminals@.contains(b) <==> (body.subrange(0, k as int).contains(b) && g.is_nt(b)));
        }
        let ghost old_edges = self.edges@;
        let mut t: usize = 0;
        while t < right_nonterminals.len()
            invariant
                self.heads@ == old(self).heads@,
                self.deps@ == old(self).deps@,
                self.edges@.len() == old_edges.len(),
                old(self).holds(g, n as int),
                n == old(self).heads@.len(),
                right == right_nonterminals@,
                right.no_duplicates(),
                forall|b: usize| right.contains(b) ==> b < self.edges@.len(),
                0 <= t <= right.len(),
                g.wf(),
                body == pr.body@,
                forall|b: usize| #[trigger] right.contains(b) <==> (body.contains(b) && g.is_nt(b)),
                forall|b: usize| b < self.edges@.len() ==> (#[trigger] self.edges@[b as int])@.no_duplicates(),
                forall|b: usize, i: usize|
                    b < self.edges@.len() ==> (#[trigger] self.edges@[b as int]@.contains(i) <==> ((i < n
                        && self.deps@[i as int]@.contains(b)) || (i == n && right.subrange(0, t as int).contains(b)))),
            decreases right.len() - t,
        {
            let b = right_nonterminals[t];
            assert(right.contains(b));
            assert(right.subrange(0, t + 1) =~= right.subrange(0, t as int).push(b));
            assert(!right.subrange(0, t as int).contains(b)) by {
                if right.subrange(0, t as int).contains(b) {
                    let w = choose|w: int| 0 <= w < t && right.subrange(0, t as int)[w] == b;
                    assert(right[w] == right[t as int]);
                }
            }
            let ghost before = self.edges@;
            assert(!self.edges@[b as int]@.contains(n));
            self.edges[b].push(n);
            assert forall|x: usize| x < self.edges@.len() implies (#[trigger] self.edges@[x as int])@.no_duplicates() by {
                if x != b {
                    assert(self.edges@[x as int] == before[x as int]);
                }
            }
            assert forall|x: usize, i: usize| x < self.edges@.len() implies (#[trigger] self.edges@[x as int]@.contains(i)
                <==> ((i < n && self.deps@[i as int]@.contains(x)) || (i == n && right.subrange(0, t + 1).contains(x)))) by {
                let xi = x as int;
                let s0 = right.subrange(0, t as int);
                let s1 = right.subrange(0, t + 1);
                if x != b {
                    assert(self.edges@[xi] == before[xi]);
                    assert(before[xi]@.contains(i) <==> ((i < n && self.deps@[i as int]@.contains(x)) || (i == n && s0.contains(x))));
                    if s1.contains(x) {
                        let w = choose|w: int| 0 <= w < s1.len() && #[trigger] s1[w] == x;
                        assert(s0[w] == x);
                    }
                    if s0.contains(x) {
                        let w = choose|w: int| 0 <= w < s0.len() && #[trigger] s0[w] == x;
                        assert(s1[w] == x);
                    }
                } else {
                    assert(before[xi]@.contains(i) <==> ((i < n && self.deps@[i as int]@.contains(x)) || (i == n && s0.contains(x))));
                    assert(s1[t as int] == b);
                    let x = xi;
                    assert(self.edges@[x]@ == before[x]@.push(n));
                    if self.edges@[x]@.contains(i) && i != n {
                        let w = choose|w: int| 0 <= w < self.edges@[x]@.len() && self.edges@[x]@[w] == i;
                        assert(before[x]@[w] == i);
                    }
                    if i != n && before[x]@.contains(i) {
                        let w = choose|w: int| 0 <= w < before[x]@.len() && before[x]@[w] == i;
                        assert(self.edges@[x]@[w] == i);
                    }
                    assert(self.edges@[x]@[before[x]@.len() as int] == n);
                }
            }
            t = t + 1;
        }
        assert(right.subrange(0, right.len() as int) =~= right);
        self.heads.push(pr.head);
        self.deps.push(right_nonterminals);
        assert(self.deps@[n as int]@ == right);
        assert forall|i: int, b: usize| 0 <= i < n + 1 implies (#[trigger] self.deps@[i]@.contains(b)
            <==> depends_on(g, g.productions()[i].1, b)) by {
            if i < n {
                assert(self.deps@[i] == old(self).deps@[i]);
                assert(old(self).deps@[i]@.contains(b) <==> depends_on(g, g.productions()[i].1, b));
            } else {
                assert(g.productions()[i].1 == body);
                assert(right.contains(b) <==> (body.contains(b) && g.is_nt(b)));
            }
        }
        assert forall|i: int| 0 <= i < n + 1 implies (#[trigger] self.deps@[i])@.no_duplicates() by {
            if i < n {
                assert(self.deps@[i] == old(self).deps@[i]);
            }
        }
        assert forall|b: usize, i: usize| b < self.edges@.len() implies (#[trigger] self.edges@[b as int]@.contains(i)
            <==> (i < n + 1 && self.deps@[i as int]@.contains(b))) by {
            if i < n {
                assert(self.deps@[i as int] == old(self).deps@[i as int]);
            }
        }
    }

    /// The state of the propagation: `done` marks the symbols whose outgoing
    /// edges have been followed, which are the resolved symbols off the stack,
    /// and each counter holds how many dependencies of its production are not
    /// yet done.
    spec fn propagating(
        &self,
        g: &Grammar,
        remaining: Seq<usize>,
        productive: Seq<bool>,
        resolved: Seq<bool>,
        stack: Seq<usize>,
        done: Seq<bool>,
    ) -> bool {
        let n = g.productions().len();
        let m = g.symbols().len();
        &&& g.wf()
        &&& self.holds(g, n as int)
        &&& remaining.len() == n
        &&& productive.len() == n
        &&& resolved.len() == m
        &&& done.len() == m
        &&& stack.no_duplicates()
        &&& forall|k: int| 0 <= k < stack.len() ==> #[trigger] stack[k] < m && resolved[stack[k] as int]
        &&& forall|b: int| 0 <= b < m ==> #[trigger] done[b] == (resolved[b] && !stack.contains(b as usize))
        &&& forall|i: int| 0 <= i < n ==> #[trigger] productive[i] ==> resolved[self.heads@[i] as int]
        &&& forall|b: int| 0 <= b < m ==> #[trigger] resolved[b] ==> productive_symbol(g, b as usize)
    }

    /// Every symbol of `deps[i]` is resolved: the head of production `i` is
    /// then productive.
    proof fn lemma_head_productive(&self, g: &Grammar, resolved: Seq<bool>, i: int)
        requires
            g.wf(),
            self.holds(g, g.productions().len() as int),
            resolved.len() == g.symbols().len(),
            0 <= i < g.productions().len(),
            forall|b: int| 0 <= b < resolved.len() ==> #[trigger] resolved[b] ==> productive_symbol(g, b as usize),
            forall|k: int| 0 <= k < self.deps@[i]@.len() ==> resolved[#[trigger] self.deps@[i]@[k] as int],
        ensures
            productive_symbol(g, self.heads@[i]),
    {
        assert forall|s: Set<usize>| closed_under(g, s) implies #[trigger] s.contains(self.heads@[i]) by {
            assert forall|b: usize| #[trigger] depends_on(g, g.productions()[i].1, b) implies s.contains(b) by {
                assert(self.deps@[i]@.contains(b));
                let k = choose|k: int| 0 <= k < self.deps@[i]@.len() && self.deps@[i]@[k] == b;
                assert(resolved[self.deps@[i]@[k] as int]);
                assert(g.is_nt(b));
                assert(productive_symbol(g, b));
            }
            assert(self.heads@[i] == g.productions()[i].0);
        }
    }

    /// For each production, whether it is productive.
    fn get_productive_productions(&self, g: &Grammar) -> (productive: Vec<bool>)
        requires
            g.wf(),
            self.holds(g, g.productions().len() as int),
        ensures
            productive@.len() == g.productions().len(),
            forall|i: int| 0 <= i < productive@.len() ==> #[trigger] productive@[i] == productive_production(g, g.productions()[i]),
    {
        let n = self.heads.len();
        let m = self.edges.len();
        let mut remaining: Vec<usize> = Vec::new();
        let mut productive: Vec<bool> = Vec::new();
        let mut resolved: Vec<bool> = Vec::new();
        let mut stack: Vec<usize> = Vec::new();
        let mut b: usize = 0;
        while b < m
            invariant
                0 <= b <= m,
                resolved@.len() == b,
                forall|x: int| 0 <= x < b ==> !(#[trigger] resolved@[x]),
            decreases m - b,
        {
            resolved.push(false);
            b = b + 1;
        }
        let ghost mut done: Seq<bool> = Seq::new(m as nat, |x: int| false);

        // Productions whose bodies hold no non-terminal are productive from the
        // start, and their heads are the first resolved symbols.
        let mut i: usize = 0;
        while i < n
            invariant
                n == g.productions().len(),
                m == g.symbols().len(),
                g.wf(),
                self.holds(g, n as int),
                0 <= i <= n,
                remaining@.len() == i,
                productive@.len() == i,
                resolved@.len() == m,
                done == Seq::new(m as nat, |x: int| false),
                forall|k: int| 0 <= k < i ==> #[trigger] remaining@[k] == self.deps@[k]@.len(),
                forall|k: int| 0 <= k < i ==> #[trigger] productive@[k] == (self.deps@[k]@.len() == 0),
                forall|k: int| 0 <= k < i ==> #[trigger] productive@[k] ==> resolved@[self.heads@[k] as int],
                stack@.no_duplicates(),
                forall|k: int| 0 <= k < stack@.len() ==> #[trigger] stack@[k] < m,
                forall|x: int| 0 <= x < m ==> #[trigger] resolved@[x] == stack@.contains(x as usize),
                forall|x: int| 0 <= x < m ==> #[trigger] resolved@[x] ==> productive_symbol(g, x as usize),
            decreases n - i,
        {
            let c = self.deps[i].len();
            remaining.push(c);
            productive.push(c == 0);
            if c == 0 {
                let h = self.heads[i];
                assert(g.valid_production(g.productions()[i as int]));
                proof {
                    self.lemma_head_productive(g, resolved@, i as int);
                }
                if !resolved[h] {
                    let ghost before = stack@;
                    resolved.set(h, true);
                    stack.push(h);
                    proof {
                        lemma_push_contains(before, h);
                    }
                    assert forall|x: int| 0 <= x < m implies #[trigger] resolved@[x] == stack@.contains(x as usize) by {
                        assert(before.push(h).contains(x as usize) <==> (before.contains(x as usize) || x as usize == h));
                    }
                }
            }
            i = i + 1;
        }
        proof {
            assert forall|k: int| 0 <= k < n implies #[trigger] remaining@[k] == pending(self.deps@[k]@, done) by {
                assert forall|j: int| 0 <= j < self.deps@[k]@.len() implies !done[#[trigger] self.deps@[k]@[j] as int] by {
                    assert(self.deps@[k]@.contains(self.deps@[k]@[j]));
                    assert(g.is_nt(self.deps@[k]@[j]));
                }
                lemma_pending_none_done(self.deps@[k]@, done);
            }
            lemma_all_ids(m as nat);
        }

        // Each resolved symbol is popped once and counts down the productions
        // that wait on it; a production whose count reaches zero is
        // productive, and its head is resolved in turn.
        while stack.len() > 0
            invariant
                n == g.productions().len(),
                m == g.symbols().len(),
                self.propagating(g, remaining@, productive@, resolved@, stack@, done),
                forall|k: int| 0 <= k < n ==> #[trigger] remaining@[k] == pending(self.deps@[k]@, done),
                forall|k: int| 0 <= k < n ==> #[trigger] productive@[k] == (remaining@[k] == 0),
            decreases pending(all_ids(m as nat), done),
        {
            let ghost old_done = done;
            let ghost old_stack = stack@;
            let b = stack.pop().unwrap();
            assert(old_stack[old_stack.len() - 1] == b);
            assert(stack@ =~= old_stack.drop_last());
            assert(!stack@.contains(b)) by {
                if stack@.contains(b) {
                    let w = choose|w: int| 0 <= w < stack@.len() && stack@[w] == b;
                    assert(old_stack[w] == old_stack[old_stack.len() - 1]);
                }
            }
            assert(old_stack.contains(b));
            proof {
                done = done.update(b as int, true);
                lemma_all_ids(m as nat);
                lemma_pending_mark(all_ids(m as nat), old_done, b);
                assert forall|x: int| 0 <= x < m implies #[trigger] done[x] == (resolved@[x] && !stack@.contains(x as usize)) by {
                    if x != b {
                        assert(old_done[x] == (resolved@[x] && !old_stack.contains(x as usize)));
                        if old_stack.contains(x as usize) {
                            let w = choose|w: int| 0 <= w < old_stack.len() && old_stack[w] == x as usize;
                            assert(stack@[w] == x as usize);
                        }
                        if stack@.contains(x as usize) {
                            let w = choose|w: int| 0 <= w < stack@.len() && stack@[w] == x as usize;
                            assert(old_stack[w] == x as usize);
                        }
                    }
                }
                assert forall|k: int| 0 <= k < stack@.len() implies #[trigger] stack@[k] < m && resolved@[stack@[k] as int] by {
                    assert(stack@[k] == old_stack[k]);
                }
                assert forall|k: int| 0 <= k < n implies #[trigger] remaining@[k] == pending(self.deps@[k]@, done) + (
                if self.edges@[b as int]@.contains(k as usize) {
                    1nat
                } else {
                    0nat
                }) by {
                    assert forall|j: int| 0 <= j < self.deps@[k]@.len() implies #[trigger] self.deps@[k]@[j] < old_done.len() by {
                        assert(self.deps@[k]@.contains(self.deps@[k]@[j]));
                        assert(g.is_nt(self.deps@[k]@[j]));
                    }
                    lemma_pending_mark(self.deps@[k]@, old_done, b);
                    assert(self.edges@[b as int]@.contains(k as usize) == self.deps@[k]@.contains(b));
                }
                assert(self.edges@[b as int]@.subrange(0, self.edges@[b as int]@.len() as int) =~= self.edges@[b as int]@);
            }
            let edges = &self.edges[b];
            let mut j: usize = 0;
            while j < edges.len()
                invariant
                    n == g.productions().len(),
                    m == g.symbols().len(),
                    b < m,
                    *edges == self.edges@[b as int],
                    0 <= j <= edges@.len(),
                    self.propagating(g, remaining@, productive@, resolved@, stack@, done),
                    forall|k: int| 0 <= k < n ==> #[trigger] remaining@[k] == pending(self.deps@[k]@, done) + (
                    if edges@.subrange(j as int, edges@.len() as int).contains(k as usize) {
                        1nat
                    } else {
                        0nat
                    }),
                    forall|k: int| 0 <= k < n ==> #[trigger] productive@[k] == (remaining@[k] == 0),
                decreases edges@.len() - j,
            {
                let i = edges[j];
                let ghost rest = edges@.subrange(j as int, edges@.len() as int);
                let ghost next = edges@.subrange(j + 1, edges@.len() as int);
                assert(edges@.contains(i));
                assert(i < n);
                assert(rest[0] == i);
                assert(!next.contains(i)) by {
                    if next.contains(i) {
                        let w = choose|w: int| 0 <= w < next.len() && next[w] == i;
                        assert(edges@[j + 1 + w] == edges@[j as int]);
                    }
                }
                assert forall|k: usize| k != i implies #[trigger] rest.contains(k) == next.contains(k) by {
                    if rest.contains(k) {
                        let w = choose|w: int| 0 <= w < rest.len() && rest[w] == k;
                        assert(w != 0);
                        assert(next[w - 1] == k);
                    }
                    if next.contains(k) {
                        let w = choose|w: int| 0 <= w < next.len() && next[w] == k;
                        assert(rest[w + 1] == k);
                    }
                }
                let r = remaining[i] - 1;
                remaining.set(i, r);
                if r == 0 {
                    productive.set(i, true);
                    let h = self.heads[i];
                    proof {
                        lemma_pending_zero(self.deps@[i as int]@, done);
                        assert forall|k: int| 0 <= k < self.deps@[i as int]@.len() implies resolved@[
                            #[trigger] self.deps@[i as int]@[k] as int] by {
                            let d = self.deps@[i as int]@[k];
                            assert(self.deps@[i as int]@.contains(d));
                            assert(g.is_nt(d));
                            assert(done[d as int]);
                        }
                        self.lemma_head_productive(g, resolved@, i as int);
                        assert(g.valid_production(g.productions()[i as int]));
                    }
                    if !resolved[h] {
                        let ghost before = stack@;
                        resolved.set(h, true);
                        stack.push(h);
                        proof {
                            lemma_push_contains(before, h);
                        }
                        assert forall|x: int| 0 <= x < m implies #[trigger] done[x] == (resolved@[x] && !stack@.contains(
                            x as usize,
                        )) by {
                            assert(before.push(h).contains(x as usize) <==> (before.contains(x as usize) || x as usize == h));
                        }
                        assert forall|k: int| 0 <= k < stack@.len() implies #[trigger] stack@[k] < m && resolved@[stack@[k] as int] by {
                            if k < before.len() {
                                assert(stack@[k] == before[k]);
                            }
                        }
                    }
                }
                j = j + 1;
            }
            assert(edges@.subrange(j as int, edges@.len() as int) =~= Seq::<usize>::empty());
        }

        // No symbol is left on the stack: the resolved symbols form a closed
        // set, so they are exactly the productive ones.
        proof {
            let closed = Set::new(|x: usize| x < m && resolved@[x as int]);
            assert(closed_under(g, closed)) by {
                assert forall|k: int| 0 <= k < g.productions().len() && (forall|x: usize| #[trigger]
                    depends_on(g, g.productions()[k].1, x) ==> closed.contains(x))
                    implies closed.contains(#[trigger] g.productions()[k].0) by {
                    assert forall|j: int| 0 <= j < self.deps@[k]@.len() implies done[#[trigger] self.deps@[k]@[j] as int] by {
                        let d = self.deps@[k]@[j];
                        assert(self.deps@[k]@.contains(d));
                        assert(depends_on(g, g.productions()[k].1, d));
                        assert(closed.contains(d));
                    }
                    lemma_pending_zero(self.deps@[k]@, done);
                    assert(productive@[k]);
                    assert(g.valid_production(g.productions()[k]));
                }
            }
            assert forall|i: int| 0 <= i < productive@.len() implies #[trigger] productive@[i] == productive_production(g, g.productions()[i]) by {
                lemma_pending_zero(self.deps@[i]@, done);
                if productive@[i] {
                    assert forall|x: usize| #[trigger] depends_on(g, g.productions()[i].1, x) implies productive_symbol(g, x) by {
                        assert(self.deps@[i]@.contains(x));
                        let w = choose|w: int| 0 <= w < self.deps@[i]@.len() && self.deps@[i]@[w] == x;
                        assert(done[self.deps@[i]@[w] as int]);
                    }
                } else {
                    assert(!(forall|j: int| 0 <= j < self.deps@[i]@.len() ==> done[#[trigger] self.deps@[i]@[j] as int]));
                    let j = choose|j: int| 0 <= j < self.deps@[i]@.len() && !done[#[trigger] self.deps@[i]@[j] as int];
                    let d = self.deps@[i]@[j];
                    assert(self.deps@[i]@.contains(d));
                    assert(depends_on(g, g.productions()[i].1, d));
                    assert(!closed.contains(d));
                    assert(!productive_symbol(g, d));
                }
            }
        }
        productive
    }

    /// The stored productions that are not productive, each once.
    fn get_non_productive_productions(&self, grammar: &Grammar) -> (r: Vec<ProductionReference>)
        requires
            grammar.wf(),
            self.holds(grammar, grammar.productions().len() as int),
        ensures
            production_views(r@).no_duplicates(),
            production_views(r@).to_set() == useless_productions(grammar),
    {
        let productive = self.get_productive_productions(grammar);
        let all = grammar.all_productions();
        let ghost ps = grammar.productions();
        let mut r: Vec<ProductionReference> = Vec::new();
        let mut i: usize = 0;
        while i < all.len()
            invariant
                production_views(all@) == ps,
                ps == grammar.productions(),
                productive@.len() == ps.len(),
                forall|k: int| 0 <= k < productive@.len() ==> #[trigger] productive@[k] == productive_production(grammar, ps[k]),
                0 <= i <= ps.len(),
                production_views(r@).no_duplicates(),
                forall|p: (usize, Seq<usize>)| #[trigger] production_views(r@).contains(p) <==> (ps.subrange(0, i as int).contains(p)
                    && !productive_production(grammar, p)),
            decreases ps.len() - i,
        {
            let pr = &all[i];
            assert(ps[i as int] == pr@);
            assert(ps.subrange(0, i + 1) =~= ps.subrange(0, i as int).push(pr@));
            let ghost before = r@;
            let ghost mut pushed = false;
            if !productive[i] && !contains_production(&r, pr) {
                r.push(ProductionReference { head: pr.head, body: copy_ids(&pr.body) });
                assert(production_views(r@) =~= production_views(before).push(pr@));
                proof {
                    pushed = true;
                }
            }
            assert(pushed ==> production_views(r@) == production_views(before).push(pr@));
            assert(!pushed ==> r@ == before);
            assert(pushed <==> (!productive_production(grammar, pr@) && !production_views(before).contains(pr@)));
            assert forall|p: (usize, Seq<usize>)| #[trigger] production_views(r@).contains(p) <==> (ps.subrange(0, i + 1).contains(p)
                && !productive_production(grammar, p)) by {
                let s0 = ps.subrange(0, i as int);
                let s1 = ps.subrange(0, i + 1);
                lemma_push_contains(s0, pr@);
                lemma_push_contains(production_views(before), pr@);
                assert(s1.contains(p) <==> (s0.contains(p) || p == pr@));
                assert(production_views(before).contains(p) <==> (s0.contains(p) && !productive_production(grammar, p)));
                if pushed {
                    assert(production_views(r@).contains(p) <==> (production_views(before).contains(p) || p == pr@));
                }
            }
            i = i + 1;
        }
        assert(ps.subrange(0, ps.len() as int) =~= ps);
        assert(production_views(r@).to_set() =~= useless_productions(grammar));
        r
    }
}

/// The useless productions of `grammar`: those that take part in no
/// derivation of a string of terminals, each once. They are the stored
/// productions that some non-terminal of their body keeps from being
/// productive.
pub fn find_useless_productions(grammar: &Grammar) -> (r: Vec<ProductionReference>)
    requires
        grammar.wf(),
    ensures
        production_views(r@).no_duplicates(),
        production_views(r@).to_set() == useless_productions(grammar),
{
    let mut useless = FindUselessProductions::new(grammar);
    let all = grammar.all_productions();
    let mut i: usize = 0;
    while i < all.len()
        invariant
            grammar.wf(),
            production_views(all@) == grammar.productions(),
            0 <= i <= all@.len(),
            useless.holds(grammar, i as int),
        decreases all@.len() - i,
    {
        assert(production_views(all@)[i as int] == all@[i as int]@);
        useless.handle_production(grammar, &all[i]);
        i = i + 1;
    }
    useless.get_non_productive_productions(grammar)
}

/// Every useless production is one of the grammar's stored productions.
pub proof fn lemma_useless_are_stored(g: &Grammar)
    ensures
        useless_productions(g).subset_of(g.productions().to_set()),
{
}

/// A production whose body holds no non-terminal, the empty body included,
/// is never useless.
pub proof fn lemma_terminal_body_not_useless(g: &Grammar, p: (usize, Seq<usize>))
    requires
        forall|k: int| 0 <= k < p.1.len() ==> !g.is_nt(#[trigger] p.1[k]),
    ensures
        !useless_productions(g).contains(p),
{
    assert forall|b: usize| #[trigger] depends_on(g, p.1, b) implies productive_symbol(g, b) by {
        let k = choose|k: int| 0 <= k < p.1.len() && p.1[k] == b;
        assert(!g.is_nt(p.1[k]));
    }
}

/// When every non-terminal heads some production whose dependencies all
/// bottom out in terminals, no production is useless.
pub proof fn lemma_grounded_grammar_has_no_useless(g: &Grammar)
    requires
        forall|h: usize| #[trigger] g.is_nt(h) ==> exists|i: int|
            0 <= i < g.productions().len() && g.productions()[i].0 == h
                && #[trigger] productive_production(g, g.productions()[i]),
    ensures
        useless_productions(g) == Set::<(usize, Seq<usize>)>::empty(),
{
    assert forall|h: usize| g.is_nt(h) implies productive_symbol(g, h) by {
        let i = choose|i: int|
            0 <= i < g.productions().len() && g.productions()[i].0 == h
                && #[trigger] productive_production(g, g.productions()[i]);
        assert forall|s: Set<usize>| closed_under(g, s) implies #[trigger] s.contains(h) by {
            assert forall|b: usize| #[trigger] depends_on(g, g.productions()[i].1, b) implies s.contains(b) by {
                assert(productive_symbol(g, b));
            }
        }
    }
    assert forall|p: (usize, Seq<usize>)| !#[trigger] useless_productions(g).contains(p) by {
        assert forall|b: usize| #[trigger] depends_on(g, p.1, b) implies productive_symbol(g, b) by {
            assert(g.is_nt(b));
        }
    }
    assert(useless_productions(g) =~= Set::<(usize, Seq<usize>)>::empty());
}

/// The reported set depends on the grammar alone: two analyses of the same
/// grammar report the same productions.
pub proof fn lemma_analysis_is_repeatable(g: &Grammar, first: Seq<(usize, Seq<usize>)>, second: Seq<(usize, Seq<usize>)>)
    requires
        first.to_set() == useless_productions(g),
        second.to_set() == useless_productions(g),
    ensures
        first.to_set() == second.to_set(),
        forall|p: (usize, Seq<usize>)| first.contains(p) <==> second.contains(p),
{
    assert forall|p: (usize, Seq<usize>)| first.contains(p) <==> second.contains(p) by {
        assert(first.to_set().contains(p) == first.contains(p));
        assert(second.to_set().contains(p) == second.contains(p));
    }
}

} // verus!
