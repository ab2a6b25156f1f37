use vstd::prelude::*;
use vstd::string::*;

verus! {

/// A grammar symbol. Only `NonTerminal` and `Terminal` are ever interned by a
/// `Grammar`; the two other variants are reserved.
#[derive(Debug)]
pub enum Symbol {
    AugmentingNonTerminal,
    NonTerminal(String),
    EndOfInputTerminal,
    Terminal(String),
}

impl Symbol {
    pub open spec fn spec_is_terminal(&self) -> bool {
        self is EndOfInputTerminal || self is Terminal
    }

    /// The text of a symbol: its name, or `'` and `$` for the reserved ones.
    pub open spec fn spec_name(&self) -> Seq<char> {
        match self {
            Symbol::AugmentingNonTerminal => seq!['\''],
            Symbol::NonTerminal(n) => n@,
            Symbol::EndOfInputTerminal => seq!['$'],
            Symbol::Terminal(n) => n@,
        }
    }

    /// A symbol that a grammar's pool may hold.
    pub open spec fn is_named(&self) -> bool {
        self is NonTerminal || self is Terminal
    }

    #[verifier::when_used_as_spec(spec_is_terminal)]
    pub fn is_terminal(&self) -> (r: bool)
        ensures
            r == self.spec_is_terminal(),
    {
        match self {
            Symbol::EndOfInputTerminal => true,
            Symbol::Terminal(_) => true,
            _ => false,
        }
    }

    pub fn is_nonterminal(&self) -> (r: bool)
        ensures
            r == !self.spec_is_terminal(),
    {
        !self.is_terminal()
    }

    /// The text of this symbol.
    pub fn name(&self) -> (r: &str)
        ensures
            r@ == self.spec_name(),
    {
        match self {
            Symbol::AugmentingNonTerminal => {
                proof {
                    reveal_strlit("'");
                }
                "'"
            },
            Symbol::NonTerminal(n) => n.as_str(),
            Symbol::EndOfInputTerminal => {
                proof {
                    reveal_strlit("$");
                }
                "$"
            },
            Symbol::Terminal(n) => n.as_str(),
        }
    }

    /// Whether this pool symbol is called `name`.
    fn has_name(&self, name: &String) -> (r: bool)
        requires
            self.is_named(),
        ensures
            r == (self.spec_name() == name@),
    {
        match self {
            Symbol::NonTerminal(n) => *n == *name,
            Symbol::Terminal(n) => *n == *name,
            _ => false,
        }
    }
}

/// Names that the construction API classifies as non-terminals: those whose
/// first character is an ASCII capital letter.
pub open spec fn uppercase_initial(name: Seq<char>) -> bool {
    name.len() > 0 && 'A' <= name[0] && name[0] <= 'Z'
}

/// A production as a structural pair: the head's symbol id and the body's
/// symbol ids. Two references are the same production when both parts agree.
#[derive(Debug, Clone, PartialEq, Eq, Hash)]
pub struct ProductionReference {
    pub head: usize,
    pub body: Vec<usize>,
}

impl View for ProductionReference {
    type V = (usize, Seq<usize>);

    open spec fn view(&self) -> (usize, Seq<usize>) {
        (self.head, self.body@)
    }
}

/// The two ways in which a query for the productions of a symbol fails.
#[derive(Debug, Clone, Copy, PartialEq, Eq, Structural)]
pub enum GrammarError {
    InvalidSymbolKind,
    UnknownNonTerminal,
}

/// A grammar: a pool of interned symbols, addressed by their index in the
/// pool, a start symbol, and the productions in order of insertion.
pub struct Grammar {
    start_symbol: usize,
    symbols: Vec<Symbol>,
    productions: Vec<ProductionReference>,
}

/// The views of a sequence of productions.
pub open spec fn production_views(ps: Seq<ProductionReference>) -> Seq<(usize, Seq<usize>)> {
    ps.map_values(|p: ProductionReference| p@)
}

impl Grammar {
    pub closed spec fn start(&self) -> usize {
        self.start_symbol
    }

    pub closed spec fn symbols(&self) -> Seq<Symbol> {
        self.symbols@
    }

    pub closed spec fn productions(&self) -> Seq<(usize, Seq<usize>)> {
        production_views(self.productions@)
    }

    /// The pool holds named symbols with distinct names, the start symbol is
    /// a non-terminal of the pool, and every production names pool symbols.
    pub open spec fn wf(&self) -> bool {
        &&& self.start() < self.symbols().len()
        &&& self.symbols()[self.start() as int] is NonTerminal
        &&& forall|i: int| 0 <= i < self.symbols().len() ==> #[trigger] self.symbols()[i].is_named()
        &&& forall|i: int, j: int|
            0 <= i < self.symbols().len() && 0 <= j < self.symbols().len() && i != j
                ==> #[trigger] self.symbols()[i].spec_name() != #[trigger] self.symbols()[j].spec_name()
        &&& forall|i: int| 0 <= i < self.productions().len() ==> self.valid_production(#[trigger] self.productions()[i])
    }

    pub open spec fn valid_production(&self, p: (usize, Seq<usize>)) -> bool {
        &&& p.0 < self.symbols().len()
        &&& forall|k: int| 0 <= k < p.1.len() ==> #[trigger] p.1[k] < self.symbols().len()
    }

    /// A symbol id of the pool that names a non-terminal.
    pub open spec fn is_nt(&self, id: usize) -> bool {
        id < self.symbols().len() && !self.symbols()[id as int].spec_is_terminal()
    }

    /// Whether some pool symbol is called `name`.
    pub open spec fn knows(&self, name: Seq<char>) -> bool {
        exists|i: int| 0 <= i < self.symbols().len() && #[trigger] self.symbols()[i].spec_name() == name
    }

    /// A grammar whose only symbol is the start symbol `start_symbol`, with no
    /// productions.
    pub fn new(start_symbol: String) -> (g: Self)
        ensures
            g.wf(),
            g.start() == 0,
            g.symbols().len() == 1,
            g.symbols()[0] is NonTerminal,
            g.symbols()[0].spec_name() == start_symbol@,
            g.productions().len() == 0,
    {
        let mut symbols: Vec<Symbol> = Vec::new();
        symbols.push(Symbol::NonTerminal(start_symbol));
        let productions: Vec<ProductionReference> = Vec::new();
        let g = Self { start_symbol: 0, symbols, productions };
        assert(g.productions() =~= Seq::<(usize, Seq<usize>)>::empty());
        g
    }

    /// Interns `name`: the id of the pool symbol of that name, which is added,
    /// as a non-terminal or a terminal after `non_terminal`, if it is new.
    fn resolve_symbol(&mut self, name: String, non_terminal: bool) -> (id: usize)
        requires
            old(self).wf(),
        ensures
            final(self).wf(),
            final(self).start() == old(self).start(),
            final(self).productions() == old(self).productions(),
            id < final(self).symbols().len(),
            final(self).symbols()[id as int].spec_name() == name@,
            old(self).knows(name@) ==> final(self).symbols() == old(self).symbols(),
            !old(self).knows(name@) ==> {
                &&& final(self).symbols() == old(self).symbols().push(final(self).symbols()[id as int])
                &&& id == old(self).symbols().len()
                &&& (final(self).symbols()[id as int] is NonTerminal) == non_terminal
            },
    {
        let mut i: usize = 0;
        while i < self.symbols.len()
            invariant
                self.wf(),
                0 <= i <= self.symbols@.len(),
                forall|k: int| 0 <= k < i ==> self.symbols@[k].spec_name() != name@,
            decreases self.symbols@.len() - i,
        {
            if self.symbols[i].has_name(&name) {
                return i;
            }
            i = i + 1;
        }
        let ghost before = self.symbols@;
        let symbol = if non_terminal {
            Symbol::NonTerminal(name)
        } else {
            Symbol::Terminal(name)
        };
        self.symbols.push(symbol);
        assert(self.productions() == old(self).productions());
        assert forall|j: int| 0 <= j < self.productions().len() implies self.valid_production(
            #[trigger] self.productions()[j],
        ) by {
            assert(old(self).valid_production(old(self).productions()[j]));
        }
        i
    }
}

/// The pool symbol for a name written in a production body: names with a
/// capital initial are non-terminals, the others terminals, unless the name is
/// already known.
fn string_to_symbol(grammar: &mut Grammar, symbol: String) -> (id: usize)
    requires
        old(grammar).wf(),
        symbol@.len() > 0,
    ensures
        final(grammar).wf(),
        final(grammar).start() == old(grammar).start(),
        final(grammar).productions() == old(grammar).productions(),
        id < final(grammar).symbols().len(),
        final(grammar).symbols()[id as int].spec_name() == symbol@,
        old(grammar).knows(symbol@) ==> final(grammar).symbols() == old(grammar).symbols(),
        !old(grammar).knows(symbol@) ==> {
            &&& final(grammar).symbols() == old(grammar).symbols().push(final(grammar).symbols()[id as int])
            &&& (final(grammar).symbols()[id as int] is NonTerminal) == uppercase_initial(symbol@)
        },
{
    let c = symbol.as_str().get_char(0);
    let is_nonterminal = 'A' <= c && c <= 'Z';
    grammar.resolve_symbol(symbol, is_nonterminal)
}

/// The names of a list of strings.
pub open spec fn names_of(v: Seq<String>) -> Seq<Seq<char>> {
    v.map_values(|s: String| s@)
}

/// A symbol that adding a production with head `label` and body `names` may
/// put in the pool: the head, as a non-terminal, or a body name, classified by
/// its initial.
pub open spec fn added_symbol(s: Symbol, label: Seq<char>, names: Seq<Seq<char>>) -> bool {
    ||| s.spec_name() == label && s is NonTerminal
    ||| s.spec_name() != label && names.contains(s.spec_name()) && s.is_named()
        && (s is NonTerminal) == uppercase_initial(s.spec_name())
}

impl Grammar {
    /// Interns each name of `body` in order.
    fn raw_symbols_to_production_body(&mut self, body: Vec<String>, label: Ghost<Seq<char>>) -> (r: Vec<usize>)
        requires
            old(self).wf(),
            old(self).knows(label@),
            forall|k: int| 0 <= k < body@.len() ==> (#[trigger] body@[k])@.len() > 0,
        ensures
            final(self).wf(),
            final(self).start() == old(self).start(),
            final(self).productions() == old(self).productions(),
            final(self).symbols().len() >= old(self).symbols().len(),
            final(self).symbols().subrange(0, old(self).symbols().len() as int) == old(self).symbols(),
            r@.len() == body@.len(),
            forall|k: int| 0 <= k < r@.len() ==> #[trigger] r@[k] < final(self).symbols().len()
                && final(self).symbols()[r@[k] as int].spec_name() == body@[k]@,
            forall|i: int| old(self).symbols().len() <= i < final(self).symbols().len()
                ==> added_symbol(#[trigger] final(self).symbols()[i], label@, names_of(body@)),
    {
        let mut r: Vec<usize> = Vec::new();
        let mut k: usize = 0;
        while k < body.len()
            invariant
                self.wf(),
                self.knows(label@),
                self.start() == old(self).start(),
                self.productions() == old(self).productions(),
                self.symbols().len() >= old(self).symbols().len(),
                self.symbols().subrange(0, old(self).symbols().len() as int) == old(self).symbols(),
                0 <= k <= body@.len(),
                forall|j: int| 0 <= j < body@.len() ==> (#[trigger] body@[j])@.len() > 0,
                r@.len() == k,
                forall|j: int| 0 <= j < r@.len() ==> #[trigger] r@[j] < self.symbols().len()
                    && self.symbols()[r@[j] as int].spec_name() == body@[j]@,
                forall|i: int| old(self).symbols().len() <= i < self.symbols().len()
                    ==> added_symbol(#[trigger] self.symbols()[i], label@, names_of(body@)),
            decreases body@.len() - k,
        {
            let ghost before = self.symbols();
            let name = body[k].clone();
            assert(names_of(body@)[k as int] == name@);
            let id = string_to_symbol(self, name);
            assert forall|i: int| old(self).symbols().len() <= i < self.symbols().len()
                implies added_symbol(#[trigger] self.symbols()[i], label@, names_of(body@)) by {
                if i < before.len() {
                    assert(self.symbols()[i] == before[i]);
                } else {
                    assert(i == id);
                    assert(self.symbols()[i].is_named());
                    let w = choose|w: int| 0 <= w < before.len() && before[w].spec_name() == label@;
                    assert(self.symbols()[w].spec_name() == label@);
                }
            }
            assert(self.knows(label@)) by {
                let w = choose|w: int| 0 <= w < before.len() && before[w].spec_name() == label@;
                assert(self.symbols()[w].spec_name() == label@);
            }
            r.push(id);
            k = k + 1;
        }
        r
    }

    /// Adds the production `label -> body`. The head is interned as a
    /// non-terminal and each body name by its initial; names already in the
    /// pool keep the kind they were first given.
    pub fn add_production(&mut self, label: String, body: Vec<String>)
        requires
            old(self).wf(),
            forall|k: int| 0 <= k < body@.len() ==> (#[trigger] body@[k])@.len() > 0,
        ensures
            final(self).wf(),
            final(self).start() == old(self).start(),
            final(self).symbols().len() >= old(self).symbols().len(),
            final(self).symbols().subrange(0, old(self).symbols().len() as int) == old(self).symbols(),
            forall|i: int| old(self).symbols().len() <= i < final(self).symbols().len()
                ==> added_symbol(#[trigger] final(self).symbols()[i], label@, names_of(body@)),
            final(self).productions().len() == old(self).productions().len() + 1,
            final(self).productions().drop_last() == old(self).productions(),
            final(self).symbols()[final(self).productions().last().0 as int].spec_name() == label@,
            final(self).productions().last().1.len() == body@.len(),
            forall|k: int| 0 <= k < body@.len()
                ==> final(self).symbols()[(#[trigger] final(self).productions().last().1[k]) as int].spec_name()
                    == body@[k]@,
    {
        let ghost label_name = label@;
        let head = self.resolve_symbol(label, true);
        let ghost mid = self.symbols();
        assert(self.knows(label_name));
        let ids = self.raw_symbols_to_production_body(body, Ghost(label_name));
        assert forall|i: int| old(self).symbols().len() <= i < self.symbols().len()
            implies added_symbol(#[trigger] self.symbols()[i], label_name, names_of(body@)) by {
            if i < mid.len() {
                assert(self.symbols()[i] == mid[i]);
            }
        }
        assert(self.symbols()[head as int] == mid[head as int]);
        let ghost before = self.productions@;
        self.productions.push(ProductionReference { head, body: ids });
        assert(self.productions().drop_last() =~= old(self).productions()) by {
            assert(production_views(self.productions@).drop_last() =~= production_views(before));
        }
        assert forall|j: int| 0 <= j < self.productions().len() implies self.valid_production(
            #[trigger] self.productions()[j],
        ) by {
            if j < before.len() {
                assert(self.productions()[j] == old(self).productions()[j]);
                assert(old(self).valid_production(old(self).productions()[j]));
            }
        }
    }

    /// Whether `symbol` is the start symbol.
    pub fn is_starting_symbol(&self, symbol: usize) -> (r: bool)
        ensures
            r == (symbol == self.start()),
    {
        self.start_symbol == symbol
    }
}

/// The bodies of the productions of `ps` whose head is `h`, in order.
pub open spec fn bodies_of(ps: Seq<(usize, Seq<usize>)>, h: usize) -> Seq<Seq<usize>>
    decreases ps.len(),
{
    if ps.len() == 0 {
        Seq::empty()
    } else if ps.last().0 == h {
        bodies_of(ps.drop_last(), h).push(ps.last().1)
    } else {
        bodies_of(ps.drop_last(), h)
    }
}

/// Whether some production of `ps` has head `h`.
pub open spec fn has_head(ps: Seq<(usize, Seq<usize>)>, h: usize) -> bool {
    exists|i: int| 0 <= i < ps.len() && (#[trigger] ps[i]).0 == h
}

/// The text of a body: the names of its symbols, separated by single spaces.
pub open spec fn body_text(syms: Seq<Symbol>, body: Seq<usize>) -> Seq<char>
    decreases body.len(),
{
    if body.len() == 0 {
        Seq::empty()
    } else if body.len() == 1 {
        syms[body[0] as int].spec_name()
    } else {
        body_text(syms, body.drop_last()) + seq![' '] + syms[body.last() as int].spec_name()
    }
}

/// A copy of a list of symbol ids.
pub(crate) fn copy_ids(v: &Vec<usize>) -> (r: Vec<usize>)
    ensures
        r@ == v@,
{
    let mut r: Vec<usize> = Vec::new();
    let mut i: usize = 0;
    while i < v.len()
        invariant
            0 <= i <= v@.len(),
            r@ == v@.subrange(0, i as int),
        decreases v@.len() - i,
    {
        r.push(v[i]);
        i = i + 1;
    }
    assert(r@ =~= v@);
    r
}

impl Grammar {
    /// The bodies stored for `symbol`, in order of insertion. A terminal has
    /// none to give (`InvalidSymbolKind`), nor has a non-terminal that heads no
    /// production (`UnknownNonTerminal`).
    pub fn productions_for(&self, symbol: usize) -> (r: Result<Vec<Vec<usize>>, GrammarError>)
        requires
            self.wf(),
            symbol < self.symbols().len(),
        ensures
            self.symbols()[symbol as int].spec_is_terminal() ==> r == Err::<Vec<Vec<usize>>, GrammarError>(GrammarError::InvalidSymbolKind),
            !self.symbols()[symbol as int].spec_is_terminal() && !has_head(self.productions(), symbol)
                ==> r == Err::<Vec<Vec<usize>>, GrammarError>(GrammarError::UnknownNonTerminal),
            !self.symbols()[symbol as int].spec_is_terminal() && has_head(self.productions(), symbol)
                ==> r is Ok && r->Ok_0@.map_values(|b: Vec<usize>| b@) == bodies_of(self.productions(), symbol),
    {
        if self.symbols[symbol].is_terminal() {
            return Err(GrammarError::InvalidSymbolKind);
        }
        let mut found = false;
        let mut r: Vec<Vec<usize>> = Vec::new();
        let mut i: usize = 0;
        while i < self.productions.len()
            invariant
                0 <= i <= self.productions@.len(),
                self.productions() == production_views(self.productions@),
                found == has_head(self.productions().subrange(0, i as int), symbol),
                r@.map_values(|b: Vec<usize>| b@) == bodies_of(self.productions().subrange(0, i as int), symbol),
            decreases self.productions@.len() - i,
        {
            let ghost ps = self.productions();
            assert(ps.subrange(0, i + 1).drop_last() =~= ps.subrange(0, i as int));
            assert(ps[i as int] == self.productions@[i as int]@);
            if self.productions[i].head == symbol {
                let body = copy_ids(&self.productions[i].body);
                let ghost before = r@;
                r.push(body);
                assert(r@.map_values(|b: Vec<usize>| b@) =~= before.map_values(|b: Vec<usize>| b@).push(
                    ps[i as int].1,
                ));
                found = true;
                assert(ps.subrange(0, i + 1)[i as int].0 == symbol);
            } else {
                assert(found == has_head(ps.subrange(0, i + 1), symbol)) by {
                    if has_head(ps.subrange(0, i + 1), symbol) {
                        let w = choose|w: int| 0 <= w < i + 1 && (#[trigger] ps.subrange(0, i + 1)[w]).0 == symbol;
                        assert(ps.subrange(0, i as int)[w].0 == symbol);
                    }
                    if found {
                        let w = choose|w: int| 0 <= w < i && (#[trigger] ps.subrange(0, i as int)[w]).0 == symbol;
                        assert(ps.subrange(0, i + 1)[w].0 == symbol);
                    }
                }
            }
            i = i + 1;
        }
        assert(self.productions().subrange(0, self.productions@.len() as int) =~= self.productions());
        if found {
            Ok(r)
        } else {
            Err(GrammarError::UnknownNonTerminal)
        }
    }

    /// Every stored production, one reference per insertion, in order of
    /// insertion.
    pub fn all_productions(&self) -> (r: Vec<ProductionReference>)
        ensures
            production_views(r@) == self.productions(),
    {
        let mut r: Vec<ProductionReference> = Vec::new();
        let mut i: usize = 0;
        while i < self.productions.len()
            invariant
                0 <= i <= self.productions@.len(),
                self.productions() == production_views(self.productions@),
                production_views(r@) == self.productions().subrange(0, i as int),
            decreases self.productions@.len() - i,
        {
            let p = &self.productions[i];
            let ghost before = r@;
            r.push(ProductionReference { head: p.head, body: copy_ids(&p.body) });
            assert(production_views(r@) =~= production_views(before).push(self.productions()[i as int]));
            assert(self.productions().subrange(0, i + 1) =~= self.productions().subrange(0, i as int).push(
                self.productions()[i as int],
            ));
            i = i + 1;
        }
        assert(self.productions().subrange(0, i as int) =~= self.productions());
        r
    }

    /// The id of the start symbol.
    pub fn start_symbol(&self) -> (r: usize)
        ensures
            r == self.start(),
    {
        self.start_symbol
    }

    /// The number of symbols in the pool; their ids are `0..symbol_count()`.
    pub fn symbol_count(&self) -> (r: usize)
        ensures
            r == self.symbols().len(),
    {
        self.symbols.len()
    }

    /// The symbol of id `id`.
    pub fn symbol(&self, id: usize) -> (r: &Symbol)
        requires
            id < self.symbols().len(),
        ensures
            *r == self.symbols()[id as int],
    {
        &self.symbols[id]
    }

    /// Whether the symbol of id `id` is a non-terminal.
    pub fn is_nonterminal_id(&self, id: usize) -> (r: bool)
        requires
            id < self.symbols().len(),
        ensures
            r == self.is_nt(id),
    {
        self.symbols[id].is_nonterminal()
    }

    /// The id of the pool symbol called `name`, if there is one.
    pub fn symbol_id(&self, name: &String) -> (r: Option<usize>)
        requires
            self.wf(),
        ensures
            r is None <==> !self.knows(name@),
            r is Some ==> r->0 < self.symbols().len() && self.symbols()[r->0 as int].spec_name() == name@,
    {
        let mut i: usize = 0;
        while i < self.symbols.len()
            invariant
                self.wf(),
                0 <= i <= self.symbols@.len(),
                forall|k: int| 0 <= k < i ==> self.symbols@[k].spec_name() != name@,
            decreases self.symbols@.len() - i,
        {
            if self.symbols[i].has_name(name) {
                return Some(i);
            }
            i = i + 1;
        }
        None
    }
}

/// The text of a production: the head's name, ` -> `, then the body's text.
/// An empty body leaves the text ending in the space after the arrow.
pub open spec fn production_text(syms: Seq<Symbol>, p: (usize, Seq<usize>)) -> Seq<char> {
    syms[p.0 as int].spec_name() + seq![' ', '-', '>', ' '] + body_text(syms, p.1)
}

impl Grammar {
    /// The text of `pr`, as in `S -> a B c`.
    pub fn production_to_string(&self, pr: &ProductionReference) -> (r: String)
        requires
            self.valid_production(pr@),
        ensures
            r@ == production_text(self.symbols(), pr@),
    {
        let mut r = String::new();
        r.append(self.symbols[pr.head].name());
        proof {
            reveal_strlit(" -> ");
        }
        r.append(" -> ");
        let ghost syms = self.symbols();
        let ghost prefix = syms[pr.head as int].spec_name() + seq![' ', '-', '>', ' '];
        assert(r@ =~= prefix);
        let ghost body = pr.body@;
        let mut k: usize = 0;
        while k < pr.body.len()
            invariant
                syms == self.symbols(),
                body == pr.body@,
                self.valid_production(pr@),
                0 <= k <= body.len(),
                r@ == prefix + body_text(syms, body.subrange(0, k as int)),
            decreases body.len() - k,
        {
            let ghost before = r@;
            let ghost sub = body.subrange(0, k + 1);
            assert(sub.drop_last() =~= body.subrange(0, k as int));
            assert(sub.last() == body[k as int]);
            assert(pr@.1[k as int] < syms.len());
            proof {
                reveal_strlit(" ");
            }
            if k > 0 {
                r.append(" ");
            }
            r.append(self.symbols[pr.body[k]].name());
            if k == 0 {
                assert(body.subrange(0, 0) =~= Seq::<usize>::empty());
                assert(sub[0] == body[0]);
                assert(r@ =~= prefix + body_text(syms, sub));
            } else {
                assert(" "@ =~= seq![' ']);
                assert(body_text(syms, sub) == body_text(syms, body.subrange(0, k as int)) + seq![' ']
                    + syms[body[k as int] as int].spec_name());
                assert(r@ =~= prefix + body_text(syms, sub));
            }
            k = k + 1;
        }
        assert(body.subrange(0, body.len() as int) =~= body);
        r
    }
}

} // verus!
