use vstd::prelude::*;
use vstd::string::StrSliceExecFns;
use vstd::string::StringExecFns;

verus! {

/// The double quote, which is stripped from both ends of an atom.
pub open spec fn quote() -> char {
    '"'
}

/// The first place from `i` on that holds no quote.
pub open spec fn skip_front(s: Seq<char>, i: int) -> int
    decreases s.len() - i,
{
    if 0 <= i < s.len() && s[i] == quote() {
        skip_front(s, i + 1)
    } else {
        i
    }
}

/// The end of the text between `lo` and `j` once its trailing quotes are gone.
pub open spec fn skip_back(s: Seq<char>, lo: int, j: int) -> int
    decreases j,
{
    if 0 <= lo < j <= s.len() && s[j - 1] == quote() {
        skip_back(s, lo, j - 1)
    } else {
        j
    }
}

/// `s` without the quotes at its two ends.
pub open spec fn unquoted(s: Seq<char>) -> Seq<char> {
    s.subrange(skip_front(s, 0), skip_back(s, skip_front(s, 0), s.len() as int))
}

proof fn lemma_skips(s: Seq<char>, i: int, j: int)
    requires
        0 <= i <= j <= s.len(),
    ensures
        i <= skip_front(s, i) <= s.len(),
        i <= skip_back(s, i, j) <= j,
    decreases s.len() - i, j,
{
    if i < s.len() && s[i] == quote() {
        lemma_skips(s, i + 1, s.len() as int);
    }
    if i < j && s[j - 1] == quote() {
        lemma_skips(s, i, j - 1);
    }
}

/// Strips the quotes from both ends of an atom.
pub fn unquote(s: &str) -> (r: String)
    ensures
        r@ == unquoted(s@),
{
    let n = s.unicode_len();
    let mut lo: usize = 0;
    while lo < n && s.get_char(lo) == '"'
        invariant
            n == s@.len(),
            lo <= n,
            skip_front(s@, lo as int) == skip_front(s@, 0),
        decreases n - lo,
    {
        lo += 1;
    }
    let mut hi: usize = n;
    while lo < hi && s.get_char(hi - 1) == '"'
        invariant
            n == s@.len(),
            lo <= hi <= n,
            skip_back(s@, lo as int, hi as int) == skip_back(s@, lo as int, n as int),
        decreases hi,
    {
        hi -= 1;
    }
    String::from_str(s.substring_char(lo, hi))
}

/// An s-expression: an operator applied to arguments. An atom is a term without arguments.
#[derive(Debug, PartialEq, Eq)]
pub struct Term {
    pub head: String,
    pub args: Vec<Term>,
}

/// Whether two terms have the same operator and, one by one, the same arguments.
pub open spec fn same_term(a: Term, b: Term) -> bool
    decreases a,
{
    &&& a.head@ == b.head@
    &&& a.args@.len() == b.args@.len()
    &&& forall|i: int| 0 <= i < a.args@.len() ==> same_term(a.args@[i], #[trigger] b.args@[i])
}

/// Whether two patterns are the same variable, or have the same operator
/// and, one by one, the same arguments.
pub open spec fn same_pattern(a: Pattern, b: Pattern) -> bool
    decreases a,
{
    match a {
        Pattern::PatVar(v) => b is PatVar && b->PatVar_0@ == v@,
        Pattern::PatTerm(h, ps) => b is PatTerm && b->PatTerm_0@ == h@ && b->PatTerm_1@.len()
            == ps@.len() && forall|i: int|
            0 <= i < ps@.len() ==> same_pattern(ps@[i], #[trigger] b->PatTerm_1@[i]),
    }
}

impl Clone for Term {
    /// A copy with the same operator and the same arguments.
    fn clone(&self) -> (r: Self)
        ensures
            same_term(*self, r),
        decreases self,
    {
        let mut args: Vec<Term> = Vec::new();
        let mut i: usize = 0;
        while i < self.args.len()
            invariant
                i <= self.args@.len(),
                args@.len() == i,
                forall|j: int| 0 <= j < i ==> same_term(self.args@[j], #[trigger] args@[j]),
            decreases self.args@.len() - i,
        {
            args.push(self.args[i].clone());
            i += 1;
        }
        Term { head: self.head.clone(), args }
    }
}

impl Clone for Pattern {
    /// A copy that is the same pattern.
    fn clone(&self) -> (r: Self)
        ensures
            same_pattern(*self, r),
        decreases self,
    {
        match self {
            Pattern::PatVar(v) => Pattern::PatVar(v.clone()),
            Pattern::PatTerm(head, ps) => {
                let mut args: Vec<Pattern> = Vec::new();
                let mut i: usize = 0;
                while i < ps.len()
                    invariant
                        i <= ps@.len(),
                        *self == Pattern::PatTerm(*head, *ps),
                        args@.len() == i,
                        forall|j: int| 0 <= j < i ==> same_pattern(ps@[j], #[trigger] args@[j]),
                    decreases ps@.len() - i,
                {
                    proof {
                        assert(self->1 == *ps);
                        assert(decreases_to!(*self => self->1));
                        assert(decreases_to!(*ps => ps[i as int]));
                    }
                    args.push(ps[i].clone());
                    i += 1;
                }
                Pattern::PatTerm(head.clone(), args)
            },
        }
    }
}

impl Term {
    /// The atom `head`.
    pub fn leaf(head: &str) -> (t: Term)
        ensures
            t.head@ == head@,
            t.args@.len() == 0,
    {
        Term { head: String::from_str(head), args: Vec::new() }
    }

    /// The operator `head` applied to `args`.
    pub fn app(head: &str, args: Vec<Term>) -> (t: Term)
        ensures
            t.head@ == head@,
            t.args == args,
    {
        Term { head: String::from_str(head), args }
    }
}

/// A term with holes: a variable, or an operator applied to patterns.
#[derive(Debug, PartialEq, Eq, Hash)]
pub enum Pattern {
    PatVar(String),
    PatTerm(String, Vec<Pattern>),
}

/// A rewrite rule: whatever matches `lhs` is equal to the matching instance of `rhs`.
#[derive(Debug, Clone, PartialEq, Eq)]
pub struct Rule {
    pub lhs: Pattern,
    pub rhs: Pattern,
}

impl Pattern {
    /// The variables of the pattern.
    pub open spec fn vars(self) -> Set<Seq<char>>
        decreases self,
    {
        match self {
            Pattern::PatVar(v) => set![v@],
            Pattern::PatTerm(_, ps) => vars_upto(ps@, ps@.len()),
        }
    }
}

/// The variables of the first `n` patterns of `ps`.
pub open spec fn vars_upto(ps: Seq<Pattern>, n: nat) -> Set<Seq<char>>
    decreases ps, n,
{
    if n == 0 || n > ps.len() {
        Set::empty()
    } else {
        vars_upto(ps, (n - 1) as nat).union(ps[n - 1].vars())
    }
}

impl Rule {
    /// Whether every variable of the right-hand side occurs on the left.
    pub open spec fn wf(self) -> bool {
        self.rhs.vars().subset_of(self.lhs.vars())
    }
}

/// Whether an atom names a pattern variable: it begins with `?` or with `P_`.
pub open spec fn var_name(s: Seq<char>) -> bool {
    (s.len() >= 1 && s[0] == '?') || (s.len() >= 2 && s[0] == 'P' && s[1] == '_')
}

/// Whether an atom names a pattern variable.
pub fn is_var_name(s: &str) -> (r: bool)
    ensures
        r == var_name(s@),
{
    let n = s.unicode_len();
    if n >= 1 && s.get_char(0) == '?' {
        return true;
    }
    n >= 2 && s.get_char(0) == 'P' && s.get_char(1) == '_'
}

/// Whether a term can be read as a pattern: no variable is applied to arguments.
pub open spec fn patternable(t: Term) -> bool
    decreases t, 0nat,
{
    if var_name(unquoted(t.head@)) {
        t.args@.len() == 0
    } else {
        all_patternable(t.args@, t.args@.len())
    }
}

/// Whether the first `n` terms can be read as patterns.
pub open spec fn all_patternable(ts: Seq<Term>, n: nat) -> bool
    decreases ts, n,
{
    if n == 0 || n > ts.len() {
        true
    } else {
        all_patternable(ts, (n - 1) as nat) && patternable(ts[n - 1])
    }
}

/// Whether `p` is the term `t` read as a pattern: an atom that names a
/// variable is that variable, and any other term is its operator applied to
/// its arguments read as patterns.
pub open spec fn renders(p: Pattern, t: Term) -> bool
    decreases t, 0nat,
{
    if var_name(unquoted(t.head@)) {
        p is PatVar && p->PatVar_0@ == unquoted(t.head@)
    } else {
        p is PatTerm && p->PatTerm_0@ == unquoted(t.head@) && p->PatTerm_1@.len() == t.args@.len()
            && all_render(p->PatTerm_1@, t.args@, t.args@.len())
    }
}

/// Whether the first `n` patterns are the first `n` terms read as patterns.
pub open spec fn all_render(ps: Seq<Pattern>, ts: Seq<Term>, n: nat) -> bool
    decreases ts, n,
{
    if n == 0 || n > ts.len() || n > ps.len() {
        n == 0
    } else {
        all_render(ps, ts, (n - 1) as nat) && renders(ps[n - 1], ts[n - 1])
    }
}

/// Reads a term as a pattern; `None` where a variable is applied to arguments.
pub fn new_pattern(t: &Term) -> (r: Option<Pattern>)
    ensures
        r.is_some() == patternable(*t),
        match r {
            Some(p) => renders(p, *t),
            None => true,
        },
    decreases t,
{
    let head = unquote(t.head.as_str());
    if is_var_name(head.as_str()) {
        if t.args.len() == 0 {
            return Some(Pattern::PatVar(head));
        }
        return None;
    }
    let mut ps: Vec<Pattern> = Vec::new();
    let mut i: usize = 0;
    while i < t.args.len()
        invariant
            i <= t.args@.len(),
            ps@.len() == i,
            all_patternable(t.args@, i as nat),
            all_render(ps@, t.args@, i as nat),
        decreases t.args@.len() - i,
    {
        let ghost before = ps@;
        match new_pattern(&t.args[i]) {
            Some(p) => {
                ps.push(p);
            },
            None => {
                proof {
                    lemma_not_patternable(t.args@, i as nat, t.args@.len());
                }
                return None;
            },
        }
        proof {
            lemma_render_prefix(before, ps@, t.args@, i as nat);
        }
        i += 1;
    }
    Some(Pattern::PatTerm(head, ps))
}

proof fn lemma_not_patternable(ts: Seq<Term>, i: nat, n: nat)
    requires
        i < n <= ts.len(),
        !patternable(ts[i as int]),
    ensures
        !all_patternable(ts, n),
    decreases n,
{
    if i + 1 < n {
        lemma_not_patternable(ts, i, (n - 1) as nat);
    }
}

proof fn lemma_render_prefix(before: Seq<Pattern>, after: Seq<Pattern>, ts: Seq<Term>, n: nat)
    requires
        n <= before.len() <= after.len(),
        forall|j: int| 0 <= j < before.len() ==> after[j] == before[j],
        all_render(before, ts, n),
    ensures
        all_render(after, ts, n),
    decreases n,
{
    if n > 0 {
        lemma_render_prefix(before, after, ts, (n - 1) as nat);
    }
}

impl Pattern {
    /// Whether `v` is a variable of the pattern.
    pub fn has_var(&self, v: &String) -> (r: bool)
        ensures
            r == self.vars().contains(v@),
        decreases self,
    {
        match self {
            Pattern::PatVar(w) => *w == *v,
            Pattern::PatTerm(_, ps) => {
                let mut j: usize = 0;
                while j < ps.len()
                    invariant
                        j <= ps@.len(),
                        self is PatTerm,
                        self->PatTerm_1 == *ps,
                        !vars_upto(ps@, j as nat).contains(v@),
                    decreases ps@.len() - j,
                {
                    proof {
                        assert(decreases_to!(*self => self->PatTerm_1));
                        assert(decreases_to!(*ps => ps[j as int]));
                    }
                    if ps[j].has_var(v) {
                        proof {
                            lemma_vars_within(ps@, j as nat, ps@.len());
                        }
                        return true;
                    }
                    j += 1;
                }
                false
            },
        }
    }

    /// Whether every variable of the pattern is a variable of `other`.
    pub fn vars_in(&self, other: &Pattern) -> (r: bool)
        ensures
            r == self.vars().subset_of(other.vars()),
        decreases self,
    {
        match self {
            Pattern::PatVar(v) => {
                proof {
                    assert(self.vars().contains(v@));
                }
                other.has_var(v)
            },
            Pattern::PatTerm(_, ps) => {
                let mut j: usize = 0;
                while j < ps.len()
                    invariant
                        j <= ps@.len(),
                        self is PatTerm,
                        self->PatTerm_1 == *ps,
                        vars_upto(ps@, j as nat).subset_of(other.vars()),
                    decreases ps@.len() - j,
                {
                    proof {
                        assert(decreases_to!(*self => self->PatTerm_1));
                        assert(decreases_to!(*ps => ps[j as int]));
                    }
                    if !ps[j].vars_in(other) {
                        proof {
                            lemma_vars_within(ps@, j as nat, ps@.len());
                        }
                        return false;
                    }
                    j += 1;
                }
                true
            },
        }
    }
}

/// The variables of a pattern of a list are among those of the list.
pub proof fn lemma_vars_within(ps: Seq<Pattern>, j: nat, n: nat)
    requires
        j < n <= ps.len(),
    ensures
        ps[j as int].vars().subset_of(vars_upto(ps, n)),
    decreases n,
{
    if j + 1 < n {
        lemma_vars_within(ps, j, (n - 1) as nat);
    }
}

impl Rule {
    /// Reads two terms as a rule; `None` where one of them is no pattern or
    /// the right-hand side has a variable that the left-hand side lacks.
    pub fn new_rule(lhs: &Term, rhs: &Term) -> (r: Option<Rule>)
        ensures
            r.is_some() ==> patternable(*lhs) && patternable(*rhs),
            match r {
                Some(rule) => renders(rule.lhs, *lhs) && renders(rule.rhs, *rhs) && rule.wf(),
                None => !patternable(*lhs) || !patternable(*rhs) || forall|l: Pattern, q: Pattern|
                    renders(l, *lhs) && renders(q, *rhs) ==> !q.vars().subset_of(l.vars()),
            },
    {
        let l = match new_pattern(lhs) {
            Some(p) => p,
            None => {
                return None;
            },
        };
        let q = match new_pattern(rhs) {
            Some(p) => p,
            None => {
                return None;
            },
        };
        if !q.vars_in(&l) {
            proof {
                assert forall|l2: Pattern, q2: Pattern|
                    renders(l2, *lhs) && renders(q2, *rhs) implies !q2.vars().subset_of(
                    l2.vars(),
                ) by {
                    lemma_renders_vars(l, l2, *lhs);
                    lemma_renders_vars(q, q2, *rhs);
                }
            }
            return None;
        }
        Some(Rule { lhs: l, rhs: q })
    }
}

/// Two readings of one term have the same variables.
pub proof fn lemma_renders_vars(p: Pattern, q: Pattern, t: Term)
    requires
        renders(p, t),
        renders(q, t),
    ensures
        p.vars() == q.vars(),
    decreases t, 0nat,
{
    if var_name(unquoted(t.head@)) {
        assert(p.vars() =~= q.vars());
    } else {
        lemma_render_all_vars(p->PatTerm_1@, q->PatTerm_1@, t.args@, t.args@.len());
    }
}

/// The same for the first `n` terms of a list.
pub proof fn lemma_render_all_vars(ps: Seq<Pattern>, qs: Seq<Pattern>, ts: Seq<Term>, n: nat)
    requires
        all_render(ps, ts, n),
        all_render(qs, ts, n),
    ensures
        vars_upto(ps, n) == vars_upto(qs, n),
    decreases ts, n,
{
    if n > 0 {
        lemma_render_all_vars(ps, qs, ts, (n - 1) as nat);
        lemma_renders_vars(ps[n - 1], qs[n - 1], ts[n - 1]);
    }
}

} // verus!
