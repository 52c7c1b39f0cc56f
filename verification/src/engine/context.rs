//! The variables that conditions and argument templates read.
//!
//! A context is a list of `(name, value)` pairs in which no name occurs
//! twice; setting a variable that is already present replaces its value in
//! place, and a new variable goes to the end.
use vstd::prelude::*;

verus! {

/// The models of a list of variables.
pub open spec fn vars_view(s: Seq<(String, String)>) -> Seq<(Seq<char>, Seq<char>)> {
    s.map_values(|p: (String, String)| (p.0@, p.1@))
}

/// No name occurs twice.
pub open spec fn distinct_names(s: Seq<(Seq<char>, Seq<char>)>) -> bool {
    forall|i: int, j: int| 0 <= i < j < s.len() ==> #[trigger] s[i].0 != #[trigger] s[j].0
}

/// Some variable is named `k`.
pub open spec fn has_var(s: Seq<(Seq<char>, Seq<char>)>, k: Seq<char>) -> bool {
    exists|i: int| 0 <= i < s.len() && #[trigger] s[i].0 == k
}

/// The index of the first variable named `k`.
pub open spec fn var_index(s: Seq<(Seq<char>, Seq<char>)>, k: Seq<char>) -> int {
    choose|i: int| 0 <= i < s.len() && s[i].0 == k && forall|j: int| 0 <= j < i ==> #[trigger] s[j].0 != k
}

/// The value of the variable named `k`, if any.
pub open spec fn lookup(s: Seq<(Seq<char>, Seq<char>)>, k: Seq<char>) -> Option<Seq<char>> {
    if has_var(s, k) {
        Some(s[var_index(s, k)].1)
    } else {
        None
    }
}

/// `s` with the variable `k` set to `v`: replaced where it is, or appended.
pub open spec fn set_var(s: Seq<(Seq<char>, Seq<char>)>, k: Seq<char>, v: Seq<char>) -> Seq<(Seq<char>, Seq<char>)> {
    if has_var(s, k) {
        s.update(var_index(s, k), (k, v))
    } else {
        s.push((k, v))
    }
}

/// The variables that setting each pair of `s` in turn gives.
pub open spec fn from_pairs(s: Seq<(Seq<char>, Seq<char>)>) -> Seq<(Seq<char>, Seq<char>)>
    decreases s.len(),
{
    if s.len() == 0 {
        Seq::empty()
    } else {
        set_var(from_pairs(s.drop_last()), s.last().0, s.last().1)
    }
}

/// The first variable named `k` is at `i`.
pub proof fn lemma_var_index(s: Seq<(Seq<char>, Seq<char>)>, k: Seq<char>, i: int)
    requires
        0 <= i < s.len(),
        s[i].0 == k,
        forall|j: int| 0 <= j < i ==> #[trigger] s[j].0 != k,
    ensures
        has_var(s, k),
        var_index(s, k) == i,
{
    let w = var_index(s, k);
    assert(0 <= w < s.len() && s[w].0 == k && forall|j: int| 0 <= j < w ==> #[trigger] s[j].0 != k);
    if w < i {
        assert(s[w].0 != k);
    } else if w > i {
        assert(s[i].0 != k);
    }
}

/// Setting a variable keeps the names distinct.
pub proof fn lemma_set_var_distinct(s: Seq<(Seq<char>, Seq<char>)>, k: Seq<char>, v: Seq<char>)
    requires
        distinct_names(s),
    ensures
        distinct_names(set_var(s, k, v)),
{
    let t = set_var(s, k, v);
    if has_var(s, k) {
        let w = var_index(s, k);
        assert forall|i: int, j: int| 0 <= i < j < t.len() implies #[trigger] t[i].0 != #[trigger] t[j].0 by {
            if i == w {
                assert(s[j].0 != s[w].0);
            } else if j == w {
                assert(s[i].0 != s[w].0);
            } else {
                assert(s[i].0 != s[j].0);
            }
        }
    } else {
        assert forall|i: int, j: int| 0 <= i < j < t.len() implies #[trigger] t[i].0 != #[trigger] t[j].0 by {
            if j == s.len() {
                assert(t[i].0 == s[i].0);
                assert(!(0 <= i < s.len() && s[i].0 == k));
            } else {
                assert(s[i].0 != s[j].0);
            }
        }
    }
}

/// Reading a variable after setting one: the value just set for its name,
/// and the earlier value for every other name.
pub proof fn law_lookup_after_set(s: Seq<(Seq<char>, Seq<char>)>, k: Seq<char>, v: Seq<char>, k2: Seq<char>)
    requires
        distinct_names(s),
    ensures
        lookup(set_var(s, k, v), k2) == (if k2 == k {
            Some(v)
        } else {
            lookup(s, k2)
        }),
{
    let t = set_var(s, k, v);
    lemma_set_var_distinct(s, k, v);
    if has_var(s, k) {
        let w = var_index(s, k);
        if k2 == k {
            assert forall|j: int| 0 <= j < w implies #[trigger] t[j].0 != k2 by {
                assert(s[j].0 != k);
            }
            lemma_var_index(t, k2, w);
        } else if has_var(s, k2) {
            let u = var_index(s, k2);
            assert(u != w);
            assert forall|j: int| 0 <= j < u implies #[trigger] t[j].0 != k2 by {
                if j != w {
                    assert(s[j].0 != k2);
                }
            }
            lemma_var_index(t, k2, u);
        } else {
            if has_var(t, k2) {
                let x = choose|i: int| 0 <= i < t.len() && #[trigger] t[i].0 == k2;
                if x != w {
                    assert(s[x].0 == k2);
                }
            }
        }
    } else {
        let n = s.len() as int;
        if k2 == k {
            assert forall|j: int| 0 <= j < n implies #[trigger] t[j].0 != k2 by {
                assert(t[j] == s[j]);
                assert(!(0 <= j < s.len() && s[j].0 == k));
            }
            lemma_var_index(t, k2, n);
        } else if has_var(s, k2) {
            let u = var_index(s, k2);
            assert forall|j: int| 0 <= j < u implies #[trigger] t[j].0 != k2 by {
                assert(t[j] == s[j]);
            }
            lemma_var_index(t, k2, u);
        } else {
            if has_var(t, k2) {
                let x = choose|i: int| 0 <= i < t.len() && #[trigger] t[i].0 == k2;
                if x != n {
                    assert(s[x].0 == k2);
                }
            }
        }
    }
}

/// Collecting pairs gives distinct names.
pub proof fn lemma_from_pairs_distinct(s: Seq<(Seq<char>, Seq<char>)>)
    ensures
        distinct_names(from_pairs(s)),
    decreases s.len(),
{
    if s.len() > 0 {
        lemma_from_pairs_distinct(s.drop_last());
        lemma_set_var_distinct(from_pairs(s.drop_last()), s.last().0, s.last().1);
    }
}

/// The value of the last pair of `s` named `k`, if any.
pub open spec fn last_value(s: Seq<(Seq<char>, Seq<char>)>, k: Seq<char>) -> Option<Seq<char>>
    decreases s.len(),
{
    if s.len() == 0 {
        None
    } else if s.last().0 == k {
        Some(s.last().1)
    } else {
        last_value(s.drop_last(), k)
    }
}

/// Collecting pairs keeps, for each name, the value of its last pair.
pub proof fn law_collected_pairs_keep_last_value(s: Seq<(Seq<char>, Seq<char>)>, k: Seq<char>)
    ensures
        lookup(from_pairs(s), k) == last_value(s, k),
    decreases s.len(),
{
    if s.len() == 0 {
        assert(!has_var(from_pairs(s), k));
    } else {
        law_collected_pairs_keep_last_value(s.drop_last(), k);
        lemma_from_pairs_distinct(s.drop_last());
        law_lookup_after_set(from_pairs(s.drop_last()), s.last().0, s.last().1, k);
    }
}

/// A copy of a list of name/value pairs.
pub fn copy_pairs(v: &Vec<(String, String)>) -> (r: Vec<(String, String)>)
    ensures
        vars_view(r@) == vars_view(v@),
{
    let mut out: Vec<(String, String)> = Vec::new();
    let mut i: usize = 0;
    while i < v.len()
        invariant
            i <= v@.len(),
            vars_view(out@) == vars_view(v@).take(i as int),
        decreases v@.len() - i,
    {
        let ghost before = out@;
        out.push((v[i].0.clone(), v[i].1.clone()));
        proof {
            assert(vars_view(out@) =~= vars_view(before).push((v@[i as int].0@, v@[i as int].1@)));
            assert(vars_view(v@).take(i + 1) =~= vars_view(v@).take(i as int).push((v@[i as int].0@, v@[i as int].1@)));
        }
        i = i + 1;
    }
    assert(vars_view(v@).take(i as int) =~= vars_view(v@));
    out
}

/// The variables of a workflow run.
#[derive(Debug, Clone)]
pub struct Context {
    pub vars: Vec<(String, String)>,
}

impl Context {
    /// The variables as name/value pairs, in order.
    pub open spec fn view(&self) -> Seq<(Seq<char>, Seq<char>)> {
        vars_view(self.vars@)
    }

    /// No name occurs twice.
    pub open spec fn wf(&self) -> bool {
        distinct_names(self@)
    }

    /// A context without variables.
    pub fn new() -> (r: Context)
        ensures
            r@ == Seq::<(Seq<char>, Seq<char>)>::empty(),
            r.wf(),
    {
        let r = Context { vars: Vec::new() };
        assert(r@ =~= Seq::<(Seq<char>, Seq<char>)>::empty());
        r
    }

    /// A context holding `vars`; where a name occurs more than once, the
    /// last value for it wins.
    pub fn with(vars: Vec<(String, String)>) -> (r: Context)
        ensures
            r@ == from_pairs(vars_view(vars@)),
            r.wf(),
    {
        let mut ctx = Context::new();
        let mut i: usize = 0;
        while i < vars.len()
            invariant
                i <= vars@.len(),
                ctx@ == from_pairs(vars_view(vars@).take(i as int)),
                ctx.wf(),
            decreases vars@.len() - i,
        {
            let name = vars[i].0.clone();
            let value = vars[i].1.clone();
            ctx.insert(name, value);
            proof {
                let t = vars_view(vars@).take(i + 1);
                assert(t.drop_last() =~= vars_view(vars@).take(i as int));
            }
            i = i + 1;
        }
        proof {
            assert(vars_view(vars@).take(i as int) =~= vars_view(vars@));
        }
        ctx
    }

    /// The index of the variable named `key`, if any.
    fn position(&self, key: &String) -> (r: Option<usize>)
        ensures
            r is None ==> !has_var(self@, key@),
            r is Some ==> r->0 < self.vars@.len() && has_var(self@, key@) && var_index(self@, key@)
                == r->0,
    {
        let mut i: usize = 0;
        while i < self.vars.len()
            invariant
                i <= self.vars@.len(),
                self@.len() == self.vars@.len(),
                forall|j: int| 0 <= j < i ==> #[trigger] self@[j].0 != key@,
            decreases self.vars@.len() - i,
        {
            if self.vars[i].0 == *key {
                proof {
                    lemma_var_index(self@, key@, i as int);
                }
                return Some(i);
            }
            i = i + 1;
        }
        None
    }

    /// The value of the variable named `key`.
    pub fn get(&self, key: &str) -> (r: Option<&String>)
        ensures
            match r {
                Some(v) => lookup(self@, key@) == Some(v@),
                None => lookup(self@, key@) is None,
            },
    {
        let k = key.to_owned();
        match self.position(&k) {
            Some(i) => Some(&self.vars[i].1),
            None => None,
        }
    }

    /// Sets the variable `key` to `value`.
    pub fn insert(&mut self, key: String, value: String)
        ensures
            final(self)@ == set_var(old(self)@, key@, value@),
            old(self).wf() ==> final(self).wf(),
    {
        proof {
            if old(self).wf() {
                lemma_set_var_distinct(old(self)@, key@, value@);
            }
        }
        match self.position(&key) {
            Some(i) => {
                self.vars.set(i, (key, value));
                assert(self@ =~= set_var(old(self)@, key@, value@));
            },
            None => {
                self.vars.push((key, value));
                assert(self@ =~= set_var(old(self)@, key@, value@));
            },
        }
    }
}

impl Default for Context {
    fn default() -> (r: Context)
        ensures
            r@ == Seq::<(Seq<char>, Seq<char>)>::empty(),
    {
        Context::new()
    }
}

} // verus!
