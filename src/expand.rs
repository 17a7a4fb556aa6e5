use vstd::prelude::*;
use vstd::string::*;

verus! {

/// The value bound to `key` by the first pair that names it.
pub open spec fn lookup(pairs: Seq<(Seq<char>, Seq<char>)>, key: Seq<char>) -> Option<Seq<char>>
    decreases pairs.len(),
{
    if pairs.len() == 0 {
        None
    } else if pairs[0].0 == key {
        Some(pairs[0].1)
    } else {
        lookup(pairs.drop_first(), key)
    }
}

/// Looking up from position `j` skips a pair whose key differs.
pub proof fn lemma_lookup_step(pairs: Seq<(Seq<char>, Seq<char>)>, key: Seq<char>, j: int)
    requires
        0 <= j < pairs.len(),
    ensures
        lookup(pairs.subrange(j, pairs.len() as int), key) == (if pairs[j].0 == key {
            Some(pairs[j].1)
        } else {
            lookup(pairs.subrange(j + 1, pairs.len() as int), key)
        }),
{
    let sub = pairs.subrange(j, pairs.len() as int);
    assert(sub.drop_first() =~= pairs.subrange(j + 1, pairs.len() as int));
}

/// The pair of strings in a name/value entry, as views.
pub open spec fn pair_view(p: (String, String)) -> (Seq<char>, Seq<char>) {
    (p.0@, p.1@)
}

/// Searches name/value pairs for the first one named `key`.
fn find_value(pairs: &Vec<(String, String)>, key: &String) -> (r: Option<usize>)
    ensures
        match r {
            Some(j) => j < pairs@.len() && pairs@[j as int].0@ == key@
                && lookup(pairs@.map_values(|p: (String, String)| pair_view(p)), key@) == Some(pairs@[j as int].1@),
            None => lookup(pairs@.map_values(|p: (String, String)| pair_view(p)), key@) == None::<Seq<char>>,
        },
{
    let ghost v = pairs@.map_values(|p: (String, String)| pair_view(p));
    assert(v.subrange(0, v.len() as int) =~= v);
    let mut j: usize = 0;
    while j < pairs.len()
        invariant
            j <= pairs@.len(),
            v.len() == pairs@.len(),
            v == pairs@.map_values(|p: (String, String)| pair_view(p)),
            lookup(v, key@) == lookup(v.subrange(j as int, v.len() as int), key@),
        decreases pairs@.len() - j,
    {
        proof {
            lemma_lookup_step(v, key@, j as int);
        }
        if pairs[j].0 == *key {
            return Some(j);
        }
        j = j + 1;
    }
    assert(v.subrange(j as int, v.len() as int).len() == 0);
    None
}

/// A process environment: variable names bound to values, the first binding of
/// a name being the one that counts.
pub struct Environment {
    pub vars: Vec<(String, String)>,
}

impl Environment {
    pub open spec fn view(&self) -> Seq<(Seq<char>, Seq<char>)> {
        self.vars@.map_values(|p: (String, String)| pair_view(p))
    }

    pub fn new() -> (r: Self)
        ensures
            r.view() == Seq::<(Seq<char>, Seq<char>)>::empty(),
    {
        let r = Environment { vars: Vec::new() };
        assert(r.view() =~= Seq::<(Seq<char>, Seq<char>)>::empty());
        r
    }

    /// Binds `name` to `value` unless `name` is bound already.
    pub fn add(&mut self, name: String, value: String)
        ensures
            final(self).view() == old(self).view().push((name@, value@)),
    {
        self.vars.push((name, value));
        assert(self.view() =~= old(self).view().push((name@, value@)));
    }
}

/// A character that may stand in a variable name: ASCII letters, digits, `_`.
pub open spec fn is_word_char(c: char) -> bool {
    ('a' <= c && c <= 'z') || ('A' <= c && c <= 'Z') || ('0' <= c && c <= '9') || c == '_'
}

fn is_word_char_exec(c: char) -> (r: bool)
    ensures
        r == is_word_char(c),
{
    ('a' <= c && c <= 'z') || ('A' <= c && c <= 'Z') || ('0' <= c && c <= '9') || c == '_'
}

/// The number of word characters in `s` from position `i` on.
pub open spec fn word_run(s: Seq<char>, i: int) -> nat
    decreases s.len() - i,
{
    if 0 <= i < s.len() && is_word_char(s[i]) {
        1 + word_run(s, i + 1)
    } else {
        0
    }
}

/// Whether a placeholder `%name%` (with a possibly empty name) starts at `i`.
pub open spec fn placeholder_at(s: Seq<char>, i: int) -> bool {
    &&& 0 <= i < s.len()
    &&& s[i] == '%'
    &&& i + 1 + word_run(s, i + 1) < s.len()
    &&& s[i + 1 + word_run(s, i + 1)] == '%'
}

/// Puts `p` in front of a successful expansion; a failure stays as it is.
pub open spec fn prepend(p: Seq<char>, r: Result<Seq<char>, Seq<char>>) -> Result<Seq<char>, Seq<char>> {
    match r {
        Ok(t) => Ok(p + t),
        Err(e) => Err(e),
    }
}

/// The expansion of `s` from position `i` on, scanning left to right: `%%`
/// stands for `%`, `%name%` for the value of `name`, any other character for
/// itself. The error is the first name that the environment does not bind.
pub open spec fn expand_from(s: Seq<char>, env: Seq<(Seq<char>, Seq<char>)>, i: int) -> Result<
    Seq<char>,
    Seq<char>,
>
    decreases s.len() - i,
{
    if i < 0 || i >= s.len() {
        Ok(Seq::empty())
    } else if placeholder_at(s, i) {
        let k = word_run(s, i + 1);
        let name = s.subrange(i + 1, i + 1 + k);
        if k == 0 {
            prepend(seq!['%'], expand_from(s, env, i + 2))
        } else {
            match lookup(env, name) {
                None => Err(name),
                Some(v) => prepend(v, expand_from(s, env, i + k + 2)),
            }
        }
    } else {
        prepend(seq![s[i]], expand_from(s, env, i + 1))
    }
}

/// The expansion of the whole of `s`.
pub open spec fn expanded(s: Seq<char>, env: Seq<(Seq<char>, Seq<char>)>) -> Result<Seq<char>, Seq<char>> {
    expand_from(s, env, 0)
}

proof fn lemma_word_run_bounds(s: Seq<char>, i: int)
    requires
        0 <= i <= s.len(),
    ensures
        0 <= word_run(s, i) <= s.len() - i,
    decreases s.len() - i,
{
    if i < s.len() && is_word_char(s[i]) {
        lemma_word_run_bounds(s, i + 1);
    }
}

proof fn lemma_prepend_assoc(a: Seq<char>, b: Seq<char>, r: Result<Seq<char>, Seq<char>>)
    ensures
        prepend(a, prepend(b, r)) == prepend(a + b, r),
{
    if let Ok(t) = r {
        assert(a + (b + t) =~= (a + b) + t);
    }
}

proof fn lemma_expand_from_plain(s: Seq<char>, env: Seq<(Seq<char>, Seq<char>)>, i: int)
    requires
        0 <= i <= s.len(),
        forall|j: int| 0 <= j < s.len() ==> s[j] != '%',
    ensures
        expand_from(s, env, i) == Ok::<Seq<char>, Seq<char>>(s.subrange(i, s.len() as int)),
    decreases s.len() - i,
{
    if i < s.len() {
        lemma_expand_from_plain(s, env, i + 1);
        assert(seq![s[i]] + s.subrange(i + 1, s.len() as int) =~= s.subrange(i, s.len() as int));
    } else {
        assert(s.subrange(i, s.len() as int) =~= Seq::<char>::empty());
    }
}

/// A string without `%` expands to itself, whatever the environment.
pub proof fn lemma_expand_without_percent(s: Seq<char>, env: Seq<(Seq<char>, Seq<char>)>)
    requires
        forall|j: int| 0 <= j < s.len() ==> s[j] != '%',
    ensures
        expanded(s, env) == Ok::<Seq<char>, Seq<char>>(s),
{
    lemma_expand_from_plain(s, env, 0);
    assert(s.subrange(0, s.len() as int) =~= s);
}

/// A `%name%` placeholder whose name the environment does not bind.
pub struct ExpandError {
    pub name: String,
}

/// Replaces each `%name%` in `s` by the value of `name` in `env`, and each `%%`
/// by `%`. Fails with the first name that `env` does not bind.
pub fn expand_env_vars(s: &str, env: &Environment) -> (r: Result<String, ExpandError>)
    ensures
        match expanded(s@, env.view()) {
            Ok(t) => r is Ok && r->Ok_0@ == t,
            Err(n) => r is Err && r->Err_0.name@ == n,
        },
{
    let n: usize = s.unicode_len();
    let mut out = String::new();
    let mut i: usize = 0;
    proof {
        assert(out@ + Seq::<char>::empty() =~= Seq::<char>::empty());
        lemma_prepend_assoc(out@, Seq::empty(), expand_from(s@, env.view(), 0));
        if let Ok(t) = expand_from(s@, env.view(), 0) {
            assert(out@ + t =~= t);
        }
    }
    while i < n
        invariant
            n == s@.len(),
            i <= n,
            expanded(s@, env.view()) == prepend(out@, expand_from(s@, env.view(), i as int)),
        decreases n - i,
    {
        let ghost sv = s@;
        let ghost ev = env.view();
        let c = s.get_char(i);
        let mut matched = false;
        if c == '%' {
            let mut j: usize = i + 1;
            proof {
                lemma_word_run_bounds(sv, j as int);
            }
            while j < n && is_word_char_exec(s.get_char(j))
                invariant
                    sv == s@,
                    n == sv.len(),
                    i + 1 <= j <= n,
                    word_run(sv, i + 1) == (j - (i + 1)) + word_run(sv, j as int),
                decreases n - j,
            {
                j = j + 1;
            }
            if j < n && s.get_char(j) == '%' {
                assert(word_run(sv, j as int) == 0);
                assert(placeholder_at(sv, i as int));
                let k: usize = j - (i + 1);
                matched = true;
                if k == 0 {
                    let pct = "%";
                    proof {
                        reveal_strlit("%");
                        lemma_prepend_assoc(out@, seq!['%'], expand_from(sv, ev, i + 2));
                    }
                    out.append(pct);
                    assert(pct@ =~= seq!['%']);
                } else {
                    let name = String::from_str(s.substring_char(i + 1, j));
                    let found = find_value(&env.vars, &name);
                    match found {
                        None => {
                            return Err(ExpandError { name });
                        },
                        Some(p) => {
                            proof {
                                lemma_prepend_assoc(out@, env.vars@[p as int].1@, expand_from(sv, ev, j + 1));
                            }
                            out.append(env.vars[p].1.as_str());
                        },
                    }
                }
                i = j + 1;
            }
        }
        if !matched {
            assert(!placeholder_at(sv, i as int));
            proof {
                lemma_prepend_assoc(out@, seq![sv[i as int]], expand_from(sv, ev, i + 1));
            }
            let one = s.substring_char(i, i + 1);
            assert(one@ =~= seq![sv[i as int]]);
            out.append(one);
            i = i + 1;
        }
    }
    proof {
        if let Ok(t) = expand_from(s@, env.view(), i as int) {
            assert(t =~= Seq::<char>::empty());
        }
        assert(out@ + Seq::<char>::empty() =~= out@);
    }
    Ok(out)
}

} // verus!
