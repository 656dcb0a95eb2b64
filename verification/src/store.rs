//! The variable store and template substitution.
//!
//! The store maps variable names to string values and keeps the order in
//! which names were added: substitution applies the entries in that order.
//! A template substitutes every occurrence of `${name}` for every stored
//! name, in up to five passes so that one substitution may expose another
//! placeholder; cycles are not detected — after the fifth pass whatever
//! placeholder text remains is left in place.

use vstd::prelude::*;

verus! {

/// Replace every occurrence of `pat` in `s` by `to`, scanning left to right
/// without overlap. An empty pattern replaces nothing.
pub open spec fn replace_all_spec(s: Seq<char>, pat: Seq<char>, to: Seq<char>) -> Seq<char>
    decreases s.len(),
{
    if pat.len() <= 0 || s.len() < pat.len() {
        s
    } else if s.take(pat.len() as int) == pat {
        to + replace_all_spec(s.skip(pat.len() as int), pat, to)
    } else {
        seq![s[0]] + replace_all_spec(s.drop_first(), pat, to)
    }
}

/// The placeholder text that names a variable.
pub open spec fn placeholder(key: Seq<char>) -> Seq<char> {
    seq!['$', '{'] + key + seq!['}']
}

/// One substitution pass: apply every store entry in order.
pub open spec fn subst_pass(s: Seq<char>, entries: Seq<(Seq<char>, Seq<char>)>) -> Seq<char>
    decreases entries.len(),
{
    if entries.len() == 0 {
        s
    } else {
        subst_pass(
            replace_all_spec(s, placeholder(entries[0].0), entries[0].1),
            entries.drop_first(),
        )
    }
}

/// `n` substitution passes over `s`.
pub open spec fn subst_rounds(s: Seq<char>, entries: Seq<(Seq<char>, Seq<char>)>, n: nat) -> Seq<
    char,
>
    decreases n,
{
    if n == 0 {
        s
    } else {
        subst_rounds(subst_pass(s, entries), entries, (n - 1) as nat)
    }
}

/// The number of passes a template is given.
pub open spec fn pass_bound() -> nat {
    5
}

/// Whether the store holds an entry under `key`.
pub open spec fn store_has(entries: Seq<(Seq<char>, Seq<char>)>, key: Seq<char>) -> bool {
    exists|i: int| 0 <= i < entries.len() && entries[i].0 == key
}

/// Updating an absent variable reports the missing key.
pub struct VarError {
    pub key: String,
}

/// The variable store: names to values, in insertion order.
pub struct VarStore {
    entries: Vec<(String, String)>,
}

impl View for VarStore {
    type V = Seq<(Seq<char>, Seq<char>)>;

    closed spec fn view(&self) -> Seq<(Seq<char>, Seq<char>)> {
        self.entries@.map_values(|p: (String, String)| (p.0@, p.1@))
    }
}

impl VarStore {
    /// An empty store.
    pub fn new() -> (s: VarStore)
        ensures
            s@ =~= Seq::<(Seq<char>, Seq<char>)>::empty(),
    {
        VarStore { entries: Vec::new() }
    }

    /// The number of entries.
    pub fn len(&self) -> (n: usize)
        ensures
            n == self@.len(),
    {
        self.entries.len()
    }

    /// The entry at `i`, as name and value.
    pub fn entry_at(&self, i: usize) -> (e: (&String, &String))
        requires
            i < self@.len(),
        ensures
            e.0@ == self@[i as int].0,
            e.1@ == self@[i as int].1,
    {
        let p = &self.entries[i];
        (&p.0, &p.1)
    }

    /// The index of the first entry named `key`, if any.
    fn index_of(&self, key: &String) -> (r: Option<usize>)
        ensures
            match r {
                Some(i) => i < self@.len() && self@[i as int].0 == key@ && forall|j: int|
                    0 <= j < i ==> (#[trigger] self@[j].0) != key@,
                None => !store_has(self@, key@),
            },
    {
        let mut i: usize = 0;
        while i < self.entries.len()
            invariant
                i <= self.entries.len(),
                self@.len() == self.entries@.len(),
                forall|j: int| 0 <= j < i ==> (#[trigger] self@[j].0) != key@,
            decreases self.entries.len() - i,
        {
            if self.entries[i].0 == *key {
                return Some(i);
            }
            i += 1;
        }
        None
    }

    /// Add an entry: a fresh name is appended, an existing name's first
    /// entry takes the new value.
    pub fn add(&mut self, key: String, value: String)
        ensures
            store_has(old(self)@, key@) ==> exists|i: int|
                0 <= i < old(self)@.len() && old(self)@[i].0 == key@ && final(self)@ =~= old(
                    self,
                )@.update(i, (key@, value@)),
            !store_has(old(self)@, key@) ==> final(self)@ =~= old(self)@.push((key@, value@)),
    {
        match self.index_of(&key) {
            Some(i) => {
                let _ = self.entries.remove(i);
                self.entries.insert(i, (key, value));
                proof {
                    assert(final(self)@ =~= old(self)@.update(i as int, (key@, value@)));
                }
            },
            None => {
                self.entries.push((key, value));
                proof {
                    assert(final(self)@ =~= old(self)@.push((key@, value@)));
                }
            },
        }
    }

    /// Update an existing variable; a name the store does not hold is an
    /// error and leaves the store unchanged.
    pub fn update(&mut self, key: String, value: String) -> (r: Result<(), VarError>)
        ensures
            match r {
                Ok(()) => store_has(old(self)@, key@) && exists|i: int|
                    0 <= i < old(self)@.len() && old(self)@[i].0 == key@ && final(self)@ =~= old(
                        self,
                    )@.update(i, (key@, value@)),
                Err(e) => !store_has(old(self)@, key@) && e.key@ == key@ && final(self)@ == old(
                    self,
                )@,
            },
    {
        match self.index_of(&key) {
            Some(i) => {
                let _ = self.entries.remove(i);
                self.entries.insert(i, (key, value));
                proof {
                    assert(final(self)@ =~= old(self)@.update(i as int, (key@, value@)));
                }
                Ok(())
            },
            None => Err(VarError { key }),
        }
    }
}

/// Relies on String::push: appends exactly the one character.
#[verifier::external_body]
fn push_char(s: &mut String, c: char)
    ensures
        final(s)@ == old(s)@.push(c),
{
    s.push(c);
}

/// The characters of a string slice, in order.
pub fn chars_of_str(s: &str) -> (r: Vec<char>)
    ensures
        r@ == s@,
{
    let n = s.unicode_len();
    let mut r: Vec<char> = Vec::new();
    let mut i: usize = 0;
    while i < n
        invariant
            i <= n,
            n == s@.len(),
            r@ =~= s@.take(i as int),
        decreases n - i,
    {
        let c = s.get_char(i);
        r.push(c);
        proof {
            assert(r@ =~= s@.take(i + 1int));
        }
        i += 1;
    }
    proof {
        assert(r@ =~= s@);
    }
    r
}

/// The string holding exactly these characters.
pub fn string_of_chars(v: &Vec<char>) -> (r: String)
    ensures
        r@ == v@,
{
    let mut r = String::new();
    let mut i: usize = 0;
    while i < v.len()
        invariant
            i <= v.len(),
            r@ =~= v@.take(i as int),
        decreases v.len() - i,
    {
        push_char(&mut r, v[i]);
        proof {
            assert(r@ =~= v@.take(i + 1int));
        }
        i += 1;
    }
    proof {
        assert(r@ =~= v@);
    }
    r
}

/// Whether `pat` occurs in `s` at position `at`.
fn occurs_at(s: &Vec<char>, pat: &Vec<char>, at: usize) -> (r: bool)
    requires
        at <= s.len(),
        pat.len() <= s.len() - at,
    ensures
        r == (s@.subrange(at as int, at + pat@.len()) == pat@),
{
    let mut j: usize = 0;
    while j < pat.len()
        invariant
            j <= pat.len(),
            at + pat.len() <= s.len(),
            forall|k: int| 0 <= k < j ==> s@[at + k] == pat@[k],
        decreases pat.len() - j,
    {
        if s[at + j] != pat[j] {
            proof {
                assert(s@.subrange(at as int, at + pat@.len())[j as int] == s@[at + j]);
            }
            return false;
        }
        j += 1;
    }
    proof {
        assert(s@.subrange(at as int, at + pat@.len()) =~= pat@);
    }
    true
}

/// Replace every occurrence of `pat` in `s` by `to`, per `replace_all_spec`.
fn replace_all_chars(s: &Vec<char>, pat: &Vec<char>, to: &Vec<char>) -> (r: Vec<char>)
    requires
        pat.len() >= 1,
    ensures
        r@ == replace_all_spec(s@, pat@, to@),
{
    let mut out: Vec<char> = Vec::new();
    let mut i: usize = 0;
    proof {
        assert(s@.skip(0) =~= s@);
        assert(out@ + replace_all_spec(s@, pat@, to@) =~= replace_all_spec(s@, pat@, to@));
    }
    while i < s.len()
        invariant
            i <= s.len(),
            pat@.len() >= 1,
            replace_all_spec(s@, pat@, to@) =~= out@ + replace_all_spec(
                s@.skip(i as int),
                pat@,
                to@,
            ),
        decreases s.len() - i,
    {
        let ghost i0 = i as int;
        let ghost out0 = out@;
        if pat.len() <= s.len() - i && occurs_at(s, pat, i) {
            let mut j: usize = 0;
            while j < to.len()
                invariant
                    j <= to.len(),
                    out@ =~= out0 + to@.take(j as int),
                decreases to.len() - j,
            {
                out.push(to[j]);
                proof {
                    assert(out@ =~= out0 + to@.take(j + 1int));
                }
                j += 1;
            }
            i += pat.len();
            proof {
                assert(out@ =~= out0 + to@);
                assert(s@.skip(i0).take(pat@.len() as int) =~= s@.subrange(
                    i0,
                    i0 + pat@.len(),
                ));
                assert(s@.skip(i0).skip(pat@.len() as int) =~= s@.skip(i as int));
                assert(replace_all_spec(s@.skip(i0), pat@, to@) == to@ + replace_all_spec(
                    s@.skip(i as int),
                    pat@,
                    to@,
                ));
                assert(out0 + (to@ + replace_all_spec(s@.skip(i as int), pat@, to@)) =~= (out0
                    + to@) + replace_all_spec(s@.skip(i as int), pat@, to@));
            }
        } else {
            out.push(s[i]);
            i += 1;
            proof {
                assert(out@ =~= out0.push(s@[i0]));
                assert(s@.skip(i0).drop_first() =~= s@.skip(i as int));
                if pat@.len() <= s@.skip(i0).len() {
                    assert(s@.skip(i0).take(pat@.len() as int) =~= s@.subrange(
                        i0,
                        i0 + pat@.len(),
                    ));
                    assert(s@.skip(i0).take(pat@.len() as int) != pat@);
                    assert(replace_all_spec(s@.skip(i0), pat@, to@) == seq![s@[i0]]
                        + replace_all_spec(s@.skip(i as int), pat@, to@));
                } else {
                    assert(s@.skip(i0).len() < pat@.len());
                    assert(replace_all_spec(s@.skip(i0), pat@, to@) == s@.skip(i0));
                    assert(replace_all_spec(s@.skip(i as int), pat@, to@) == s@.skip(i as int));
                    assert(s@.skip(i0) =~= seq![s@[i0]] + s@.skip(i as int));
                }
                assert(out0 + (seq![s@[i0]] + replace_all_spec(s@.skip(i as int), pat@, to@))
                    =~= out0.push(s@[i0]) + replace_all_spec(s@.skip(i as int), pat@, to@));
            }
        }
    }
    proof {
        assert(s@.skip(i as int) =~= Seq::<char>::empty());
        assert(replace_all_spec(s@.skip(i as int), pat@, to@) == s@.skip(i as int));
        assert(out@ + Seq::<char>::empty() =~= out@);
    }
    out
}

/// The placeholder characters `${key}`.
fn placeholder_chars(key: &String) -> (r: Vec<char>)
    ensures
        r@ == placeholder(key@),
{
    let mut r: Vec<char> = Vec::new();
    r.push('$');
    r.push('{');
    let ks = chars_of_str(key.as_str());
    let mut i: usize = 0;
    while i < ks.len()
        invariant
            i <= ks.len(),
            ks@ == key@,
            r@ =~= seq!['$', '{'] + key@.take(i as int),
        decreases ks.len() - i,
    {
        r.push(ks[i]);
        proof {
            assert(r@ =~= seq!['$', '{'] + key@.take(i + 1int));
        }
        i += 1;
    }
    r.push('}');
    proof {
        assert(r@ =~= placeholder(key@));
    }
    r
}

/// One substitution pass over `s`: every store entry, in order.
fn subst_pass_exec(s: Vec<char>, variables: &VarStore) -> (r: Vec<char>)
    ensures
        r@ == subst_pass(s@, variables@),
{
    let ghost s0 = s@;
    let mut cur = s;
    let mut k: usize = 0;
    proof {
        assert(variables@.skip(0) =~= variables@);
    }
    while k < variables.len()
        invariant
            k <= variables@.len(),
            subst_pass(s0, variables@) == subst_pass(cur@, variables@.skip(k as int)),
        decreases variables@.len() - k,
    {
        let ghost cur0 = cur@;
        let (key, value) = variables.entry_at(k);
        let pat = placeholder_chars(key);
        let val = chars_of_str(value.as_str());
        proof {
            assert(placeholder(variables@[k as int].0).len() >= 1);
        }
        cur = replace_all_chars(&cur, &pat, &val);
        k += 1;
        proof {
            let rest = variables@.skip(k - 1int);
            assert(rest[0] == variables@[k - 1int]);
            assert(rest.drop_first() =~= variables@.skip(k as int));
            assert(subst_pass(cur0, rest) == subst_pass(
                replace_all_spec(cur0, placeholder(rest[0].0), rest[0].1),
                rest.drop_first(),
            ));
        }
    }
    proof {
        assert(variables@.skip(k as int) =~= Seq::<(Seq<char>, Seq<char>)>::empty());
        assert(subst_pass(cur@, variables@.skip(k as int)) == cur@);
    }
    cur
}

/// Substitute placeholders in `expr` against the store: five passes, each
/// applying every entry in order; whatever text remains after the fifth
/// pass — including any still-unresolved placeholder — is the result.
pub fn replace(expr: String, variables: &VarStore) -> (r: String)
    ensures
        r@ == subst_rounds(expr@, variables@, pass_bound()),
{
    let mut cur = chars_of_str(expr.as_str());
    let mut t: usize = 0;
    while t < 5
        invariant
            t <= 5,
            subst_rounds(expr@, variables@, pass_bound()) == subst_rounds(
                cur@,
                variables@,
                (5 - t) as nat,
            ),
        decreases 5 - t,
    {
        cur = subst_pass_exec(cur, variables);
        t += 1;
    }
    string_of_chars(&cur)
}

} // verus!
