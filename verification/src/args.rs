//! The arguments of one `--lua-desync` call: a map from key to value whose entries are kept in
//! key order, because that is the order they are rendered in.

use crate::text::{
    lemma_lex_asymmetric, lemma_lex_irreflexive, lemma_lex_total, lemma_lex_transitive, lex_lt, str_eq,
    str_lt,
};
use vstd::prelude::*;

verus! {

pub open spec fn pair_views(v: Seq<(String, String)>) -> Seq<(Seq<char>, Seq<char>)> {
    v.map_values(|e: (String, String)| (e.0@, e.1@))
}

/// Keys strictly increasing: sorted, and no key twice.
pub open spec fn sorted_keys(s: Seq<(Seq<char>, Seq<char>)>) -> bool {
    forall|i: int, j: int| 0 <= i < j < s.len() ==> lex_lt(#[trigger] s[i].0, #[trigger] s[j].0)
}

/// The entries after setting `key` to `value`: the key's entry replaced if present, otherwise a
/// new entry in key order.
pub open spec fn args_insert(
    s: Seq<(Seq<char>, Seq<char>)>,
    key: Seq<char>,
    value: Seq<char>,
) -> Seq<(Seq<char>, Seq<char>)>
    decreases s.len(),
{
    if s.len() == 0 {
        seq![(key, value)]
    } else if s[0].0 == key {
        seq![(key, value)] + s.skip(1)
    } else if lex_lt(key, s[0].0) {
        seq![(key, value)] + s
    } else {
        seq![s[0]] + args_insert(s.skip(1), key, value)
    }
}

/// The value stored under `key`, if any.
pub open spec fn args_lookup(s: Seq<(Seq<char>, Seq<char>)>, key: Seq<char>) -> Option<
    Seq<char>,
>
    decreases s.len(),
{
    if s.len() == 0 {
        None
    } else if s[0].0 == key {
        Some(s[0].1)
    } else {
        args_lookup(s.skip(1), key)
    }
}

pub open spec fn args_keys(s: Seq<(Seq<char>, Seq<char>)>) -> Seq<Seq<char>> {
    s.map_values(|e: (Seq<char>, Seq<char>)| e.0)
}

/// Argument map. Ordered by key, as a `BTreeMap<String, String>` iterates.
#[derive(Debug, PartialEq, Eq)]
pub struct Args {
    entries: Vec<(String, String)>,
}

impl View for Args {
    type V = Seq<(Seq<char>, Seq<char>)>;

    closed spec fn view(&self) -> Seq<(Seq<char>, Seq<char>)> {
        pair_views(self.entries@)
    }
}

pub proof fn lemma_insert_position(
    s: Seq<(Seq<char>, Seq<char>)>,
    key: Seq<char>,
    value: Seq<char>,
    i: int,
)
    requires
        sorted_keys(s),
        0 <= i <= s.len(),
        forall|j: int| 0 <= j < i ==> lex_lt(#[trigger] s[j].0, key),
        i == s.len() || !lex_lt(s[i].0, key),
    ensures
        i < s.len() && s[i].0 == key ==> args_insert(s, key, value) == s.update(i, (key, value)),
        !(i < s.len() && s[i].0 == key) ==> args_insert(s, key, value) == s.insert(i, (key, value)),
    decreases s.len(),
{
    if s.len() == 0 {
        assert(s.insert(0, (key, value)) =~= seq![(key, value)]);
    } else if i == 0 {
        if s[0].0 == key {
            assert(s.update(0, (key, value)) =~= seq![(key, value)] + s.skip(1));
        } else {
            lemma_lex_total(s[0].0, key);
            assert(s.insert(0, (key, value)) =~= seq![(key, value)] + s);
        }
    } else {
        let t = s.skip(1);
        assert(lex_lt(s[0].0, key));
        lemma_lex_asymmetric(s[0].0, key);
        lemma_lex_irreflexive(key);
        assert(s[0].0 != key);
        assert forall|a: int, b: int| 0 <= a < b < t.len() implies lex_lt(
            #[trigger] t[a].0,
            #[trigger] t[b].0,
        ) by {
            assert(t[a] == s[a + 1] && t[b] == s[b + 1]);
        }
        assert forall|j: int| 0 <= j < i - 1 implies lex_lt(#[trigger] t[j].0, key) by {
            assert(t[j] == s[j + 1]);
        }
        lemma_insert_position(t, key, value, i - 1);
        if i < s.len() && s[i].0 == key {
            assert(s.update(i, (key, value)) =~= seq![s[0]] + t.update(i - 1, (key, value)));
        } else {
            assert(s.insert(i, (key, value)) =~= seq![s[0]] + t.insert(i - 1, (key, value)));
        }
    }
}

/// Setting a key keeps the entries in key order.
pub proof fn lemma_insert_sorted(s: Seq<(Seq<char>, Seq<char>)>, key: Seq<char>, value: Seq<char>)
    requires
        sorted_keys(s),
    ensures
        sorted_keys(args_insert(s, key, value)),
    decreases s.len(),
{
    if s.len() > 0 {
        let t = s.skip(1);
        assert forall|a: int, b: int| 0 <= a < b < t.len() implies lex_lt(
            #[trigger] t[a].0,
            #[trigger] t[b].0,
        ) by {
            assert(t[a] == s[a + 1] && t[b] == s[b + 1]);
        }
        let r = args_insert(s, key, value);
        if s[0].0 == key {
            assert forall|a: int, b: int| 0 <= a < b < r.len() implies lex_lt(
                #[trigger] r[a].0,
                #[trigger] r[b].0,
            ) by {
                if a == 0 {
                    assert(r[b] == s[b]);
                } else {
                    assert(r[a] == s[a] && r[b] == s[b]);
                }
            }
        } else if lex_lt(key, s[0].0) {
            assert forall|a: int, b: int| 0 <= a < b < r.len() implies lex_lt(
                #[trigger] r[a].0,
                #[trigger] r[b].0,
            ) by {
                if a == 0 {
                    assert(r[b] == s[b - 1]);
                    if b > 1 {
                        lemma_lex_transitive(key, s[0].0, s[b - 1].0);
                    }
                } else {
                    assert(r[a] == s[a - 1] && r[b] == s[b - 1]);
                }
            }
        } else {
            lemma_insert_sorted(t, key, value);
            lemma_lex_total(key, s[0].0);
            let rt = args_insert(t, key, value);
            lemma_insert_members(t, key, value);
            assert forall|a: int, b: int| 0 <= a < b < r.len() implies lex_lt(
                #[trigger] r[a].0,
                #[trigger] r[b].0,
            ) by {
                if a == 0 {
                    assert(r[b] == rt[b - 1]);
                    let k = rt[b - 1].0;
                    if k != key {
                        let m = choose|m: int| 0 <= m < t.len() && t[m].0 == k;
                        assert(s[m + 1] == t[m]);
                    }
                } else {
                    assert(r[a] == rt[a - 1] && r[b] == rt[b - 1]);
                }
            }
        }
    }
}

/// Every key after setting `key` is `key` or a key from before.
pub proof fn lemma_insert_members(s: Seq<(Seq<char>, Seq<char>)>, key: Seq<char>, value: Seq<char>)
    ensures
        forall|j: int|
            0 <= j < args_insert(s, key, value).len() ==> (#[trigger] args_insert(s, key, value)[j]).0
                == key || exists|m: int| 0 <= m < s.len() && s[m].0 == args_insert(s, key, value)[j].0,
    decreases s.len(),
{
    if s.len() > 0 {
        let t = s.skip(1);
        lemma_insert_members(t, key, value);
        let r = args_insert(s, key, value);
        assert forall|j: int| 0 <= j < r.len() implies (#[trigger] r[j]).0 == key || exists|m: int|
            0 <= m < s.len() && s[m].0 == r[j].0 by {
            if s[0].0 == key {
                if j > 0 {
                    assert(r[j] == s[j]);
                }
            } else if lex_lt(key, s[0].0) {
                if j > 0 {
                    assert(r[j] == s[j - 1]);
                }
            } else {
                if j == 0 {
                    assert(r[0] == s[0]);
                } else {
                    let rt = args_insert(t, key, value);
                    assert(r[j] == rt[j - 1]);
                    if rt[j - 1].0 != key {
                        let m = choose|m: int| 0 <= m < t.len() && t[m].0 == rt[j - 1].0;
                        assert(s[m + 1] == t[m]);
                    }
                }
            }
        }
    }
}

/// Setting `key` to `value` is seen by a lookup of `key` and by no other lookup.
pub proof fn lemma_insert_lookup(
    s: Seq<(Seq<char>, Seq<char>)>,
    key: Seq<char>,
    value: Seq<char>,
    other: Seq<char>,
)
    ensures
        args_lookup(args_insert(s, key, value), key) == Some(value),
        other != key ==> args_lookup(args_insert(s, key, value), other) == args_lookup(s, other),
    decreases s.len(),
{
    let r = args_insert(s, key, value);
    if s.len() > 0 {
        let t = s.skip(1);
        lemma_insert_lookup(t, key, value, other);
        if s[0].0 == key {
            assert(r[0] == (key, value));
            assert(r.skip(1) =~= t);
        } else if lex_lt(key, s[0].0) {
            assert(r[0] == (key, value));
            assert(r.skip(1) =~= s);
        } else {
            assert(r[0] == s[0]);
            assert(r.skip(1) =~= args_insert(t, key, value));
        }
    } else {
        assert(r[0] == (key, value));
        assert(r.skip(1) =~= Seq::<(Seq<char>, Seq<char>)>::empty());
        assert(args_lookup(r.skip(1), other) is None);
    }
}

pub proof fn lemma_lookup_index(s: Seq<(Seq<char>, Seq<char>)>, key: Seq<char>, i: int)
    requires
        0 <= i < s.len(),
        s[i].0 == key,
        forall|j: int| 0 <= j < i ==> (#[trigger] s[j]).0 != key,
    ensures
        args_lookup(s, key) == Some(s[i].1),
    decreases i,
{
    if i > 0 {
        let t = s.skip(1);
        assert forall|j: int| 0 <= j < i - 1 implies (#[trigger] t[j]).0 != key by {
            assert(t[j] == s[j + 1]);
        }
        lemma_lookup_index(t, key, i - 1);
    }
}

pub proof fn lemma_lookup_absent(s: Seq<(Seq<char>, Seq<char>)>, key: Seq<char>)
    requires
        forall|j: int| 0 <= j < s.len() ==> (#[trigger] s[j]).0 != key,
    ensures
        args_lookup(s, key) is None,
    decreases s.len(),
{
    if s.len() > 0 {
        let t = s.skip(1);
        assert forall|j: int| 0 <= j < t.len() implies (#[trigger] t[j]).0 != key by {
            assert(t[j] == s[j + 1]);
        }
        lemma_lookup_absent(t, key);
    }
}

impl Clone for Args {
    fn clone(&self) -> (r: Self)
        ensures
            r@ == self@,
    {
        proof {
            use_type_invariant(self);
        }
        let mut entries: Vec<(String, String)> = Vec::new();
        let n = self.entries.len();
        let mut i: usize = 0;
        while i < n
            invariant
                n == self.entries@.len(),
                i <= n,
                pair_views(entries@) == pair_views(self.entries@).take(i as int),
            decreases n - i,
        {
            let e = &self.entries[i];
            let k = e.0.clone();
            let v = e.1.clone();
            assert(k@ == self.entries@[i as int].0@ && v@ == self.entries@[i as int].1@);
            let ghost before = entries@;
            entries.push((k, v));
            assert(entries@ == before.push((k, v)));
            assert(pair_views(entries@) =~= pair_views(before).push((k@, v@)));
            assert(pair_views(entries@) =~= pair_views(self.entries@).take(i + 1));
            i = i + 1;
        }
        assert(pair_views(self.entries@).take(n as int) =~= pair_views(self.entries@));
        Args { entries }
    }
}

impl Args {
    #[verifier::type_invariant]
    spec fn keys_in_order(self) -> bool {
        sorted_keys(pair_views(self.entries@))
    }

    pub fn new() -> (r: Args)
        ensures
            r@ == Seq::<(Seq<char>, Seq<char>)>::empty(),
    {
        let r = Args { entries: Vec::new() };
        assert(r@ =~= Seq::<(Seq<char>, Seq<char>)>::empty());
        r
    }

    /// Brings the key order into the caller's proof context; does nothing at run time.
    pub fn assert_key_order(&self)
        ensures
            sorted_keys(self@),
    {
        proof {
            use_type_invariant(self);
        }
    }

    pub fn len(&self) -> (r: usize)
        ensures
            r == self@.len(),
    {
        self.entries.len()
    }

    pub fn is_empty(&self) -> (r: bool)
        ensures
            r == (self@.len() == 0),
    {
        self.entries.len() == 0
    }

    /// The entry at `i`, in key order.
    pub fn entry(&self, i: usize) -> (r: (&String, &String))
        requires
            i < self@.len(),
        ensures
            r.0@ == self@[i as int].0,
            r.1@ == self@[i as int].1,
    {
        let e = &self.entries[i];
        (&e.0, &e.1)
    }

    /// Sets `key` to `value`, replacing any earlier value.
    pub fn insert(&mut self, key: String, value: String)
        ensures
            final(self)@ == args_insert(old(self)@, key@, value@),
    {
        proof {
            use_type_invariant(&*self);
        }
        let ghost s = self@;
        let n = self.entries.len();
        let mut i: usize = 0;
        while i < n && str_lt(self.entries[i].0.as_str(), key.as_str())
            invariant
                n == self.entries@.len(),
                s == pair_views(self.entries@),
                i <= n,
                forall|j: int| 0 <= j < i ==> lex_lt(#[trigger] s[j].0, key@),
            decreases n - i,
        {
            i = i + 1;
        }
        proof {
            lemma_insert_position(s, key@, value@, i as int);
            lemma_insert_sorted(s, key@, value@);
        }
        if i < n && str_eq(self.entries[i].0.as_str(), key.as_str()) {
            let mut entries = Vec::new();
            std::mem::swap(&mut entries, &mut self.entries);
            entries.set(i, (key, value));
            assert(pair_views(entries@) =~= s.update(i as int, (key@, value@)));
            self.entries = entries;
        } else {
            let mut entries = Vec::new();
            std::mem::swap(&mut entries, &mut self.entries);
            entries.insert(i, (key, value));
            assert(pair_views(entries@) =~= s.insert(i as int, (key@, value@)));
            self.entries = entries;
        }
    }

    /// The value stored under `key`.
    pub fn get(&self, key: &str) -> (r: Option<&String>)
        ensures
            match r {
                Some(v) => args_lookup(self@, key@) == Some(v@),
                None => args_lookup(self@, key@) is None,
            },
    {
        let n = self.entries.len();
        let mut i: usize = 0;
        while i < n
            invariant
                n == self@.len(),
                i <= n,
                forall|j: int| 0 <= j < i ==> (#[trigger] self@[j]).0 != key@,
            decreases n - i,
        {
            if str_eq(self.entries[i].0.as_str(), key) {
                proof {
                    lemma_lookup_index(self@, key@, i as int);
                }
                return Some(&self.entries[i].1);
            }
            i = i + 1;
        }
        proof {
            lemma_lookup_absent(self@, key@);
        }
        None
    }
}

} // verus!
