use vstd::prelude::*;

use crate::text::chars_of;

verus! {

/// Strict lexicographic order on texts, character by character; the order of
/// `String`'s `<`.
pub open spec fn lex_lt(a: Seq<char>, b: Seq<char>) -> bool
    decreases a.len(),
{
    if a.len() == 0 {
        b.len() > 0
    } else if b.len() == 0 {
        false
    } else if a[0] != b[0] {
        a[0] < b[0]
    } else {
        lex_lt(a.drop_first(), b.drop_first())
    }
}

pub proof fn lemma_lex_irreflexive(a: Seq<char>)
    ensures
        !lex_lt(a, a),
    decreases a.len(),
{
    if a.len() > 0 {
        lemma_lex_irreflexive(a.drop_first());
    }
}

pub proof fn lemma_lex_transitive(a: Seq<char>, b: Seq<char>, c: Seq<char>)
    requires
        lex_lt(a, b),
        lex_lt(b, c),
    ensures
        lex_lt(a, c),
    decreases a.len(),
{
    if a.len() > 0 && b.len() > 0 && c.len() > 0 && a[0] == b[0] && b[0] == c[0] {
        lemma_lex_transitive(a.drop_first(), b.drop_first(), c.drop_first());
    }
}

pub proof fn lemma_lex_total(a: Seq<char>, b: Seq<char>)
    requires
        a != b,
    ensures
        lex_lt(a, b) || lex_lt(b, a),
    decreases a.len(),
{
    if a.len() > 0 && b.len() > 0 && a[0] == b[0] {
        if a.drop_first() == b.drop_first() {
            assert(a =~= seq![a[0]] + a.drop_first());
            assert(b =~= seq![b[0]] + b.drop_first());
        }
        lemma_lex_total(a.drop_first(), b.drop_first());
    } else if a.len() == 0 && b.len() == 0 {
        assert(a =~= b);
    }
}

fn lex_less(a: &Vec<char>, b: &Vec<char>) -> (r: bool)
    ensures
        r == lex_lt(a@, b@),
{
    let mut i: usize = 0;
    assert(a@.skip(0) =~= a@ && b@.skip(0) =~= b@);
    while i < a.len() && i < b.len() && a[i] == b[i]
        invariant
            i <= a.len(),
            i <= b.len(),
            lex_lt(a@, b@) == lex_lt(a@.skip(i as int), b@.skip(i as int)),
        decreases a.len() - i,
    {
        assert(a@.skip(i as int).drop_first() =~= a@.skip(i + 1));
        assert(b@.skip(i as int).drop_first() =~= b@.skip(i + 1));
        i = i + 1;
    }
    if i == a.len() {
        i < b.len()
    } else if i == b.len() {
        false
    } else {
        a[i] < b[i]
    }
}

/// The value that the first entry with key `k` holds.
pub open spec fn lookup(s: Seq<(String, String)>, k: Seq<char>) -> Option<Seq<char>>
    decreases s.len(),
{
    if s.len() == 0 {
        None
    } else if s[0].0@ == k {
        Some(s[0].1@)
    } else {
        lookup(s.drop_first(), k)
    }
}

/// The keys of `s` ascend strictly.
pub open spec fn ascending(s: Seq<(String, String)>) -> bool {
    forall|i: int, j: int| 0 <= i < j < s.len() ==> lex_lt(s[i].0@, s[j].0@)
}

proof fn lemma_lookup_insert(s: Seq<(String, String)>, p: int, e: (String, String), k: Seq<char>)
    requires
        0 <= p <= s.len(),
        forall|i: int| 0 <= i < p ==> s[i].0@ != e.0@,
    ensures
        lookup(s.insert(p, e), k) == if k == e.0@ {
            Some(e.1@)
        } else {
            lookup(s, k)
        },
    decreases p,
{
    if p == 0 {
        assert(s.insert(p, e).drop_first() =~= s);
    } else {
        assert(s.insert(p, e).drop_first() =~= s.drop_first().insert(p - 1, e));
        lemma_lookup_insert(s.drop_first(), p - 1, e, k);
    }
}

proof fn lemma_lookup_update(s: Seq<(String, String)>, p: int, e: (String, String), k: Seq<char>)
    requires
        0 <= p < s.len(),
        s[p].0@ == e.0@,
        forall|i: int| 0 <= i < p ==> s[i].0@ != e.0@,
    ensures
        lookup(s.update(p, e), k) == if k == e.0@ {
            Some(e.1@)
        } else {
            lookup(s, k)
        },
    decreases p,
{
    if p == 0 {
        assert(s.update(p, e).drop_first() =~= s.drop_first());
    } else {
        assert(s.update(p, e).drop_first() =~= s.drop_first().update(p - 1, e));
        lemma_lookup_update(s.drop_first(), p - 1, e, k);
    }
}

proof fn lemma_lookup_some(s: Seq<(String, String)>, i: int)
    requires
        0 <= i < s.len(),
        forall|j: int| 0 <= j < i ==> s[j].0@ != s[i].0@,
    ensures
        lookup(s, s[i].0@) == Some(s[i].1@),
    decreases i,
{
    if i > 0 {
        lemma_lookup_some(s.drop_first(), i - 1);
    }
}

proof fn lemma_lookup_none(s: Seq<(String, String)>, k: Seq<char>)
    requires
        forall|j: int| 0 <= j < s.len() ==> s[j].0@ != k,
    ensures
        lookup(s, k) is None,
    decreases s.len(),
{
    if s.len() > 0 {
        lemma_lookup_none(s.drop_first(), k);
    }
}

/// A map from names to values, kept in ascending order of names.
#[derive(Debug, PartialEq, Eq, Clone)]
pub struct VarMap {
    entries: Vec<(String, String)>,
}

impl View for VarMap {
    type V = Map<Seq<char>, Seq<char>>;

    closed spec fn view(&self) -> Map<Seq<char>, Seq<char>> {
        Map::new(
            |k: Seq<char>| lookup(self.entries@, k) is Some,
            |k: Seq<char>| lookup(self.entries@, k)->Some_0,
        )
    }
}

impl VarMap {
    pub closed spec fn wf(&self) -> bool {
        ascending(self.entries@)
    }

    /// The entries, in ascending order of names.
    pub closed spec fn items(&self) -> Seq<(String, String)> {
        self.entries@
    }

    pub fn new() -> (r: VarMap)
        ensures
            r.wf(),
            r@ == Map::<Seq<char>, Seq<char>>::empty(),
            r.items().len() == 0,
    {
        let r = VarMap { entries: Vec::new() };
        assert(r@ =~= Map::<Seq<char>, Seq<char>>::empty());
        r
    }

    /// The entries, in ascending order of names; each name once, with the
    /// value that the map gives it.
    pub fn entries(&self) -> (r: &Vec<(String, String)>)
        requires
            self.wf(),
        ensures
            r@ == self.items(),
            ascending(r@),
            forall|i: int| 0 <= i < r.len() ==> #[trigger] self@.contains_key(r@[i].0@)
                && self@[r@[i].0@] == r@[i].1@,
            forall|k: Seq<char>| #[trigger] self@.contains_key(k) ==> exists|i: int|
                0 <= i < r.len() && r@[i].0@ == k,
    {
        proof {
            assert forall|i: int| 0 <= i < self.entries.len() implies #[trigger] self@.contains_key(
                self.entries@[i].0@,
            ) && self@[self.entries@[i].0@] == self.entries@[i].1@ by {
                assert forall|j: int| 0 <= j < i implies self.entries@[j].0@
                    != self.entries@[i].0@ by {
                    lemma_lex_irreflexive(self.entries@[i].0@);
                }
                lemma_lookup_some(self.entries@, i);
            }
            assert forall|k: Seq<char>| #[trigger] self@.contains_key(k) implies exists|i: int|
                0 <= i < self.entries.len() && self.entries@[i].0@ == k by {
                if forall|j: int| 0 <= j < self.entries.len() ==> self.entries@[j].0@ != k {
                    lemma_lookup_none(self.entries@, k);
                }
            }
        }
        &self.entries
    }

    pub fn get(&self, k: &String) -> (r: Option<&String>)
        ensures
            match r {
                Some(v) => self@.contains_key(k@) && self@[k@] == v@,
                None => !self@.contains_key(k@),
            },
    {
        let mut i: usize = 0;
        assert(self.entries@.skip(0) =~= self.entries@);
        while i < self.entries.len()
            invariant
                i <= self.entries.len(),
                lookup(self.entries@, k@) == lookup(self.entries@.skip(i as int), k@),
            decreases self.entries.len() - i,
        {
            if self.entries[i].0 == *k {
                return Some(&self.entries[i].1);
            }
            assert(self.entries@.skip(i as int).drop_first() =~= self.entries@.skip(i + 1));
            i = i + 1;
        }
        None
    }

    pub fn insert(&mut self, k: String, v: String)
        requires
            old(self).wf(),
        ensures
            final(self).wf(),
            final(self)@ == old(self)@.insert(k@, v@),
    {
        let kc = chars_of(k.as_str());
        let mut p: usize = 0;
        while p < self.entries.len()
            invariant
                p <= self.entries.len(),
                ascending(self.entries@),
                kc@ == k@,
                forall|i: int| 0 <= i < p ==> lex_lt(#[trigger] self.entries@[i].0@, k@),
            ensures
                p <= self.entries.len(),
                forall|i: int| 0 <= i < p ==> lex_lt(#[trigger] self.entries@[i].0@, k@),
                p < self.entries.len() ==> !lex_lt(self.entries@[p as int].0@, k@),
            decreases self.entries.len() - p,
        {
            let kp = chars_of(self.entries[p].0.as_str());
            if !lex_less(&kp, &kc) {
                break;
            }
            p = p + 1;
        }
        let ghost s = self.entries@;
        let ghost e = (k, v);
        proof {
            assert forall|i: int| 0 <= i < p implies s[i].0@ != k@ by {
                lemma_lex_irreflexive(k@);
            }
        }
        if p < self.entries.len() && self.entries[p].0 == k {
            self.entries.set(p, (k, v));
            proof {
                lemma_lookup_update_all(s, p as int, e);
                assert(self@ =~= old(self)@.insert(e.0@, e.1@));
                assert forall|i: int, j: int| 0 <= i < j < self.entries@.len() implies lex_lt(
                    self.entries@[i].0@,
                    self.entries@[j].0@,
                ) by {
                    assert(s[i].0@ == self.entries@[i].0@);
                    assert(s[j].0@ == self.entries@[j].0@);
                }
            }
        } else {
            proof {
                if p < s.len() {
                    lemma_lex_total(s[p as int].0@, k@);
                }
            }
            self.entries.insert(p, (k, v));
            proof {
                lemma_lookup_insert_all(s, p as int, e);
                assert(self@ =~= old(self)@.insert(e.0@, e.1@));
                let t = self.entries@;
                assert forall|j: int| p < j < t.len() implies lex_lt(k@, #[trigger] t[j].0@) by {
                    assert(t[j] == s[j - 1]);
                    if j > p + 1 {
                        lemma_lex_transitive(k@, s[p as int].0@, s[j - 1].0@);
                    }
                }
                assert forall|i: int, j: int| 0 <= i < j < t.len() implies lex_lt(
                    t[i].0@,
                    t[j].0@,
                ) by {
                    if i < p && j > p {
                        lemma_lex_transitive(t[i].0@, k@, t[j].0@);
                    } else if i > p {
                        assert(t[i] == s[i - 1] && t[j] == s[j - 1]);
                    } else if j < p {
                        assert(t[i] == s[i] && t[j] == s[j]);
                    } else if j == p {
                        assert(t[i] == s[i]);
                    }
                }
            }
        }
    }
}

proof fn lemma_lookup_insert_all(s: Seq<(String, String)>, p: int, e: (String, String))
    requires
        0 <= p <= s.len(),
        forall|i: int| 0 <= i < p ==> s[i].0@ != e.0@,
    ensures
        forall|k: Seq<char>| #[trigger] lookup(s.insert(p, e), k) == if k == e.0@ {
            Some(e.1@)
        } else {
            lookup(s, k)
        },
{
    assert forall|k: Seq<char>| #[trigger] lookup(s.insert(p, e), k) == if k == e.0@ {
        Some(e.1@)
    } else {
        lookup(s, k)
    } by {
        lemma_lookup_insert(s, p, e, k);
    }
}

proof fn lemma_lookup_update_all(s: Seq<(String, String)>, p: int, e: (String, String))
    requires
        0 <= p < s.len(),
        s[p].0@ == e.0@,
        forall|i: int| 0 <= i < p ==> s[i].0@ != e.0@,
    ensures
        forall|k: Seq<char>| #[trigger] lookup(s.update(p, e), k) == if k == e.0@ {
            Some(e.1@)
        } else {
            lookup(s, k)
        },
{
    assert forall|k: Seq<char>| #[trigger] lookup(s.update(p, e), k) == if k == e.0@ {
        Some(e.1@)
    } else {
        lookup(s, k)
    } by {
        lemma_lookup_update(s, p, e, k);
    }
}

} // verus!
