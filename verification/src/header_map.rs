//! An ordered map from header names to values.
//!
//! Keys are kept sorted by code point, as `String`'s ordering sorts them, and
//! each key occurs once; iteration goes in key order.

use vstd::prelude::*;

use crate::http::headers_view;
use crate::text::{chars_eq, chars_of};

verus! {

/// Lexicographic order on character sequences, comparing code points.
pub open spec fn key_less(a: Seq<char>, b: Seq<char>) -> bool
    decreases a.len(),
{
    if a.len() == 0 {
        b.len() > 0
    } else if b.len() == 0 {
        false
    } else if (a[0] as u32) < (b[0] as u32) {
        true
    } else if a[0] == b[0] {
        key_less(a.drop_first(), b.drop_first())
    } else {
        false
    }
}

/// No key is less than itself.
pub proof fn lemma_key_less_irreflexive(a: Seq<char>)
    ensures
        !key_less(a, a),
    decreases a.len(),
{
    if a.len() > 0 {
        lemma_key_less_irreflexive(a.drop_first());
    }
}

/// The key order is transitive.
pub proof fn lemma_key_less_transitive(a: Seq<char>, b: Seq<char>, c: Seq<char>)
    requires
        key_less(a, b),
        key_less(b, c),
    ensures
        key_less(a, c),
    decreases a.len(),
{
    if a.len() > 0 && b.len() > 0 && c.len() > 0 && a[0] == b[0] && b[0] == c[0] {
        lemma_key_less_transitive(a.drop_first(), b.drop_first(), c.drop_first());
    }
}

/// Of two different keys, one is less than the other.
pub proof fn lemma_key_less_total(a: Seq<char>, b: Seq<char>)
    ensures
        a == b || key_less(a, b) || key_less(b, a),
    decreases a.len(),
{
    if a.len() == 0 && b.len() == 0 {
        assert(a =~= b);
    } else if a.len() > 0 && b.len() > 0 && a[0] == b[0] {
        lemma_key_less_total(a.drop_first(), b.drop_first());
        if a.drop_first() == b.drop_first() {
            assert(a =~= seq![a[0]] + a.drop_first());
            assert(b =~= seq![b[0]] + b.drop_first());
        }
    } else if a.len() > 0 && b.len() > 0 {
        if (a[0] as u32) == (b[0] as u32) {
            vstd::utf8::char_u32_cast(a[0], a[0] as u32);
            vstd::utf8::char_u32_cast(b[0], b[0] as u32);
        }
    }
}

/// Keys strictly increasing: sorted, each key once.
pub open spec fn sorted_keys(es: Seq<(Seq<char>, Seq<char>)>) -> bool {
    forall|i: int, j: int| 0 <= i < j < es.len() ==> key_less(#[trigger] es[i].0, #[trigger] es[j].0)
}

/// The map that inserting the pairs in order builds (a later key replaces an
/// earlier equal one).
pub open spec fn pairs_to_map(es: Seq<(Seq<char>, Seq<char>)>) -> Map<Seq<char>, Seq<char>>
    decreases es.len(),
{
    if es.len() == 0 {
        Map::empty()
    } else {
        pairs_to_map(es.drop_last()).insert(es.last().0, es.last().1)
    }
}

/// With distinct keys, the map holds exactly the pairs.
pub proof fn lemma_pairs_to_map_distinct(es: Seq<(Seq<char>, Seq<char>)>)
    requires
        forall|i: int, j: int| 0 <= i < j < es.len() ==> #[trigger] es[i].0 != #[trigger] es[j].0,
    ensures
        forall|i: int|
            0 <= i < es.len() ==> pairs_to_map(es).contains_key(#[trigger] es[i].0)
                && pairs_to_map(es)[es[i].0] == es[i].1,
        forall|k: Seq<char>|
            pairs_to_map(es).contains_key(k) ==> exists|i: int| 0 <= i < es.len() && #[trigger] es[i].0 == k,
    decreases es.len(),
{
    if es.len() > 0 {
        let init = es.drop_last();
        lemma_pairs_to_map_distinct(init);
        assert forall|i: int| 0 <= i < es.len() implies pairs_to_map(es).contains_key(#[trigger] es[i].0)
            && pairs_to_map(es)[es[i].0] == es[i].1 by {
            if i < es.len() - 1 {
                assert(init[i] == es[i]);
                assert(es[i].0 != es[es.len() - 1].0);
            }
        }
        assert forall|k: Seq<char>| pairs_to_map(es).contains_key(k) implies exists|i: int|
            0 <= i < es.len() && #[trigger] es[i].0 == k by {
            if k != es.last().0 {
                assert(pairs_to_map(init).contains_key(k));
                let i = choose|i: int| 0 <= i < init.len() && #[trigger] init[i].0 == k;
                assert(es[i] == init[i]);
            } else {
                assert(es[es.len() - 1].0 == k);
            }
        }
    }
}

/// Sorted keys are distinct.
pub proof fn lemma_sorted_distinct(es: Seq<(Seq<char>, Seq<char>)>)
    requires
        sorted_keys(es),
    ensures
        forall|i: int, j: int| 0 <= i < j < es.len() ==> #[trigger] es[i].0 != #[trigger] es[j].0,
{
    assert forall|i: int, j: int| 0 <= i < j < es.len() implies #[trigger] es[i].0 != #[trigger] es[j].0 by {
        lemma_key_less_irreflexive(es[i].0);
    }
}

/// `key_less` on character slices.
fn chars_less(a: &[char], b: &[char]) -> (r: bool)
    ensures
        r == key_less(a@, b@),
{
    let mut i: usize = 0;
    assert(a@.skip(0) =~= a@);
    assert(b@.skip(0) =~= b@);
    while i < a.len() && i < b.len()
        invariant
            i <= a@.len(),
            i <= b@.len(),
            key_less(a@, b@) == key_less(a@.skip(i as int), b@.skip(i as int)),
        decreases a@.len() - i,
    {
        let ghost sa = a@.skip(i as int);
        let ghost sb = b@.skip(i as int);
        assert(sa[0] == a@[i as int]);
        assert(sb[0] == b@[i as int]);
        if (a[i] as u32) < (b[i] as u32) {
            return true;
        }
        if a[i] != b[i] {
            return false;
        }
        assert(sa.drop_first() =~= a@.skip(i + 1));
        assert(sb.drop_first() =~= b@.skip(i + 1));
        i = i + 1;
    }
    i == a.len() && i < b.len()
}

/// An ordered map from header names to header values, each name once.
pub struct HeaderMap {
    entries: Vec<(String, String)>,
}

impl View for HeaderMap {
    type V = Map<Seq<char>, Seq<char>>;

    closed spec fn view(&self) -> Map<Seq<char>, Seq<char>> {
        pairs_to_map(headers_view(self.entries@))
    }
}

impl HeaderMap {
    #[verifier::type_invariant]
    spec fn well_formed(&self) -> bool {
        sorted_keys(headers_view(self.entries@))
    }

    /// The entries in key order.
    pub closed spec fn entries_view(&self) -> Seq<(Seq<char>, Seq<char>)> {
        headers_view(self.entries@)
    }

    /// An empty map.
    pub fn new() -> (r: Self)
        ensures
            r@ == Map::<Seq<char>, Seq<char>>::empty(),
            r.entries_view() == Seq::<(Seq<char>, Seq<char>)>::empty(),
    {
        let r = HeaderMap { entries: Vec::new() };
        assert(headers_view(r.entries@) =~= Seq::<(Seq<char>, Seq<char>)>::empty());
        r
    }

    /// The number of entries.
    pub fn len(&self) -> (r: usize)
        ensures
            r == self.entries_view().len(),
    {
        self.entries.len()
    }

    /// The entries, in key order: keys strictly increasing, and together they
    /// make up the map.
    pub fn entries(&self) -> (r: &[(String, String)])
        ensures
            headers_view(r@) == self.entries_view(),
            sorted_keys(self.entries_view()),
            pairs_to_map(self.entries_view()) == self@,
    {
        proof {
            use_type_invariant(self);
        }
        self.entries.as_slice()
    }

    /// The value stored under `key`.
    pub fn get(&self, key: &str) -> (r: Option<&String>)
        ensures
            self@.contains_key(key@) ==> (r matches Some(v) && v@ == self@[key@]),
            !self@.contains_key(key@) ==> r is None,
    {
        proof {
            use_type_invariant(self);
            lemma_sorted_distinct(headers_view(self.entries@));
            lemma_pairs_to_map_distinct(headers_view(self.entries@));
        }
        let ghost es = headers_view(self.entries@);
        let k = chars_of(key);
        let mut i: usize = 0;
        while i < self.entries.len()
            invariant
                i <= self.entries@.len(),
                es == headers_view(self.entries@),
                k@ == key@,
                forall|j: int| 0 <= j < i ==> es[j].0 != key@,
            decreases self.entries@.len() - i,
        {
            let name = chars_of(self.entries[i].0.as_str());
            if chars_eq(name.as_slice(), k.as_slice()) {
                proof {
                    use_type_invariant(self);
                    lemma_sorted_distinct(es);
                    lemma_pairs_to_map_distinct(es);
                    assert(es[i as int].0 == key@);
                }
                return Some(&self.entries[i].1);
            }
            i = i + 1;
        }
        proof {
            use_type_invariant(self);
            lemma_sorted_distinct(es);
            lemma_pairs_to_map_distinct(es);
        }
        None
    }

    /// Insert `value` under `key`, returning the value it replaces.
    pub fn insert(&mut self, key: String, value: String) -> (r: Option<String>)
        ensures
            final(self)@ == old(self)@.insert(key@, value@),
            final(self).entries_view().len() == old(self).entries_view().len() + if old(
                self,
            )@.contains_key(key@) {
                0int
            } else {
                1int
            },
            old(self)@.contains_key(key@) ==> (r matches Some(v) && v@ == old(self)@[key@]),
            !old(self)@.contains_key(key@) ==> r is None,
    {
        proof {
            use_type_invariant(&*self);
        }
        let ghost es = headers_view(self.entries@);
        let ghost old_map = self@;
        proof {
            lemma_sorted_distinct(es);
            lemma_pairs_to_map_distinct(es);
        }
        let k = chars_of(key.as_str());
        let mut p: usize = 0;
        while p < self.entries.len()
            invariant
                p <= self.entries@.len(),
                es == headers_view(self.entries@),
                k@ == key@,
                forall|j: int| 0 <= j < p ==> key_less(#[trigger] es[j].0, key@),
            ensures
                p <= self.entries@.len(),
                forall|j: int| 0 <= j < p ==> key_less(#[trigger] es[j].0, key@),
                p < self.entries@.len() ==> !key_less(es[p as int].0, key@),
            decreases self.entries@.len() - p,
        {
            let name = chars_of(self.entries[p].0.as_str());
            if !chars_less(name.as_slice(), k.as_slice()) {
                break;
            }
            p = p + 1;
        }
        proof {
            use_type_invariant(&*self);
            lemma_sorted_distinct(es);
            lemma_pairs_to_map_distinct(es);
        }
        let mut entries: Vec<(String, String)> = Vec::new();
        std::mem::swap(&mut entries, &mut self.entries);
        assert(headers_view(entries@) == es);
        let found = p < entries.len() && {
            let name = chars_of(entries[p].0.as_str());
            chars_eq(name.as_slice(), k.as_slice())
        };
        if found {
            let mut slot = (key, value);
            entries.set_and_swap(p, &mut slot);
            let ghost new_es = headers_view(entries@);
            proof {
                assert(new_es =~= es.update(p as int, (key@, value@)));
                assert forall|i: int, j: int| 0 <= i < j < new_es.len() implies key_less(#[trigger] new_es[i].0, #[trigger] new_es[j].0) by {
                    assert(new_es[i].0 == es[i].0);
                    assert(new_es[j].0 == es[j].0);
                }
                lemma_sorted_distinct(new_es);
                lemma_pairs_to_map_distinct(new_es);
                assert(pairs_to_map(new_es) =~= old_map.insert(key@, value@)) by {
                    assert forall|x: Seq<char>| #[trigger] pairs_to_map(new_es).contains_key(x) implies old_map.insert(key@, value@).contains_key(x) by {
                        let i = choose|i: int| 0 <= i < new_es.len() && #[trigger] new_es[i].0 == x;
                        if i != p {
                            assert(es[i] == new_es[i]);
                        }
                    }
                    assert forall|x: Seq<char>| #[trigger] old_map.insert(key@, value@).contains_key(x) implies pairs_to_map(new_es).contains_key(x) && pairs_to_map(new_es)[x] == old_map.insert(key@, value@)[x] by {
                        if x == key@ {
                            assert(new_es[p as int].0 == x);
                        } else {
                            let i = choose|i: int| 0 <= i < es.len() && #[trigger] es[i].0 == x;
                            assert(i != p);
                            assert(new_es[i] == es[i]);
                        }
                    }
                }
            }
            self.entries = entries;
            let (_, old_value) = slot;
            Some(old_value)
        } else {
            proof {
                if p < es.len() {
                    lemma_key_less_total(es[p as int].0, key@);
                }
            }
            entries.insert(p, (key, value));
            let ghost new_es = headers_view(entries@);
            proof {
                assert(new_es =~= es.insert(p as int, (key@, value@)));
                assert forall|i: int, j: int| 0 <= i < j < new_es.len() implies key_less(#[trigger] new_es[i].0, #[trigger] new_es[j].0) by {
                    if j < p {
                        assert(new_es[i] == es[i] && new_es[j] == es[j]);
                    } else if j == p {
                        assert(new_es[i] == es[i]);
                    } else if i == p {
                        assert(new_es[j] == es[j - 1]);
                        if j - 1 > p {
                            lemma_key_less_transitive(key@, es[p as int].0, es[j - 1].0);
                        }
                    } else if i < p {
                        assert(new_es[i] == es[i] && new_es[j] == es[j - 1]);
                        if j - 1 >= p {
                            assert(key_less(es[i].0, key@));
                            lemma_key_less_transitive(es[i].0, key@, es[p as int].0);
                            if j - 1 > p {
                                lemma_key_less_transitive(es[i].0, es[p as int].0, es[j - 1].0);
                            }
                        }
                    } else {
                        assert(new_es[i] == es[i - 1] && new_es[j] == es[j - 1]);
                    }
                }
                assert(!old_map.contains_key(key@)) by {
                    if old_map.contains_key(key@) {
                        let i = choose|i: int| 0 <= i < es.len() && #[trigger] es[i].0 == key@;
                        if i < p {
                            lemma_key_less_irreflexive(key@);
                        } else if i > p {
                            lemma_key_less_transitive(key@, es[p as int].0, es[i].0);
                            lemma_key_less_irreflexive(key@);
                        }
                    }
                }
                lemma_sorted_distinct(new_es);
                lemma_pairs_to_map_distinct(new_es);
                assert(pairs_to_map(new_es) =~= old_map.insert(key@, value@)) by {
                    assert forall|x: Seq<char>| #[trigger] pairs_to_map(new_es).contains_key(x) implies old_map.insert(key@, value@).contains_key(x) by {
                        let i = choose|i: int| 0 <= i < new_es.len() && #[trigger] new_es[i].0 == x;
                        if i < p {
                            assert(es[i] == new_es[i]);
                        } else if i > p {
                            assert(es[i - 1] == new_es[i]);
                        }
                    }
                    assert forall|x: Seq<char>| #[trigger] old_map.insert(key@, value@).contains_key(x) implies pairs_to_map(new_es).contains_key(x) && pairs_to_map(new_es)[x] == old_map.insert(key@, value@)[x] by {
                        if x == key@ {
                            assert(new_es[p as int].0 == x);
                        } else {
                            let i = choose|i: int| 0 <= i < es.len() && #[trigger] es[i].0 == x;
                            if i < p {
                                assert(new_es[i] == es[i]);
                            } else {
                                assert(new_es[i + 1] == es[i]);
                            }
                        }
                    }
                }
            }
            self.entries = entries;
            None
        }
    }
}

} // verus!
