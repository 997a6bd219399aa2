//! Entries keyed by symbol, kept in ascending symbol order (character by character),
//! with lookup, insert-or-replace and removal.
use vstd::prelude::*;
use vstd::std_specs::iter::IteratorSpec;

use crate::types::Symbol;

verus! {

broadcast use vstd::seq_lib::group_seq_properties;

/// Lexicographic order on texts, character by character; a proper prefix comes first.
pub open spec fn text_lt(a: Seq<char>, b: Seq<char>) -> bool
    decreases a.len(),
{
    if a.len() == 0 {
        b.len() > 0
    } else if b.len() == 0 {
        false
    } else if a[0] != b[0] {
        (a[0] as int) < (b[0] as int)
    } else {
        text_lt(a.drop_first(), b.drop_first())
    }
}

pub proof fn lemma_text_lt_irreflexive(a: Seq<char>)
    ensures
        !text_lt(a, a),
    decreases a.len(),
{
    if a.len() > 0 {
        lemma_text_lt_irreflexive(a.drop_first());
    }
}

pub proof fn lemma_text_lt_transitive(a: Seq<char>, b: Seq<char>, c: Seq<char>)
    requires
        text_lt(a, b),
        text_lt(b, c),
    ensures
        text_lt(a, c),
    decreases a.len(),
{
    if a.len() > 0 && b.len() > 0 && c.len() > 0 && a[0] == b[0] && b[0] == c[0] {
        lemma_text_lt_transitive(a.drop_first(), b.drop_first(), c.drop_first());
    }
}

pub proof fn lemma_text_lt_total(a: Seq<char>, b: Seq<char>)
    ensures
        a == b || text_lt(a, b) || text_lt(b, a),
    decreases a.len(),
{
    if a.len() > 0 && b.len() > 0 {
        if a[0] == b[0] {
            lemma_text_lt_total(a.drop_first(), b.drop_first());
            if a.drop_first() == b.drop_first() {
                assert(a =~= seq![a[0]] + a.drop_first());
                assert(b =~= seq![b[0]] + b.drop_first());
            }
        } else {
            assert((a[0] as int) != (b[0] as int));
        }
    } else if a.len() == 0 && b.len() == 0 {
        assert(a =~= b);
    }
}

/// The characters of a symbol.
pub fn chars_of(s: &Symbol) -> (r: Vec<char>)
    ensures
        r@ == s@,
{
    let ghost full = s@;
    let mut out: Vec<char> = Vec::new();
    let ghost mut n: int = 0;
    for c in it: s.0.as_str().chars()
        invariant
            it.seq() == full,
            n == it.index(),
            out@ == full.take(n),
    {
        out.push(c);
        proof {
            assert(out@ =~= full.take(n + 1));
            n = n + 1;
        }
    }
    proof {
        assert(n == full.len());
        assert(full.take(n) =~= full);
    }
    out
}

fn chars_lt(a: &Vec<char>, b: &Vec<char>) -> (r: bool)
    ensures
        r == text_lt(a@, b@),
{
    let mut i: usize = 0;
    while i < a.len() && i < b.len()
        invariant
            0 <= i <= a@.len(),
            i <= b@.len(),
            text_lt(a@, b@) == text_lt(a@.skip(i as int), b@.skip(i as int)),
        decreases a@.len() - i,
    {
        let x = a[i];
        let y = b[i];
        proof {
            assert(a@.skip(i as int)[0] == x);
            assert(b@.skip(i as int)[0] == y);
            assert(a@.skip(i as int).drop_first() =~= a@.skip(i as int + 1));
            assert(b@.skip(i as int).drop_first() =~= b@.skip(i as int + 1));
        }
        if x != y {
            return x < y;
        }
        i = i + 1;
    }
    i < b.len()
}

/// `a` comes strictly before `b` in symbol order.
pub fn symbol_lt(a: &Symbol, b: &Symbol) -> (r: bool)
    ensures
        r == text_lt(a@, b@),
{
    let x = chars_of(a);
    let y = chars_of(b);
    chars_lt(&x, &y)
}

/// A value stored under a symbol.
#[derive(Debug, Clone, PartialEq, Eq)]
pub struct Keyed<V> {
    pub symbol: Symbol,
    pub value: V,
}

/// Keys strictly ascending; in particular each symbol occurs at most once.
pub open spec fn sorted_entries<V>(s: Seq<Keyed<V>>) -> bool {
    forall|i: int, j: int| 0 <= i < j < s.len() ==> text_lt(#[trigger] s[i].symbol@, #[trigger] s[j].symbol@)
}

/// A position holding `k`, if one does.
pub open spec fn key_index<V>(s: Seq<Keyed<V>>, k: Seq<char>) -> int {
    choose|i: int| 0 <= i < s.len() && s[i].symbol@ == k
}

/// Entries as a map from symbol text to value.
pub open spec fn keyed_map<V>(s: Seq<Keyed<V>>) -> Map<Seq<char>, V> {
    Map::new(
        |k: Seq<char>| exists|i: int| 0 <= i < s.len() && s[i].symbol@ == k,
        |k: Seq<char>| s[key_index(s, k)].value,
    )
}

/// In sorted entries, the map holds each entry's value under its key.
pub proof fn lemma_keyed_map_at<V>(s: Seq<Keyed<V>>, i: int)
    requires
        sorted_entries(s),
        0 <= i < s.len(),
    ensures
        keyed_map(s).contains_key(s[i].symbol@),
        keyed_map(s)[s[i].symbol@] == s[i].value,
{
    let k = s[i].symbol@;
    let j = key_index(s, k);
    assert(0 <= j < s.len() && s[j].symbol@ == k);
    if j != i {
        assert(s[j].symbol@ == k);
        if j < i {
            assert(text_lt(s[j].symbol@, s[i].symbol@));
        } else {
            assert(text_lt(s[i].symbol@, s[j].symbol@));
        }
        lemma_text_lt_irreflexive(k);
    }
    assert(j == i);
    assert(keyed_map(s)[k] == s[j].value);
}

/// Two sorted entry lists with the same map agree on the keys of their first `n` entries.
proof fn lemma_sorted_prefix_agree<V>(a: Seq<Keyed<V>>, b: Seq<Keyed<V>>, n: int)
    requires
        sorted_entries(a),
        sorted_entries(b),
        keyed_map(a) == keyed_map(b),
        0 <= n <= a.len(),
        n <= b.len(),
    ensures
        forall|i: int| 0 <= i < n ==> (#[trigger] a[i]).symbol@ == b[i].symbol@,
    decreases n,
{
    if n > 0 {
        lemma_sorted_prefix_agree(a, b, n - 1);
        let m = n - 1;
        let k = a[m].symbol@;
        lemma_keyed_map_at(a, m);
        assert(keyed_map(b).contains_key(k));
        let j = choose|j: int| 0 <= j < b.len() && b[j].symbol@ == k;
        if j < m {
            assert(a[j].symbol@ == b[j].symbol@);
            assert(text_lt(a[j].symbol@, a[m].symbol@));
            lemma_text_lt_irreflexive(k);
        } else if j > m {
            let k2 = b[m].symbol@;
            lemma_keyed_map_at(b, m);
            assert(keyed_map(a).contains_key(k2));
            let j2 = choose|j2: int| 0 <= j2 < a.len() && a[j2].symbol@ == k2;
            if j2 < m {
                assert(a[j2].symbol@ == b[j2].symbol@);
                assert(text_lt(b[j2].symbol@, b[m].symbol@));
                lemma_text_lt_irreflexive(k2);
            } else if j2 == m {
                assert(text_lt(b[m].symbol@, b[j].symbol@));
                lemma_text_lt_irreflexive(k);
            } else {
                assert(text_lt(a[m].symbol@, a[j2].symbol@));
                assert(text_lt(b[m].symbol@, b[j].symbol@));
                lemma_text_lt_transitive(k, k2, k);
                lemma_text_lt_irreflexive(k);
            }
        }
    }
}

/// Sorted entries are fixed by their map: two sorted entry lists with the same map have
/// the same length and, at each position, the same key text and value.
pub proof fn lemma_sorted_entries_determined<V>(a: Seq<Keyed<V>>, b: Seq<Keyed<V>>)
    requires
        sorted_entries(a),
        sorted_entries(b),
        keyed_map(a) == keyed_map(b),
    ensures
        a.len() == b.len(),
        forall|i: int| 0 <= i < a.len() ==> (#[trigger] a[i]).symbol@ == b[i].symbol@ && a[i].value == b[i].value,
{
    if a.len() < b.len() {
        let n = a.len() as int;
        lemma_sorted_prefix_agree(a, b, n);
        let k = b[n].symbol@;
        lemma_keyed_map_at(b, n);
        let j = choose|j: int| 0 <= j < a.len() && a[j].symbol@ == k;
        assert(a[j].symbol@ == b[j].symbol@);
        assert(text_lt(b[j].symbol@, b[n].symbol@));
        lemma_text_lt_irreflexive(k);
    } else if b.len() < a.len() {
        let n = b.len() as int;
        lemma_sorted_prefix_agree(b, a, n);
        let k = a[n].symbol@;
        lemma_keyed_map_at(a, n);
        let j = choose|j: int| 0 <= j < b.len() && b[j].symbol@ == k;
        assert(b[j].symbol@ == a[j].symbol@);
        assert(text_lt(a[j].symbol@, a[n].symbol@));
        lemma_text_lt_irreflexive(k);
    }
    lemma_sorted_prefix_agree(a, b, a.len() as int);
    assert forall|i: int| 0 <= i < a.len() implies (#[trigger] a[i]).symbol@ == b[i].symbol@ && a[i].value
        == b[i].value by {
        lemma_keyed_map_at(a, i);
        lemma_keyed_map_at(b, i);
    }
}

/// Where `key` is, or where it would go.
pub fn find_key<V: Copy>(entries: &Vec<Keyed<V>>, key: &Symbol) -> (r: (usize, bool))
    requires
        sorted_entries(entries@),
    ensures
        r.0 <= entries@.len(),
        forall|j: int| 0 <= j < r.0 ==> text_lt(#[trigger] entries@[j].symbol@, key@),
        r.1 ==> r.0 < entries@.len() && entries@[r.0 as int].symbol@ == key@,
        !r.1 ==> r.0 < entries@.len() ==> text_lt(key@, entries@[r.0 as int].symbol@),
        r.1 == keyed_map(entries@).contains_key(key@),
{
    let mut i: usize = 0;
    while i < entries.len()
        invariant
            0 <= i <= entries@.len(),
            sorted_entries(entries@),
            forall|j: int| 0 <= j < i ==> text_lt(#[trigger] entries@[j].symbol@, key@),
        decreases entries@.len() - i,
    {
        if !symbol_lt(&entries[i].symbol, key) {
            let found = entries[i].symbol.same_as(key);
            proof {
                lemma_text_lt_total(entries@[i as int].symbol@, key@);
                if !found {
                    assert forall|j: int| 0 <= j < entries@.len() implies entries@[j].symbol@ != key@ by {
                        if j < i {
                            lemma_text_lt_irreflexive(key@);
                        } else if j > i {
                            assert(text_lt(entries@[i as int].symbol@, entries@[j].symbol@));
                            if entries@[j].symbol@ == key@ {
                                lemma_text_lt_transitive(key@, entries@[i as int].symbol@, key@);
                                lemma_text_lt_irreflexive(key@);
                            }
                        }
                    }
                } else {
                    assert(entries@[i as int].symbol@ == key@);
                }
            }
            return (i, found);
        }
        i = i + 1;
    }
    proof {
        assert forall|j: int| 0 <= j < entries@.len() implies entries@[j].symbol@ != key@ by {
            lemma_text_lt_irreflexive(key@);
        }
    }
    (i, false)
}

/// The value stored under `key`, if any.
pub fn get_value<V: Copy>(entries: &Vec<Keyed<V>>, key: &Symbol) -> (r: Option<V>)
    requires
        sorted_entries(entries@),
    ensures
        r == (if keyed_map(entries@).contains_key(key@) {
            Some(keyed_map(entries@)[key@])
        } else {
            None
        }),
{
    let (i, found) = find_key(entries, key);
    if found {
        proof {
            lemma_keyed_map_at(entries@, i as int);
        }
        Some(entries[i].value)
    } else {
        None
    }
}

/// Store `value` under `key`, replacing any earlier value.
pub fn put_value<V: Copy>(entries: &mut Vec<Keyed<V>>, key: &Symbol, value: V)
    requires
        sorted_entries(old(entries)@),
    ensures
        sorted_entries(final(entries)@),
        keyed_map(final(entries)@) == keyed_map(old(entries)@).insert(key@, value),
{
    let ghost s0 = entries@;
    let (i, found) = find_key(entries, key);
    let e = Keyed { symbol: key.duplicate(), value };
    if found {
        entries.set(i, e);
    } else {
        entries.insert(i, e);
    }
    proof {
        lemma_put(s0, entries@, i as int, found, key@, value);
    }
}

proof fn lemma_put<V>(s0: Seq<Keyed<V>>, s1: Seq<Keyed<V>>, i: int, found: bool, key: Seq<char>, value: V)
    requires
        sorted_entries(s0),
        0 <= i <= s0.len(),
        forall|j: int| 0 <= j < i ==> text_lt(#[trigger] s0[j].symbol@, key),
        found ==> i < s0.len() && s0[i].symbol@ == key,
        !found ==> i < s0.len() ==> text_lt(key, s0[i].symbol@),
        found == keyed_map(s0).contains_key(key),
        found ==> s1 == s0.update(i, Keyed { symbol: s1[i].symbol, value }),
        !found ==> s1 == s0.insert(i, Keyed { symbol: s1[i].symbol, value }),
        s1[i].symbol@ == key,
    ensures
        sorted_entries(s1),
        keyed_map(s1) == keyed_map(s0).insert(key, value),
{
    lemma_put_sorted(s0, s1, i, found, key, value);
    let m1 = keyed_map(s1);
    let m2 = keyed_map(s0).insert(key, value);
    assert forall|k: Seq<char>| m1.contains_key(k) <==> m2.contains_key(k) by {
        if m1.contains_key(k) {
            let j = choose|j: int| 0 <= j < s1.len() && s1[j].symbol@ == k;
            if k != key {
                let j0 = if found || j < i { j } else { j - 1 };
                assert(s0[j0].symbol@ == k);
            }
        }
        if m2.contains_key(k) && k != key {
            let j = choose|j: int| 0 <= j < s0.len() && s0[j].symbol@ == k;
            let j1 = if found || j < i { j } else { j + 1 };
            assert(s1[j1].symbol@ == k);
        }
        if k == key {
            assert(s1[i].symbol@ == k);
        }
    }
    assert forall|k: Seq<char>| m1.contains_key(k) implies m1[k] == m2[k] by {
        let j = choose|j: int| 0 <= j < s1.len() && s1[j].symbol@ == k;
        lemma_keyed_map_at(s1, j);
        if k != key {
            let j0 = if found || j < i { j } else { j - 1 };
            assert(s0[j0].symbol@ == k);
            lemma_keyed_map_at(s0, j0);
        } else {
            lemma_keyed_map_at(s1, i);
        }
    }
    assert(m1 =~= m2);
}

proof fn lemma_put_sorted<V>(s0: Seq<Keyed<V>>, s1: Seq<Keyed<V>>, i: int, found: bool, key: Seq<char>, value: V)
    requires
        sorted_entries(s0),
        0 <= i <= s0.len(),
        forall|j: int| 0 <= j < i ==> text_lt(#[trigger] s0[j].symbol@, key),
        found ==> i < s0.len() && s0[i].symbol@ == key,
        !found ==> i < s0.len() ==> text_lt(key, s0[i].symbol@),
        found ==> s1 == s0.update(i, Keyed { symbol: s1[i].symbol, value }),
        !found ==> s1 == s0.insert(i, Keyed { symbol: s1[i].symbol, value }),
        s1[i].symbol@ == key,
    ensures
        sorted_entries(s1),
{
    assert forall|a: int, b: int| 0 <= a < b < s1.len() implies text_lt(
        #[trigger] s1[a].symbol@,
        #[trigger] s1[b].symbol@,
    ) by {
        if found {
            assert(text_lt(s0[a].symbol@, s0[b].symbol@));
        } else {
            if a == i {
                if b - 1 > i {
                    assert(text_lt(s0[i].symbol@, s0[b - 1].symbol@));
                    lemma_text_lt_transitive(key, s0[i].symbol@, s0[b - 1].symbol@);
                }
            } else if b == i {
                assert(text_lt(s0[a].symbol@, key));
            } else if a < i && b > i {
                assert(text_lt(s0[a].symbol@, s0[b - 1].symbol@));
            } else if a < i {
                assert(text_lt(s0[a].symbol@, s0[b].symbol@));
            } else {
                assert(text_lt(s0[a - 1].symbol@, s0[b - 1].symbol@));
            }
        }
    }
}

/// Remove any value stored under `key`.
pub fn remove_value<V: Copy>(entries: &mut Vec<Keyed<V>>, key: &Symbol)
    requires
        sorted_entries(old(entries)@),
    ensures
        sorted_entries(final(entries)@),
        keyed_map(final(entries)@) == keyed_map(old(entries)@).remove(key@),
{
    let ghost s0 = entries@;
    let (i, found) = find_key(entries, key);
    if !found {
        proof {
            assert(keyed_map(s0).remove(key@) =~= keyed_map(s0));
        }
        return;
    }
    entries.remove(i);
    let ghost s1 = entries@;
    proof {
        assert forall|a: int, b: int| 0 <= a < b < s1.len() implies text_lt(
            #[trigger] s1[a].symbol@,
            #[trigger] s1[b].symbol@,
        ) by {
            let a0 = if a < i { a } else { a + 1 };
            let b0 = if b < i { b } else { b + 1 };
            assert(text_lt(s0[a0].symbol@, s0[b0].symbol@));
        }
        let m1 = keyed_map(s1);
        let m2 = keyed_map(s0).remove(key@);
        assert forall|k: Seq<char>| m1.contains_key(k) <==> m2.contains_key(k) by {
            if m1.contains_key(k) {
                let j = choose|j: int| 0 <= j < s1.len() && s1[j].symbol@ == k;
                let j0 = if j < i { j } else { j + 1 };
                assert(s0[j0].symbol@ == k);
                if k == key@ {
                    lemma_keyed_map_at(s0, j0);
                    lemma_keyed_map_at(s0, i as int);
                    if j0 < i {
                        assert(text_lt(s0[j0].symbol@, s0[i as int].symbol@));
                    } else {
                        assert(text_lt(s0[i as int].symbol@, s0[j0].symbol@));
                    }
                    lemma_text_lt_irreflexive(k);
                }
            }
            if m2.contains_key(k) {
                let j = choose|j: int| 0 <= j < s0.len() && s0[j].symbol@ == k;
                assert(j != i);
                let j1 = if j < i { j } else { j - 1 };
                assert(s1[j1].symbol@ == k);
            }
        }
        assert forall|k: Seq<char>| m1.contains_key(k) implies m1[k] == m2[k] by {
            let j = choose|j: int| 0 <= j < s1.len() && s1[j].symbol@ == k;
            lemma_keyed_map_at(s1, j);
            let j0 = if j < i { j } else { j + 1 };
            assert(s0[j0].symbol@ == k);
            lemma_keyed_map_at(s0, j0);
        }
        assert(m1 =~= m2);
    }
}

/// A map from symbol to value, kept in ascending symbol order.
#[derive(Debug, PartialEq, Eq)]
pub struct SymbolMap<V> {
    entries: Vec<Keyed<V>>,
}

impl<V> View for SymbolMap<V> {
    type V = Map<Seq<char>, V>;

    closed spec fn view(&self) -> Map<Seq<char>, V> {
        keyed_map(self.entries@)
    }
}

impl<V> SymbolMap<V> {
    /// Entries are in strictly ascending symbol order.
    #[verifier::type_invariant]
    spec fn sorted(&self) -> bool {
        sorted_entries(self.entries@)
    }
}

impl<V: Copy> SymbolMap<V> {
    pub fn new() -> (r: Self)
        ensures
            r@ == Map::<Seq<char>, V>::empty(),
    {
        let r = SymbolMap { entries: Vec::new() };
        proof {
            assert(keyed_map(r.entries@) =~= Map::<Seq<char>, V>::empty());
        }
        r
    }

    /// Store `value` under `symbol`, replacing any earlier value.
    pub fn insert(&mut self, symbol: String, value: V)
        ensures
            final(self)@ == old(self)@.insert(symbol@, value),
    {
        proof {
            use_type_invariant(&*self);
        }
        let key = Symbol(symbol);
        let mut entries: Vec<Keyed<V>> = Vec::new();
        std::mem::swap(&mut entries, &mut self.entries);
        put_value(&mut entries, &key, value);
        self.entries = entries;
    }

    /// The value stored under `symbol`, if any.
    pub fn get(&self, symbol: &Symbol) -> (r: Option<V>)
        ensures
            r == (if self@.contains_key(symbol@) {
                Some(self@[symbol@])
            } else {
                None
            }),
    {
        proof {
            use_type_invariant(self);
        }
        get_value(&self.entries, symbol)
    }

    /// Remove any value stored under `symbol`.
    pub fn remove(&mut self, symbol: &Symbol)
        ensures
            final(self)@ == old(self)@.remove(symbol@),
    {
        proof {
            use_type_invariant(&*self);
        }
        let mut entries: Vec<Keyed<V>> = Vec::new();
        std::mem::swap(&mut entries, &mut self.entries);
        remove_value(&mut entries, symbol);
        self.entries = entries;
    }

    /// The stored symbols in ascending order.
    pub fn keys(&self) -> (r: Vec<Symbol>)
        ensures
            r@.len() == self@.dom().len(),
            forall|i: int| 0 <= i < r@.len() ==> self@.contains_key(#[trigger] r@[i]@),
            forall|i: int, j: int| 0 <= i < j < r@.len() ==> text_lt(#[trigger] r@[i]@, #[trigger] r@[j]@),
            forall|k: Seq<char>| #[trigger] self@.contains_key(k) ==> exists|i: int| 0 <= i < r@.len() && r@[i]@ == k,
            self@.dom().finite(),
    {
        proof {
            use_type_invariant(self);
        }
        let mut out: Vec<Symbol> = Vec::new();
        let mut i: usize = 0;
        while i < self.entries.len()
            invariant
                0 <= i <= self.entries@.len(),
                sorted_entries(self.entries@),
                out@.len() == i,
                forall|k: int| 0 <= k < i ==> #[trigger] out@[k] == self.entries@[k].symbol,
            decreases self.entries@.len() - i,
        {
            out.push(self.entries[i].symbol.duplicate());
            i = i + 1;
        }
        proof {
            assert forall|k: int| 0 <= k < out@.len() implies self@.contains_key(#[trigger] out@[k]@) by {
                lemma_keyed_map_at(self.entries@, k);
            }
            lemma_keyed_map_len(self.entries@);
            assert forall|k: Seq<char>| #[trigger] self@.contains_key(k) implies exists|i: int| 0 <= i < out@.len() && out@[i]@ == k by {
                let i = choose|i: int| 0 <= i < self.entries@.len() && self.entries@[i].symbol@ == k;
                assert(out@[i]@ == k);
            }
        }
        out
    }
}

/// Sorted entries hold as many keys as entries.
pub proof fn lemma_keyed_map_len<V>(s: Seq<Keyed<V>>)
    requires
        sorted_entries(s),
    ensures
        keyed_map(s).dom().len() == s.len(),
        keyed_map(s).dom().finite(),
{
    let keys = s.map_values(|e: Keyed<V>| e.symbol@);
    assert forall|a: int, b: int| 0 <= a < s.len() && 0 <= b < s.len() && a != b implies keys[a] != keys[b] by {
        if a < b {
            assert(text_lt(s[a].symbol@, s[b].symbol@));
        } else {
            assert(text_lt(s[b].symbol@, s[a].symbol@));
        }
        lemma_text_lt_irreflexive(s[a].symbol@);
    }
    assert(keys.no_duplicates());
    keys.unique_seq_to_set();
    assert forall|k: Seq<char>| keyed_map(s).dom().contains(k) <==> keys.to_set().contains(k) by {
        if keyed_map(s).dom().contains(k) {
            let i = choose|i: int| 0 <= i < s.len() && s[i].symbol@ == k;
            assert(keys[i] == k);
        }
        if keys.to_set().contains(k) {
            let i = choose|i: int| 0 <= i < keys.len() && keys[i] == k;
            assert(s[i].symbol@ == k);
        }
    }
    assert(keyed_map(s).dom() =~= keys.to_set());
}

impl<V: Copy> Clone for SymbolMap<V> {
    fn clone(&self) -> (r: Self)
        ensures
            r@ == self@,
    {
        proof {
            use_type_invariant(self);
        }
        let mut out: Vec<Keyed<V>> = Vec::new();
        let mut i: usize = 0;
        while i < self.entries.len()
            invariant
                0 <= i <= self.entries@.len(),
                out@ == self.entries@.take(i as int),
            decreases self.entries@.len() - i,
        {
            let e = &self.entries[i];
            out.push(Keyed { symbol: e.symbol.duplicate(), value: e.value });
            proof {
                assert(out@ =~= self.entries@.take(i as int + 1));
            }
            i = i + 1;
        }
        proof {
            assert(out@ =~= self.entries@);
        }
        SymbolMap { entries: out }
    }
}

impl<V: Copy> Default for SymbolMap<V> {
    fn default() -> (r: Self)
        ensures
            r@ == Map::<Seq<char>, V>::empty(),
    {
        SymbolMap::new()
    }
}

} // verus!
