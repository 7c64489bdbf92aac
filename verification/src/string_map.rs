use vstd::prelude::*;

use crate::redirect::pairs_view;
use crate::text::text_eq;

verus! {

/// Whether `a` sorts before `b` as `String`s do: character by character,
/// a proper prefix first. On UTF-8 text this is the order of the bytes.
pub open spec fn text_before(a: Seq<char>, b: Seq<char>) -> bool
    decreases a.len(),
{
    if b.len() == 0 {
        false
    } else if a.len() == 0 {
        true
    } else if a[0] != b[0] {
        (a[0] as int) < (b[0] as int)
    } else {
        text_before(a.drop_first(), b.drop_first())
    }
}

/// Entries in key order with `(k, v)` stored as a `BTreeMap` stores it:
/// the value of an equal key is replaced, else the pair goes before the
/// first greater key.
pub open spec fn map_insert(entries: Seq<(Seq<char>, Seq<char>)>, k: Seq<char>, v: Seq<char>) -> Seq<
    (Seq<char>, Seq<char>),
>
    decreases entries.len(),
{
    if entries.len() == 0 {
        seq![(k, v)]
    } else if entries[0].0 == k {
        seq![(k, v)] + entries.drop_first()
    } else if text_before(k, entries[0].0) {
        seq![(k, v)] + entries
    } else {
        seq![entries[0]] + map_insert(entries.drop_first(), k, v)
    }
}

/// The entries, in key order, of the `BTreeMap` that pairs make when they
/// are stored one after the other (a later value of a key wins).
pub open spec fn map_entries(pairs: Seq<(Seq<char>, Seq<char>)>) -> Seq<(Seq<char>, Seq<char>)>
    decreases pairs.len(),
{
    if pairs.len() == 0 {
        Seq::empty()
    } else {
        map_insert(map_entries(pairs.drop_last()), pairs.last().0, pairs.last().1)
    }
}

/// Whether keys strictly increase, each key once.
pub open spec fn keys_ascending(entries: Seq<(Seq<char>, Seq<char>)>) -> bool {
    forall|i: int, j: int| 0 <= i < j < entries.len() ==> text_before(#[trigger] entries[i].0, #[trigger] entries[j].0)
}

/// Whether some entry has key `x`.
pub open spec fn has_key(entries: Seq<(Seq<char>, Seq<char>)>, x: Seq<char>) -> bool {
    exists|i: int| 0 <= i < entries.len() && #[trigger] entries[i].0 == x
}

proof fn lemma_text_before_irreflexive(a: Seq<char>)
    ensures
        !text_before(a, a),
    decreases a.len(),
{
    if a.len() > 0 {
        lemma_text_before_irreflexive(a.drop_first());
    }
}

proof fn lemma_text_before_total(a: Seq<char>, b: Seq<char>)
    requires
        a != b,
    ensures
        text_before(a, b) || text_before(b, a),
    decreases a.len(),
{
    if a.len() == 0 && b.len() == 0 {
        assert(a =~= b);
    } else if a.len() > 0 && b.len() > 0 {
        if a[0] == b[0] {
            if a.drop_first() == b.drop_first() {
                assert(a =~= seq![a[0]] + a.drop_first());
                assert(b =~= seq![b[0]] + b.drop_first());
                assert(a =~= b);
            } else {
                lemma_text_before_total(a.drop_first(), b.drop_first());
            }
        } else {
            let x = a[0];
            let y = b[0];
            assert(x != y);
            assert((x as int) != (y as int));
        }
    }
}

proof fn lemma_text_before_transitive(a: Seq<char>, b: Seq<char>, c: Seq<char>)
    requires
        text_before(a, b),
        text_before(b, c),
    ensures
        text_before(a, c),
    decreases a.len(),
{
    if a.len() > 0 && b.len() > 0 && c.len() > 0 && a[0] == b[0] && b[0] == c[0] {
        lemma_text_before_transitive(a.drop_first(), b.drop_first(), c.drop_first());
    }
}

proof fn lemma_map_insert(e: Seq<(Seq<char>, Seq<char>)>, k: Seq<char>, v: Seq<char>)
    requires
        keys_ascending(e),
    ensures
        keys_ascending(map_insert(e, k, v)),
        has_key(map_insert(e, k, v), k),
        forall|x: Seq<char>| has_key(map_insert(e, k, v), x) ==> x == k || has_key(e, x),
    decreases e.len(),
{
    let r = map_insert(e, k, v);
    if e.len() == 0 {
        assert(r[0].0 == k);
    } else if e[0].0 == k {
        assert(r[0].0 == k);
        assert forall|i: int, j: int| 0 <= i < j < r.len() implies text_before(#[trigger] r[i].0, #[trigger] r[j].0) by {
            assert(r[j] == e[j]);
            if i > 0 {
                assert(r[i] == e[i]);
            } else {
                assert(text_before(e[0].0, e[j].0));
            }
        }
        assert forall|x: Seq<char>| has_key(r, x) implies x == k || has_key(e, x) by {
            let i = choose|i: int| 0 <= i < r.len() && #[trigger] r[i].0 == x;
            if i > 0 {
                assert(r[i] == e[i]);
            }
        }
    } else if text_before(k, e[0].0) {
        assert(r[0].0 == k);
        assert forall|i: int, j: int| 0 <= i < j < r.len() implies text_before(#[trigger] r[i].0, #[trigger] r[j].0) by {
            assert(r[j] == e[j - 1]);
            if i > 0 {
                assert(r[i] == e[i - 1]);
            } else if j > 1 {
                assert(text_before(e[0].0, e[j - 1].0));
                lemma_text_before_transitive(k, e[0].0, e[j - 1].0);
            }
        }
        assert forall|x: Seq<char>| has_key(r, x) implies x == k || has_key(e, x) by {
            let i = choose|i: int| 0 <= i < r.len() && #[trigger] r[i].0 == x;
            if i > 0 {
                assert(r[i] == e[i - 1]);
            }
        }
    } else {
        let rest = e.drop_first();
        assert(keys_ascending(rest)) by {
            assert forall|i: int, j: int| 0 <= i < j < rest.len() implies text_before(#[trigger] rest[i].0, #[trigger] rest[j].0) by {
                assert(rest[i] == e[i + 1] && rest[j] == e[j + 1]);
            }
        }
        lemma_map_insert(rest, k, v);
        let t = map_insert(rest, k, v);
        lemma_text_before_total(k, e[0].0);
        assert(text_before(e[0].0, k));
        assert forall|x: Seq<char>| has_key(t, x) implies text_before(e[0].0, x) by {
            if x != k {
                assert(has_key(rest, x));
                let j = choose|j: int| 0 <= j < rest.len() && #[trigger] rest[j].0 == x;
                assert(rest[j] == e[j + 1]);
                assert(text_before(e[0].0, e[j + 1].0));
            }
        }
        assert forall|i: int, j: int| 0 <= i < j < r.len() implies text_before(#[trigger] r[i].0, #[trigger] r[j].0) by {
            assert(r[j] == t[j - 1]);
            if i > 0 {
                assert(r[i] == t[i - 1]);
            } else {
                assert(has_key(t, t[j - 1].0));
            }
        }
        let ik = choose|i: int| 0 <= i < t.len() && #[trigger] t[i].0 == k;
        assert(r[ik + 1] == t[ik]);
        assert forall|x: Seq<char>| has_key(r, x) implies x == k || has_key(e, x) by {
            let i = choose|i: int| 0 <= i < r.len() && #[trigger] r[i].0 == x;
            if i > 0 {
                assert(r[i] == t[i - 1]);
                assert(has_key(t, x));
                if x != k {
                    assert(has_key(rest, x));
                    let j = choose|j: int| 0 <= j < rest.len() && #[trigger] rest[j].0 == x;
                    assert(e[j + 1].0 == x);
                }
            } else {
                assert(e[0].0 == x);
            }
        }
    }
}

/// A `BTreeMap`'s entries come in key order, each key once: the entries
/// that pairs make have strictly ascending keys, and they hold a key
/// exactly when some pair does.
pub proof fn law_map_entries_ascend(pairs: Seq<(Seq<char>, Seq<char>)>)
    ensures
        keys_ascending(map_entries(pairs)),
        forall|x: Seq<char>| has_key(map_entries(pairs), x) <==> has_key(pairs, x),
    decreases pairs.len(),
{
    if pairs.len() > 0 {
        let init = pairs.drop_last();
        law_map_entries_ascend(init);
        let (k, v) = pairs.last();
        lemma_map_insert(map_entries(init), k, v);
        assert forall|x: Seq<char>| has_key(map_entries(pairs), x) <==> has_key(pairs, x) by {
            if has_key(pairs, x) {
                let i = choose|i: int| 0 <= i < pairs.len() && #[trigger] pairs[i].0 == x;
                if i < init.len() {
                    assert(init[i] == pairs[i]);
                    assert(has_key(init, x));
                    assert(has_key(map_entries(init), x));
                    lemma_map_insert_keeps(map_entries(init), k, v, x);
                }
            }
            if has_key(map_entries(pairs), x) && x != k {
                assert(has_key(map_entries(init), x));
                assert(has_key(init, x));
                let i = choose|i: int| 0 <= i < init.len() && #[trigger] init[i].0 == x;
                assert(pairs[i] == init[i]);
            }
            if x == k {
                assert(pairs[pairs.len() - 1].0 == k);
            }
        }
    }
}

proof fn lemma_map_insert_keeps(e: Seq<(Seq<char>, Seq<char>)>, k: Seq<char>, v: Seq<char>, x: Seq<char>)
    requires
        has_key(e, x),
    ensures
        has_key(map_insert(e, k, v), x),
    decreases e.len(),
{
    let r = map_insert(e, k, v);
    let i = choose|i: int| 0 <= i < e.len() && #[trigger] e[i].0 == x;
    if e[0].0 == k {
        if i == 0 {
            assert(r[0].0 == k);
        } else {
            assert(r[i] == e[i]);
        }
    } else if text_before(k, e[0].0) {
        assert(r[i + 1] == e[i]);
    } else if i == 0 {
        assert(r[0] == e[0]);
    } else {
        let rest = e.drop_first();
        assert(rest[i - 1] == e[i]);
        lemma_map_insert_keeps(rest, k, v, x);
        let t = map_insert(rest, k, v);
        let j = choose|j: int| 0 <= j < t.len() && #[trigger] t[j].0 == x;
        assert(r[j + 1] == t[j]);
    }
}

/// Whether `a` sorts before `b`, as `String`'s `<` does.
pub fn text_less(a: &str, b: &str) -> (before: bool)
    ensures
        before == text_before(a@, b@),
{
    let n = a.unicode_len();
    let m = b.unicode_len();
    let mut i: usize = 0;
    proof {
        assert(a@.skip(0) =~= a@);
        assert(b@.skip(0) =~= b@);
    }
    while i < n && i < m && a.get_char(i) == b.get_char(i)
        invariant
            n == a@.len(),
            m == b@.len(),
            i <= n,
            i <= m,
            text_before(a@, b@) == text_before(a@.skip(i as int), b@.skip(i as int)),
        decreases n - i,
    {
        proof {
            assert(a@.skip(i as int).drop_first() =~= a@.skip(i + 1));
            assert(b@.skip(i as int).drop_first() =~= b@.skip(i + 1));
            assert(a@.skip(i as int)[0] == a@[i as int]);
            assert(b@.skip(i as int)[0] == b@[i as int]);
        }
        i = i + 1;
    }
    if i == m {
        false
    } else if i == n {
        true
    } else {
        proof {
            assert(a@.skip(i as int)[0] == a@[i as int]);
            assert(b@.skip(i as int)[0] == b@[i as int]);
        }
        (a.get_char(i) as u32) < (b.get_char(i) as u32)
    }
}

/// Stores a pair into entries kept in key order, as `BTreeMap::insert`.
fn map_insert_into(entries: &mut Vec<(String, String)>, k: String, v: String)
    ensures
        pairs_view(final(entries)@) == map_insert(pairs_view(old(entries)@), k@, v@),
{
    let ghost e = pairs_view(entries@);
    let n = entries.len();
    let mut i: usize = 0;
    proof {
        assert(e.take(0) + e.skip(0) =~= e);
        assert(e.take(0) =~= Seq::<(Seq<char>, Seq<char>)>::empty());
        assert(e.skip(0) =~= e);
    }
    while i < n && !text_eq(entries[i].0.as_str(), k.as_str()) && !text_less(k.as_str(), entries[i].0.as_str())
        invariant
            n == entries@.len(),
            e == pairs_view(entries@),
            i <= n,
            map_insert(e, k@, v@) == e.take(i as int) + map_insert(e.skip(i as int), k@, v@),
        decreases n - i,
    {
        proof {
            let rest = e.skip(i as int);
            assert(rest[0] == e[i as int]);
            assert(rest.drop_first() =~= e.skip(i + 1));
            assert(e.take(i + 1) =~= e.take(i as int) + seq![e[i as int]]);
            assert(e.take(i as int) + (seq![e[i as int]] + map_insert(e.skip(i + 1), k@, v@)) =~= e.take(i + 1)
                + map_insert(e.skip(i + 1), k@, v@));
        }
        i = i + 1;
    }
    let pair = (k, v);
    let ghost kv = (pair.0@, pair.1@);
    if i == n {
        proof {
            assert(e.skip(i as int) =~= Seq::<(Seq<char>, Seq<char>)>::empty());
            assert(e.take(i as int) =~= e);
        }
        entries.push(pair);
        proof {
            assert(pairs_view(entries@) =~= e + seq![kv]);
        }
    } else if text_eq(entries[i].0.as_str(), pair.0.as_str()) {
        proof {
            let rest = e.skip(i as int);
            assert(rest[0] == e[i as int]);
            assert(rest.drop_first() =~= e.skip(i + 1));
        }
        entries.set(i, pair);
        proof {
            assert(pairs_view(entries@) =~= e.take(i as int) + (seq![kv] + e.skip(i + 1)));
        }
    } else {
        proof {
            let rest = e.skip(i as int);
            assert(rest[0] == e[i as int]);
        }
        entries.insert(i, pair);
        proof {
            assert(pairs_view(entries@) =~= e.take(i as int) + (seq![kv] + e.skip(i as int)));
        }
    }
}

/// The entries, in key order, of the `BTreeMap` that pairs make when
/// collected one after the other.
pub fn map_entries_of(pairs: &Vec<(String, String)>) -> (entries: Vec<(String, String)>)
    ensures
        pairs_view(entries@) == map_entries(pairs_view(pairs@)),
{
    let ghost p = pairs_view(pairs@);
    let mut entries: Vec<(String, String)> = Vec::new();
    proof {
        assert(p.take(0) =~= Seq::<(Seq<char>, Seq<char>)>::empty());
        assert(pairs_view(entries@) =~= Seq::<(Seq<char>, Seq<char>)>::empty());
    }
    for i in 0..pairs.len()
        invariant
            p == pairs_view(pairs@),
            pairs_view(entries@) == map_entries(p.take(i as int)),
    {
        proof {
            assert(p.take(i + 1).drop_last() =~= p.take(i as int));
            assert(p.take(i + 1).last() == p[i as int]);
        }
        let k = pairs[i].0.clone();
        let v = pairs[i].1.clone();
        map_insert_into(&mut entries, k, v);
    }
    assert(p.take(pairs@.len() as int) =~= p);
    entries
}

} // verus!
