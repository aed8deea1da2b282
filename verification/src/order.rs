//! Orders used to arrange keywords and hits, and the sorting that keeps them.
use vstd::prelude::*;

verus! {

/// Byte-wise lexicographic order; a proper prefix comes first.
pub open spec fn lex_lt(a: Seq<u8>, b: Seq<u8>) -> bool
    decreases a.len(),
{
    if a.len() == 0 {
        b.len() > 0
    } else if b.len() == 0 {
        false
    } else if a[0] != b[0] {
        a[0] < b[0]
    } else {
        lex_lt(a.skip(1), b.skip(1))
    }
}

/// `lt` is irreflexive and transitive.
pub open spec fn strict_order<T>(lt: spec_fn(T, T) -> bool) -> bool {
    &&& forall|x: T| !#[trigger] lt(x, x)
    &&& forall|x: T, y: T, z: T| #[trigger] lt(x, y) && #[trigger] lt(y, z) ==> lt(x, z)
}

/// Every element comes before every later one.
pub open spec fn strictly_sorted<T>(s: Seq<T>, lt: spec_fn(T, T) -> bool) -> bool {
    forall|i: int, j: int| 0 <= i < j < s.len() ==> lt(#[trigger] s[i], #[trigger] s[j])
}

/// Ranking order: higher rank first, then lower position first.
pub open spec fn rank_lt(a: (u64, usize), b: (u64, usize)) -> bool {
    a.0 > b.0 || (a.0 == b.0 && a.1 < b.1)
}

pub proof fn lemma_lex_irreflexive(a: Seq<u8>)
    ensures
        !lex_lt(a, a),
    decreases a.len(),
{
    if a.len() > 0 {
        lemma_lex_irreflexive(a.skip(1));
    }
}

pub proof fn lemma_lex_transitive(a: Seq<u8>, b: Seq<u8>, c: Seq<u8>)
    requires
        lex_lt(a, b),
        lex_lt(b, c),
    ensures
        lex_lt(a, c),
    decreases a.len(),
{
    if a.len() > 0 && b.len() > 0 && c.len() > 0 && a[0] == b[0] && b[0] == c[0] {
        lemma_lex_transitive(a.skip(1), b.skip(1), c.skip(1));
    }
}

/// Distinct byte strings are ordered one way or the other.
pub proof fn lemma_lex_total(a: Seq<u8>, b: Seq<u8>)
    requires
        a != b,
    ensures
        lex_lt(a, b) || lex_lt(b, a),
    decreases a.len(),
{
    if a.len() > 0 && b.len() > 0 && a[0] == b[0] {
        if a.skip(1) == b.skip(1) {
            assert(a =~= seq![a[0]] + a.skip(1));
            assert(b =~= seq![b[0]] + b.skip(1));
        }
        lemma_lex_total(a.skip(1), b.skip(1));
    } else if a.len() == 0 && b.len() == 0 {
        assert(a =~= b);
    }
}

pub proof fn lemma_lex_strict_order()
    ensures
        strict_order(|x: Seq<u8>, y: Seq<u8>| lex_lt(x, y)),
{
    assert forall|x: Seq<u8>| !lex_lt(x, x) by {
        lemma_lex_irreflexive(x);
    }
    assert forall|x: Seq<u8>, y: Seq<u8>, z: Seq<u8>| lex_lt(x, y) && lex_lt(y, z) implies lex_lt(x, z) by {
        lemma_lex_transitive(x, y, z);
    }
}

pub proof fn lemma_rank_strict_order()
    ensures
        strict_order(|x: (u64, usize), y: (u64, usize)| rank_lt(x, y)),
{
}

/// Two strictly sorted sequences with the same elements are equal.
pub proof fn lemma_sorted_unique<T>(a: Seq<T>, b: Seq<T>, lt: spec_fn(T, T) -> bool)
    requires
        strict_order(lt),
        strictly_sorted(a, lt),
        strictly_sorted(b, lt),
        a.to_set() == b.to_set(),
    ensures
        a == b,
    decreases a.len(),
{
    if a.len() == 0 {
        if b.len() > 0 {
            assert(b.to_set().contains(b[0]));
        }
        assert(a =~= b);
    } else {
        assert(a.to_set().contains(a[0]));
        assert(b.len() > 0);
        assert(b.to_set().contains(b[0]));
        let m = choose|m: int| 0 <= m < b.len() && b[m] == a[0];
        let k = choose|k: int| 0 <= k < a.len() && a[k] == b[0];
        if k > 0 && m > 0 {
            assert(lt(a[0], a[k]));
            assert(lt(b[0], b[m]));
            assert(lt(a[0], a[0]));
        }
        assert(a[0] == b[0]);
        let a1 = a.drop_first();
        let b1 = b.drop_first();
        assert forall|i: int, j: int| 0 <= i < j < a1.len() implies lt(#[trigger] a1[i], #[trigger] a1[j]) by {
            assert(a1[i] == a[i + 1] && a1[j] == a[j + 1]);
        }
        assert forall|i: int, j: int| 0 <= i < j < b1.len() implies lt(#[trigger] b1[i], #[trigger] b1[j]) by {
            assert(b1[i] == b[i + 1] && b1[j] == b[j + 1]);
        }
        assert(a1.to_set() =~= b1.to_set()) by {
            assert forall|x: T| a1.to_set().contains(x) implies b1.to_set().contains(x) by {
                let i = choose|i: int| 0 <= i < a1.len() && a1[i] == x;
                assert(a.to_set().contains(x)) by {
                    assert(a[i + 1] == x);
                }
                let j = choose|j: int| 0 <= j < b.len() && b[j] == x;
                if j == 0 {
                    assert(lt(a[0], a[i + 1]));
                    assert(lt(x, x));
                }
                assert(b1[j - 1] == x);
            }
            assert forall|x: T| b1.to_set().contains(x) implies a1.to_set().contains(x) by {
                let i = choose|i: int| 0 <= i < b1.len() && b1[i] == x;
                assert(b.to_set().contains(x)) by {
                    assert(b[i + 1] == x);
                }
                let j = choose|j: int| 0 <= j < a.len() && a[j] == x;
                if j == 0 {
                    assert(lt(b[0], b[i + 1]));
                    assert(lt(x, x));
                }
                assert(a1[j - 1] == x);
            }
        }
        lemma_sorted_unique(a1, b1, lt);
        assert(a =~= seq![a[0]] + a1);
        assert(b =~= seq![b[0]] + b1);
    }
}

/// Compares byte strings lexicographically.
pub fn bytes_less(a: &[u8], b: &[u8]) -> (r: bool)
    ensures
        r == lex_lt(a@, b@),
{
    let n = a.len();
    let m = b.len();
    let mut i: usize = 0;
    assert(a@.skip(0) =~= a@ && b@.skip(0) =~= b@);
    while i < n && i < m && a[i] == b[i]
        invariant
            i <= n,
            i <= m,
            n == a@.len(),
            m == b@.len(),
            lex_lt(a@.skip(i as int), b@.skip(i as int)) == lex_lt(a@, b@),
        decreases n - i,
    {
        assert(a@.skip(i as int).skip(1) =~= a@.skip(i + 1));
        assert(b@.skip(i as int).skip(1) =~= b@.skip(i + 1));
        i = i + 1;
    }
    if i == n {
        i < m
    } else if i == m {
        false
    } else {
        assert(a@.skip(i as int)[0] == a@[i as int]);
        assert(b@.skip(i as int)[0] == b@[i as int]);
        a[i] < b[i]
    }
}

/// Whether two byte strings are equal.
pub fn bytes_equal(a: &[u8], b: &[u8]) -> (r: bool)
    ensures
        r == (a@ == b@),
{
    if a.len() != b.len() {
        return false;
    }
    let n = a.len();
    let mut i: usize = 0;
    while i < n
        invariant
            i <= n,
            n == a@.len(),
            n == b@.len(),
            a@.take(i as int) == b@.take(i as int),
        decreases n - i,
    {
        if a[i] != b[i] {
            return false;
        }
        assert(a@.take(i + 1) =~= a@.take(i as int).push(a@[i as int]));
        assert(b@.take(i + 1) =~= b@.take(i as int).push(b@[i as int]));
        i = i + 1;
    }
    assert(a@.take(n as int) =~= a@);
    assert(b@.take(n as int) =~= b@);
    true
}

/// The ranking key of an item: its rank and its position.
pub open spec fn key_of<P>(e: (u64, usize, P)) -> (u64, usize) {
    (e.0, e.1)
}

/// The ranking keys of a sequence of items.
pub open spec fn keys_of<P>(s: Seq<(u64, usize, P)>) -> Seq<(u64, usize)> {
    s.map_values(|e: (u64, usize, P)| key_of(e))
}

/// Items are ranked: strictly sorted by `rank_lt` on their keys.
pub open spec fn is_ranked<P>(s: Seq<(u64, usize, P)>) -> bool {
    strictly_sorted(keys_of(s), |x: (u64, usize), y: (u64, usize)| rank_lt(x, y))
}

/// No two items share a position.
pub open spec fn distinct_positions<P>(s: Seq<(u64, usize, P)>) -> bool {
    forall|i: int, j: int| 0 <= i < s.len() && 0 <= j < s.len() && i != j ==> (#[trigger] s[i]).1 != (#[trigger] s[j]).1
}

proof fn lemma_insert_keeps_ranked<P>(s: Seq<(u64, usize, P)>, item: (u64, usize, P), pos: int)
    requires
        0 <= pos <= s.len(),
        is_ranked(s),
        forall|i: int| 0 <= i < pos ==> rank_lt(key_of(#[trigger] s[i]), key_of(item)),
        pos < s.len() ==> rank_lt(key_of(item), key_of(s[pos])),
    ensures
        is_ranked(s.insert(pos, item)),
{
    let t = s.insert(pos, item);
    let ks = keys_of(s);
    let kt = keys_of(t);
    assert forall|i: int, j: int| 0 <= i < j < kt.len() implies rank_lt(#[trigger] kt[i], #[trigger] kt[j]) by {
        assert(kt[i] == key_of(t[i]));
        assert(kt[j] == key_of(t[j]));
        if j < pos {
            assert(ks[i] == kt[i] && ks[j] == kt[j]);
        } else if j == pos {
        } else if i == pos {
            assert(t[j] == s[j - 1]);
            if j - 1 > pos {
                assert(rank_lt(ks[pos], ks[j - 1]));
            }
        } else if i < pos {
            assert(t[j] == s[j - 1]);
            assert(ks[i] == kt[i] && ks[j - 1] == kt[j]);
        } else {
            assert(t[j] == s[j - 1] && t[i] == s[i - 1]);
            assert(ks[i - 1] == kt[i] && ks[j - 1] == kt[j]);
        }
    }
}

pub proof fn lemma_set_of_push<T>(s: Seq<T>, x: T)
    ensures
        s.push(x).to_set() == s.to_set().insert(x),
{
    assert forall|y: T| s.push(x).to_set().contains(y) implies s.to_set().insert(x).contains(y) by {
        let i = choose|i: int| 0 <= i < s.push(x).len() && s.push(x)[i] == y;
        if i < s.len() {
            assert(s[i] == y);
        }
    }
    assert forall|y: T| s.to_set().insert(x).contains(y) implies s.push(x).to_set().contains(y) by {
        if y == x {
            assert(s.push(x)[s.len() as int] == x);
        } else {
            let i = choose|i: int| 0 <= i < s.len() && s[i] == y;
            assert(s.push(x)[i] == y);
        }
    }
    assert(s.push(x).to_set() =~= s.to_set().insert(x));
}

pub proof fn lemma_set_of_insert<T>(s: Seq<T>, pos: int, x: T)
    requires
        0 <= pos <= s.len(),
    ensures
        s.insert(pos, x).to_set() == s.to_set().insert(x),
{
    let t = s.insert(pos, x);
    assert forall|y: T| t.to_set().contains(y) implies s.to_set().insert(x).contains(y) by {
        let i = choose|i: int| 0 <= i < t.len() && t[i] == y;
        if i < pos {
            assert(s[i] == y);
        } else if i > pos {
            assert(s[i - 1] == y);
        }
    }
    assert forall|y: T| s.to_set().insert(x).contains(y) implies t.to_set().contains(y) by {
        if y == x {
            assert(t[pos] == x);
        } else {
            let i = choose|i: int| 0 <= i < s.len() && s[i] == y;
            if i < pos {
                assert(t[i] == y);
            } else {
                assert(t[i + 1] == y);
            }
        }
    }
    assert(t.to_set() =~= s.to_set().insert(x));
}

/// Ranks items in place: higher rank first, then lower position first.
/// Each item carries its rank and position ahead of its payload; no two
/// items share a position, so the ranking is total.
pub fn sort_ranked<P>(items: &mut Vec<(u64, usize, P)>)
    requires
        distinct_positions(old(items)@),
    ensures
        final(items)@.to_set() == old(items)@.to_set(),
        final(items)@.len() == old(items)@.len(),
        is_ranked(final(items)@),
        distinct_positions(final(items)@),
{
    let ghost orig = items@;
    let mut sorted: Vec<(u64, usize, P)> = Vec::new();
    let mut rest: Vec<(u64, usize, P)> = Vec::new();
    std::mem::swap(&mut rest, items);
    proof {
        assert(sorted@.to_set() =~= Set::empty());
        assert(sorted@.to_set().union(rest@.to_set()) =~= orig.to_set());
    }
    while rest.len() > 0
        invariant
            sorted@.len() + rest@.len() == orig.len(),
            sorted@.to_set().union(rest@.to_set()) == orig.to_set(),
            distinct_positions(orig),
            distinct_positions(sorted@ + rest@),
            is_ranked(sorted@),
        decreases rest@.len(),
    {
        let ghost prev_sorted = sorted@;
        let ghost prev_rest = rest@;
        let item = rest.pop().unwrap();
        proof {
            assert(prev_rest =~= rest@.push(item));
            lemma_set_of_push(rest@, item);
            assert(prev_sorted + prev_rest =~= (prev_sorted + rest@).push(item));
        }
        let len = sorted.len();
        let mut pos: usize = 0;
        while pos < len && (sorted[pos].0 > item.0 || (sorted[pos].0 == item.0 && sorted[pos].1 < item.1))
            invariant
                pos <= len,
                len == sorted@.len(),
                sorted@ == prev_sorted,
                forall|i: int| 0 <= i < pos ==> rank_lt(key_of(#[trigger] sorted@[i]), key_of(item)),
            decreases len - pos,
        {
            pos = pos + 1;
        }
        proof {
            if pos < len {
                let all = (prev_sorted + rest@).push(item);
                assert(all[pos as int] == prev_sorted[pos as int]);
                assert(all[all.len() - 1] == item);
                assert(prev_sorted[pos as int].1 != item.1);
            }
            lemma_insert_keeps_ranked(prev_sorted, item, pos as int);
            lemma_set_of_insert(prev_sorted, pos as int, item);
        }
        sorted.insert(pos, item);
        proof {
            let before = (prev_sorted + rest@).push(item);
            let after = sorted@ + rest@;
            assert forall|i: int, j: int| 0 <= i < after.len() && 0 <= j < after.len() && i != j
                implies (#[trigger] after[i]).1 != (#[trigger] after[j]).1 by {
                let mi = if i < pos { i } else if i == pos { before.len() - 1 } else if i <= len { i - 1 } else { i - 1 };
                let mj = if j < pos { j } else if j == pos { before.len() - 1 } else if j <= len { j - 1 } else { j - 1 };
                assert(after[i] == before[mi]);
                assert(after[j] == before[mj]);
            }
            assert(sorted@.to_set().union(rest@.to_set()) =~= orig.to_set());
        }
    }
    proof {
        assert(sorted@ + rest@ =~= sorted@);
        assert(rest@.to_set() =~= Set::empty());
        assert(sorted@.to_set().union(rest@.to_set()) =~= sorted@.to_set());
    }
    std::mem::swap(items, &mut sorted);
}

/// The ranked arrangement of a set of items.
pub open spec fn ranking<P>(items: Set<(u64, usize, P)>) -> Seq<(u64, usize, P)> {
    choose|s: Seq<(u64, usize, P)>| s.to_set() == items && is_ranked(s)
}

/// A ranked sequence is the ranking of its items: there is only one.
pub proof fn lemma_ranking_unique<P>(s: Seq<(u64, usize, P)>)
    requires
        is_ranked(s),
    ensures
        ranking(s.to_set()) == s,
{
    let lt = |x: (u64, usize, P), y: (u64, usize, P)| rank_lt(key_of(x), key_of(y));
    let t = ranking(s.to_set());
    assert(t.to_set() == s.to_set() && is_ranked(t));
    assert forall|a: Seq<(u64, usize, P)>| is_ranked(a) implies strictly_sorted(a, lt) by {
        assert forall|i: int, j: int| 0 <= i < j < a.len() implies lt(#[trigger] a[i], #[trigger] a[j]) by {
            assert(keys_of(a)[i] == key_of(a[i]) && keys_of(a)[j] == key_of(a[j]));
        }
    }
    assert(strict_order(lt)) by {
        lemma_rank_strict_order();
    }
    lemma_sorted_unique(s, t, lt);
}

/// Inserting an element between those before it and those after it keeps a sequence sorted.
pub proof fn lemma_insert_keeps_sorted<T>(s: Seq<T>, x: T, pos: int, lt: spec_fn(T, T) -> bool)
    requires
        strict_order(lt),
        0 <= pos <= s.len(),
        strictly_sorted(s, lt),
        forall|i: int| 0 <= i < pos ==> lt(#[trigger] s[i], x),
        pos < s.len() ==> lt(x, s[pos]),
    ensures
        strictly_sorted(s.insert(pos, x), lt),
{
    let t = s.insert(pos, x);
    assert forall|i: int, j: int| 0 <= i < j < t.len() implies lt(#[trigger] t[i], #[trigger] t[j]) by {
        if j < pos {
            assert(t[i] == s[i] && t[j] == s[j]);
        } else if j == pos {
            assert(t[i] == s[i]);
        } else if i == pos {
            assert(t[j] == s[j - 1]);
            if j - 1 > pos {
                assert(lt(s[pos], s[j - 1]));
            }
        } else if i < pos {
            assert(t[i] == s[i] && t[j] == s[j - 1]);
        } else {
            assert(t[i] == s[i - 1] && t[j] == s[j - 1]);
        }
    }
}

/// Where an item goes in a ranked sequence: before the first item it outranks.
pub open spec fn insertion_point<P>(s: Seq<(u64, usize, P)>, x: (u64, usize, P)) -> int
    decreases s.len(),
{
    if s.len() == 0 {
        0
    } else if !rank_lt(key_of(s[0]), key_of(x)) {
        0
    } else {
        1 + insertion_point(s.drop_first(), x)
    }
}

proof fn lemma_insertion_point<P>(s: Seq<(u64, usize, P)>, x: (u64, usize, P))
    ensures
        0 <= insertion_point(s, x) <= s.len(),
        forall|i: int| 0 <= i < insertion_point(s, x) ==> rank_lt(key_of(#[trigger] s[i]), key_of(x)),
        insertion_point(s, x) < s.len() ==> !rank_lt(key_of(s[insertion_point(s, x)]), key_of(x)),
    decreases s.len(),
{
    if s.len() > 0 && rank_lt(key_of(s[0]), key_of(x)) {
        lemma_insertion_point(s.drop_first(), x);
        assert forall|i: int| 0 <= i < insertion_point(s, x) implies rank_lt(key_of(#[trigger] s[i]), key_of(x)) by {
            if i > 0 {
                assert(s[i] == s.drop_first()[i - 1]);
            }
        }
        if insertion_point(s, x) < s.len() {
            assert(s[insertion_point(s, x)] == s.drop_first()[insertion_point(s.drop_first(), x)]);
        }
    }
}

/// Every set of items at distinct positions has a ranking.
pub proof fn lemma_ranking_exists<P>(s: Seq<(u64, usize, P)>)
    requires
        distinct_positions(s),
    ensures
        ranking(s.to_set()).to_set() == s.to_set(),
        is_ranked(ranking(s.to_set())),
    decreases s.len(),
{
    if s.len() == 0 {
        assert(s.to_set() =~= Seq::<(u64, usize, P)>::empty().to_set());
        assert(is_ranked(Seq::<(u64, usize, P)>::empty()));
    } else {
        let init = s.drop_last();
        let x = s.last();
        assert forall|i: int, j: int| 0 <= i < init.len() && 0 <= j < init.len() && i != j implies (#[trigger] init[i]).1 != (#[trigger] init[j]).1 by {
            assert(init[i] == s[i] && init[j] == s[j]);
        }
        lemma_ranking_exists(init);
        let r = ranking(init.to_set());
        let pos = insertion_point(r, x);
        lemma_insertion_point(r, x);
        if pos < r.len() {
            assert(init.to_set().contains(r[pos]));
            let k = choose|k: int| 0 <= k < init.len() && init[k] == r[pos];
            assert(s[k] == r[pos]);
            assert(s[s.len() - 1] == x);
            assert(r[pos].1 != x.1);
        }
        lemma_insert_keeps_ranked(r, x, pos);
        lemma_set_of_insert(r, pos, x);
        lemma_set_of_push(init, x);
        assert(init.push(x) =~= s);
        let t = r.insert(pos, x);
        assert(t.to_set() == s.to_set() && is_ranked(t));
    }
}

/// Where an element goes in a sorted sequence: before the first element that
/// does not come before it.
pub open spec fn sorted_insertion_point<T>(s: Seq<T>, x: T, lt: spec_fn(T, T) -> bool) -> int
    decreases s.len(),
{
    if s.len() == 0 || !lt(s[0], x) {
        0
    } else {
        1 + sorted_insertion_point(s.drop_first(), x, lt)
    }
}

proof fn lemma_sorted_insertion_point<T>(s: Seq<T>, x: T, lt: spec_fn(T, T) -> bool)
    ensures
        0 <= sorted_insertion_point(s, x, lt) <= s.len(),
        forall|i: int| 0 <= i < sorted_insertion_point(s, x, lt) ==> lt(#[trigger] s[i], x),
        sorted_insertion_point(s, x, lt) < s.len() ==> !lt(s[sorted_insertion_point(s, x, lt)], x),
    decreases s.len(),
{
    if s.len() > 0 && lt(s[0], x) {
        lemma_sorted_insertion_point(s.drop_first(), x, lt);
        assert forall|i: int| 0 <= i < sorted_insertion_point(s, x, lt) implies lt(#[trigger] s[i], x) by {
            if i > 0 {
                assert(s[i] == s.drop_first()[i - 1]);
            }
        }
        if sorted_insertion_point(s, x, lt) < s.len() {
            assert(s[sorted_insertion_point(s, x, lt)] == s.drop_first()[sorted_insertion_point(s.drop_first(), x, lt)]);
        }
    }
}

/// The elements of a sequence on which a strict order is total can be sorted.
pub proof fn lemma_sorted_exists<T>(s: Seq<T>, lt: spec_fn(T, T) -> bool)
    requires
        strict_order(lt),
        forall|i: int, j: int| 0 <= i < s.len() && 0 <= j < s.len() && s[i] != s[j]
            ==> lt(#[trigger] s[i], #[trigger] s[j]) || lt(s[j], s[i]),
    ensures
        exists|t: Seq<T>| t.to_set() == s.to_set() && #[trigger] strictly_sorted(t, lt),
    decreases s.len(),
{
    if s.len() == 0 {
        let t = Seq::<T>::empty();
        assert(t.to_set() =~= s.to_set());
        assert(strictly_sorted(t, lt));
    } else {
        let init = s.drop_last();
        let x = s.last();
        assert forall|i: int, j: int| 0 <= i < init.len() && 0 <= j < init.len() && init[i] != init[j]
            implies lt(#[trigger] init[i], #[trigger] init[j]) || lt(init[j], init[i]) by {
            assert(init[i] == s[i] && init[j] == s[j]);
        }
        lemma_sorted_exists(init, lt);
        let r = choose|t: Seq<T>| t.to_set() == init.to_set() && #[trigger] strictly_sorted(t, lt);
        lemma_set_of_push(init, x);
        assert(init.push(x) =~= s);
        if r.to_set().contains(x) {
            assert(r.to_set() =~= s.to_set());
            assert(strictly_sorted(r, lt));
        } else {
            let pos = sorted_insertion_point(r, x, lt);
            lemma_sorted_insertion_point(r, x, lt);
            if pos < r.len() {
                assert(init.to_set().contains(r[pos]));
                let k = choose|k: int| 0 <= k < init.len() && init[k] == r[pos];
                assert(s[k] == r[pos]);
                assert(s[s.len() - 1] == x);
                assert(r.to_set().contains(r[pos]));
                assert(r[pos] != x);
                assert(lt(s[k], s[s.len() - 1]) || lt(s[s.len() - 1], s[k]));
            }
            lemma_insert_keeps_sorted(r, x, pos, lt);
            lemma_set_of_insert(r, pos, x);
            let t = r.insert(pos, x);
            assert(t.to_set() == s.to_set() && strictly_sorted(t, lt));
        }
    }
}

} // verus!
