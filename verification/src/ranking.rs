//! The order in which reports are listed: a higher score first, then a
//! higher second score, then two texts in ascending order.
use vstd::prelude::*;
use crate::text::{text_before, text_lt, lemma_text_lt_irreflexive, lemma_text_lt_transitive,
    lemma_text_lt_total};

verus! {

/// The position of an item in a listing.
pub struct Rank {
    pub major: i64,
    pub minor: i64,
    pub first: Vec<char>,
    pub second: Vec<char>,
}

/// What the order sees of a [`Rank`].
#[verifier::ext_equal]
pub struct RankView {
    pub major: int,
    pub minor: int,
    pub first: Seq<char>,
    pub second: Seq<char>,
}

impl View for Rank {
    type V = RankView;

    open spec fn view(&self) -> RankView {
        RankView {
            major: self.major as int,
            minor: self.minor as int,
            first: self.first@,
            second: self.second@,
        }
    }
}

/// Whether `a` is listed strictly before `b`.
pub open spec fn rank_before(a: RankView, b: RankView) -> bool {
    ||| a.major > b.major
    ||| a.major == b.major && a.minor > b.minor
    ||| a.major == b.major && a.minor == b.minor && text_lt(a.first, b.first)
    ||| a.major == b.major && a.minor == b.minor && a.first == b.first && text_lt(
        a.second,
        b.second,
    )
}

/// Whether `a` may be listed before `b`.
pub open spec fn rank_le(a: RankView, b: RankView) -> bool {
    !rank_before(b, a)
}

/// No rank comes before itself.
pub proof fn lemma_rank_before_irreflexive(a: RankView)
    ensures
        !rank_before(a, a),
{
    lemma_text_lt_irreflexive(a.first);
    lemma_text_lt_irreflexive(a.second);
}

/// Coming before is transitive.
pub proof fn lemma_rank_before_transitive(a: RankView, b: RankView, c: RankView)
    requires
        rank_before(a, b),
        rank_before(b, c),
    ensures
        rank_before(a, c),
{
    if a.major == b.major && b.major == c.major && a.minor == b.minor && b.minor == c.minor {
        if text_lt(a.first, b.first) && text_lt(b.first, c.first) {
            lemma_text_lt_transitive(a.first, b.first, c.first);
        }
        if a.first == b.first && b.first == c.first && text_lt(a.second, b.second) && text_lt(
            b.second,
            c.second,
        ) {
            lemma_text_lt_transitive(a.second, b.second, c.second);
        }
    }
}

/// Of two different ranks, one comes before the other.
pub proof fn lemma_rank_before_total(a: RankView, b: RankView)
    requires
        a != b,
    ensures
        rank_before(a, b) || rank_before(b, a),
{
    if a.major == b.major && a.minor == b.minor {
        if a.first != b.first {
            lemma_text_lt_total(a.first, b.first);
        } else if a.second != b.second {
            lemma_text_lt_total(a.second, b.second);
        } else {
            assert(a =~= b);
        }
    }
}

/// `rank_le` is transitive.
pub proof fn lemma_rank_le_transitive(a: RankView, b: RankView, c: RankView)
    requires
        rank_le(a, b),
        rank_le(b, c),
    ensures
        rank_le(a, c),
{
    if rank_before(c, a) {
        if a == b {
            assert(rank_before(c, b));
        } else {
            lemma_rank_before_total(a, b);
            lemma_rank_before_transitive(c, a, b);
        }
    }
}

/// Coming before implies `rank_le`.
pub proof fn lemma_rank_before_le(a: RankView, b: RankView)
    requires
        rank_before(a, b),
    ensures
        rank_le(a, b),
{
    if rank_before(b, a) {
        lemma_rank_before_transitive(a, b, a);
        lemma_rank_before_irreflexive(a);
    }
}

/// Whether `a` is listed strictly before `b`.
pub fn is_ranked_before(a: &Rank, b: &Rank) -> (r: bool)
    ensures
        r == rank_before(a@, b@),
{
    if a.major != b.major {
        return a.major > b.major;
    }
    if a.minor != b.minor {
        return a.minor > b.minor;
    }
    if text_before(&a.first, &b.first) {
        return true;
    }
    if text_before(&b.first, &a.first) {
        return false;
    }
    proof {
        if a.first@ != b.first@ {
            lemma_text_lt_total(a.first@, b.first@);
        }
    }
    text_before(&a.second, &b.second)
}

/// `x` placed into `s` in front of the first element that it is ranked
/// strictly before, or at the end.
pub open spec fn insert_ranked<T>(s: Seq<T>, x: T, key: spec_fn(T) -> RankView) -> Seq<T>
    decreases s.len(),
{
    if s.len() == 0 {
        seq![x]
    } else if rank_before(key(x), key(s[0])) {
        seq![x] + s
    } else {
        seq![s[0]] + insert_ranked(s.drop_first(), x, key)
    }
}

/// `s` listed in the rank order of `key`; elements of equal rank keep their
/// relative order.
pub open spec fn rank_sorted<T>(s: Seq<T>, key: spec_fn(T) -> RankView) -> Seq<T>
    decreases s.len(),
{
    if s.len() == 0 {
        s
    } else {
        insert_ranked(rank_sorted(s.drop_last(), key), s.last(), key)
    }
}

/// Whether `s` is listed in the rank order of `key`.
pub open spec fn ranked_in_order<T>(s: Seq<T>, key: spec_fn(T) -> RankView) -> bool {
    forall|i: int, j: int| 0 <= i < j < s.len() ==> rank_le(key(#[trigger] s[i]), key(#[trigger] s[j]))
}

/// Inserting in front of the first element ranked after `x` is inserting at
/// that index.
proof fn lemma_insert_ranked_at<T>(s: Seq<T>, x: T, key: spec_fn(T) -> RankView, j: int)
    requires
        0 <= j <= s.len(),
        forall|k: int| 0 <= k < j ==> !rank_before(key(x), key(#[trigger] s[k])),
        j < s.len() ==> rank_before(key(x), key(s[j])),
    ensures
        insert_ranked(s, x, key) == s.insert(j, x),
    decreases s.len(),
{
    if s.len() == 0 {
        assert(s.insert(j, x) =~= seq![x]);
    } else if j == 0 {
        assert(s.insert(j, x) =~= seq![x] + s);
    } else {
        assert(!rank_before(key(x), key(s[0])));
        assert forall|k: int| 0 <= k < j - 1 implies !rank_before(
            key(x),
            key(#[trigger] s.drop_first()[k]),
        ) by {
            assert(s.drop_first()[k] == s[k + 1]);
        }
        lemma_insert_ranked_at(s.drop_first(), x, key, j - 1);
        assert(s.insert(j, x) =~= seq![s[0]] + s.drop_first().insert(j - 1, x));
    }
}

/// Whether mapping `a` by `f` keeps its rank.
pub open spec fn keeps_rank<A, B>(
    a: A,
    key_a: spec_fn(A) -> RankView,
    f: spec_fn(A) -> B,
    key_b: spec_fn(B) -> RankView,
) -> bool {
    key_b(f(a)) == key_a(a)
}

/// Whether every element of `s` keeps its rank when mapped by `f`.
pub open spec fn all_keep_rank<A, B>(
    s: Seq<A>,
    key_a: spec_fn(A) -> RankView,
    f: spec_fn(A) -> B,
    key_b: spec_fn(B) -> RankView,
) -> bool {
    forall|i: int| 0 <= i < s.len() ==> keeps_rank(#[trigger] s[i], key_a, f, key_b)
}

proof fn lemma_insert_ranked_keeps<A, B>(
    s: Seq<A>,
    x: A,
    key_a: spec_fn(A) -> RankView,
    f: spec_fn(A) -> B,
    key_b: spec_fn(B) -> RankView,
)
    requires
        all_keep_rank(s, key_a, f, key_b),
        keeps_rank(x, key_a, f, key_b),
    ensures
        all_keep_rank(insert_ranked(s, x, key_a), key_a, f, key_b),
    decreases s.len(),
{
    if s.len() > 0 && !rank_before(key_a(x), key_a(s[0])) {
        let t = s.drop_first();
        assert forall|i: int| 0 <= i < t.len() implies keeps_rank(#[trigger] t[i], key_a, f, key_b) by {
            assert(t[i] == s[i + 1]);
        }
        lemma_insert_ranked_keeps(t, x, key_a, f, key_b);
        let r = insert_ranked(s, x, key_a);
        assert forall|i: int| 0 <= i < r.len() implies keeps_rank(#[trigger] r[i], key_a, f, key_b) by {
            if i > 0 {
                assert(r[i] == insert_ranked(t, x, key_a)[i - 1]);
            }
        }
    } else if s.len() > 0 {
        let r = insert_ranked(s, x, key_a);
        assert forall|i: int| 0 <= i < r.len() implies keeps_rank(#[trigger] r[i], key_a, f, key_b) by {
            if i > 0 {
                assert(r[i] == s[i - 1]);
            }
        }
    }
}

proof fn lemma_rank_sorted_keeps<A, B>(
    s: Seq<A>,
    key_a: spec_fn(A) -> RankView,
    f: spec_fn(A) -> B,
    key_b: spec_fn(B) -> RankView,
)
    requires
        all_keep_rank(s, key_a, f, key_b),
    ensures
        all_keep_rank(rank_sorted(s, key_a), key_a, f, key_b),
    decreases s.len(),
{
    if s.len() > 0 {
        let t = s.drop_last();
        assert forall|i: int| 0 <= i < t.len() implies keeps_rank(#[trigger] t[i], key_a, f, key_b) by {
            assert(t[i] == s[i]);
        }
        lemma_rank_sorted_keeps(t, key_a, f, key_b);
        assert(keeps_rank(s[s.len() - 1], key_a, f, key_b));
        lemma_insert_ranked_keeps(rank_sorted(t, key_a), s.last(), key_a, f, key_b);
    }
}

/// Sorting commutes with a map that carries the rank of every element along.
pub proof fn lemma_rank_sorted_map<A, B>(
    s: Seq<A>,
    key_a: spec_fn(A) -> RankView,
    f: spec_fn(A) -> B,
    key_b: spec_fn(B) -> RankView,
)
    requires
        all_keep_rank(s, key_a, f, key_b),
    ensures
        rank_sorted(s, key_a).map_values(f) == rank_sorted(s.map_values(f), key_b),
    decreases s.len(),
{
    if s.len() == 0 {
        assert(s.map_values(f) =~= Seq::<B>::empty());
    } else {
        let t = s.drop_last();
        assert forall|i: int| 0 <= i < t.len() implies keeps_rank(#[trigger] t[i], key_a, f, key_b) by {
            assert(t[i] == s[i]);
        }
        lemma_rank_sorted_map(t, key_a, f, key_b);
        lemma_rank_sorted_keeps(t, key_a, f, key_b);
        assert(keeps_rank(s[s.len() - 1], key_a, f, key_b));
        assert(s.map_values(f).drop_last() =~= t.map_values(f));
        lemma_insert_ranked_map(rank_sorted(t, key_a), s.last(), key_a, f, key_b);
    }
}

proof fn lemma_insert_ranked_map<A, B>(
    s: Seq<A>,
    x: A,
    key_a: spec_fn(A) -> RankView,
    f: spec_fn(A) -> B,
    key_b: spec_fn(B) -> RankView,
)
    requires
        all_keep_rank(s, key_a, f, key_b),
        keeps_rank(x, key_a, f, key_b),
    ensures
        insert_ranked(s, x, key_a).map_values(f) == insert_ranked(s.map_values(f), f(x), key_b),
    decreases s.len(),
{
    if s.len() == 0 {
        assert(seq![x].map_values(f) =~= seq![f(x)]);
    } else {
        assert(keeps_rank(s[0], key_a, f, key_b));
        assert(s.map_values(f)[0] == f(s[0]));
        if rank_before(key_a(x), key_a(s[0])) {
            assert((seq![x] + s).map_values(f) =~= seq![f(x)] + s.map_values(f));
        } else {
            let t = s.drop_first();
            assert forall|i: int| 0 <= i < t.len() implies keeps_rank(#[trigger] t[i], key_a, f, key_b) by {
                assert(t[i] == s[i + 1]);
            }
            lemma_insert_ranked_map(t, x, key_a, f, key_b);
            assert(s.map_values(f).drop_first() =~= t.map_values(f));
            assert((seq![s[0]] + insert_ranked(t, x, key_a)).map_values(f) =~= seq![f(s[0])]
                + insert_ranked(t, x, key_a).map_values(f));
        }
    }
}

/// Inserting into a listing in rank order keeps it in rank order and adds
/// exactly the inserted element.
proof fn lemma_insert_ranked_ordered<T>(s: Seq<T>, x: T, key: spec_fn(T) -> RankView)
    requires
        ranked_in_order(s, key),
    ensures
        ranked_in_order(insert_ranked(s, x, key), key),
        insert_ranked(s, x, key).to_multiset() == s.to_multiset().insert(x),
    decreases s.len(),
{
    let r = insert_ranked(s, x, key);
    if s.len() == 0 {
        vstd::seq_lib::to_multiset_insert(s, 0, x);
        assert(s.insert(0, x) =~= r);
    } else if rank_before(key(x), key(s[0])) {
        vstd::seq_lib::to_multiset_insert(s, 0, x);
        assert(s.insert(0, x) =~= r);
        lemma_rank_before_le(key(x), key(s[0]));
        assert forall|a: int, b: int| 0 <= a < b < r.len() implies rank_le(
            key(#[trigger] r[a]),
            key(#[trigger] r[b]),
        ) by {
            if a == 0 {
                if b > 1 {
                    assert(rank_le(key(s[0]), key(s[b - 1])));
                    lemma_rank_le_transitive(key(x), key(s[0]), key(s[b - 1]));
                }
            } else {
                assert(rank_le(key(s[a - 1]), key(s[b - 1])));
            }
        }
    } else {
        let t = s.drop_first();
        let rt = insert_ranked(t, x, key);
        assert forall|a: int, b: int| 0 <= a < b < t.len() implies rank_le(
            key(#[trigger] t[a]),
            key(#[trigger] t[b]),
        ) by {
            assert(rank_le(key(s[a + 1]), key(s[b + 1])));
        }
        lemma_insert_ranked_ordered(t, x, key);
        assert(r =~= rt.insert(0, s[0]));
        vstd::seq_lib::to_multiset_insert(rt, 0, s[0]);
        vstd::seq_lib::to_multiset_insert(t, 0, s[0]);
        assert(t.insert(0, s[0]) =~= s);
        assert(r.to_multiset() =~= s.to_multiset().insert(x));
        assert forall|a: int, b: int| 0 <= a < b < r.len() implies rank_le(
            key(#[trigger] r[a]),
            key(#[trigger] r[b]),
        ) by {
            if a == 0 {
                let y = rt[b - 1];
                vstd::seq_lib::to_multiset_contains(rt, y);
                assert(rt.contains(y));
                vstd::seq_lib::to_multiset_contains(t, y);
                if y == x {
                    if rank_before(key(x), key(s[0])) {
                    }
                } else {
                    assert(t.to_multiset().count(y) > 0);
                    assert(t.contains(y));
                    let k = choose|k: int| 0 <= k < t.len() && t[k] == y;
                    assert(rank_le(key(s[0]), key(s[k + 1])));
                }
            } else {
                assert(r[a] == rt[a - 1] && r[b] == rt[b - 1]);
            }
        }
    }
}

/// A sorted listing is in rank order and holds exactly the elements listed.
pub proof fn lemma_rank_sorted_properties<T>(s: Seq<T>, key: spec_fn(T) -> RankView)
    ensures
        ranked_in_order(rank_sorted(s, key), key),
        rank_sorted(s, key).to_multiset() == s.to_multiset(),
        rank_sorted(s, key).len() == s.len(),
    decreases s.len(),
{
    if s.len() == 0 {
    } else {
        lemma_rank_sorted_properties(s.drop_last(), key);
        lemma_insert_ranked_ordered(rank_sorted(s.drop_last(), key), s.last(), key);
        vstd::seq_lib::to_multiset_build(s.drop_last(), s.last());
        assert(s.drop_last().push(s.last()) =~= s);
        vstd::seq_lib::to_multiset_len(rank_sorted(s, key));
        vstd::seq_lib::to_multiset_len(s);
    }
}

/// The rank of a pair is the rank that it carries.
pub open spec fn carried_rank<T>(p: (Rank, T)) -> RankView {
    p.0@
}

/// Lists `items` in rank order; items of equal rank keep their order.
pub fn sort_by_rank<T>(items: Vec<(Rank, T)>) -> (r: Vec<(Rank, T)>)
    ensures
        r@ == rank_sorted(items@, |p: (Rank, T)| carried_rank(p)),
{
    let ghost key = |p: (Rank, T)| carried_rank(p);
    let total = items.len();
    let mut input = items;
    let mut out: Vec<(Rank, T)> = Vec::new();
    let mut done: usize = 0;
    assert(items@.take(0) =~= Seq::<(Rank, T)>::empty());
    assert(items@.skip(0) =~= items@);
    while input.len() > 0
        invariant
            done <= items@.len(),
            input@ == items@.skip(done as int),
            input@.len() + done == items@.len(),
            items@.len() == total,
            out@ == rank_sorted(items@.take(done as int), key),
            key == (|p: (Rank, T)| carried_rank(p)),
        decreases input.len(),
    {
        let ghost out_before = out@;
        let x = input.remove(0);
        assert(x == items@[done as int]);
        let mut j: usize = 0;
        while j < out.len() && !is_ranked_before(&x.0, &out[j].0)
            invariant
                out@ == out_before,
                j <= out.len(),
                forall|k: int| 0 <= k < j ==> !rank_before(key(x), key(#[trigger] out@[k])),
                key == (|p: (Rank, T)| carried_rank(p)),
            decreases out.len() - j,
        {
            j = j + 1;
        }
        proof {
            lemma_insert_ranked_at(out_before, x, key, j as int);
            assert(items@.take(done + 1).drop_last() =~= items@.take(done as int));
            assert(items@.take(done + 1).last() == x);
            assert(items@.skip(done + 1) =~= items@.skip(done as int).remove(0));
        }
        out.insert(j, x);
        done = done + 1;
    }
    assert(items@.take(done as int) =~= items@);
    out
}

/// Lists the items of `pairs` in the order of the ranks that they carry,
/// dropping the ranks. Each rank is `key` of the item's view.
pub fn list_by_rank<T, V>(
    pairs: Vec<(Rank, T)>,
    Ghost(view_of): Ghost<spec_fn(T) -> V>,
    Ghost(key): Ghost<spec_fn(V) -> RankView>,
) -> (r: Vec<T>)
    requires
        forall|i: int| 0 <= i < pairs@.len() ==> (#[trigger] pairs@[i]).0@ == key(view_of(pairs@[i].1)),
    ensures
        r@.map_values(view_of) == rank_sorted(pairs@.map_values(|p: (Rank, T)| view_of(p.1)), key),
{
    let ghost f = |p: (Rank, T)| view_of(p.1);
    let ghost carried = |p: (Rank, T)| carried_rank(p);
    proof {
        assert forall|i: int| 0 <= i < pairs@.len() implies keeps_rank(
            #[trigger] pairs@[i],
            carried,
            f,
            key,
        ) by {}
        lemma_rank_sorted_map(pairs@, carried, f, key);
    }
    let mut sorted = sort_by_rank(pairs);
    let ghost target = sorted@.map_values(f);
    let mut out: Vec<T> = Vec::new();
    let total = sorted.len();
    let mut done: usize = 0;
    assert(target.take(0) =~= Seq::<V>::empty());
    while sorted.len() > 0
        invariant
            done <= total,
            sorted@.len() + done == total,
            target.len() == total,
            forall|k: int| 0 <= k < sorted@.len() ==> f(#[trigger] sorted@[k]) == target[done + k],
            out@.map_values(view_of) == target.take(done as int),
            f == (|p: (Rank, T)| view_of(p.1)),
        decreases sorted.len(),
    {
        let ghost before = sorted@;
        let ghost out_before = out@;
        let p = sorted.remove(0);
        assert(f(p) == target[done as int]);
        out.push(p.1);
        proof {
            assert forall|k: int| 0 <= k < sorted@.len() implies f(#[trigger] sorted@[k])
                == target[done + 1 + k] by {
                assert(sorted@[k] == before[k + 1]);
            }
            assert(out@.map_values(view_of) =~= out_before.map_values(view_of).push(view_of(p.1)));
            assert(target.take(done + 1) =~= target.take(done as int).push(target[done as int]));
        }
        done = done + 1;
    }
    assert(target.take(total as int) =~= target);
    out
}

} // verus!
