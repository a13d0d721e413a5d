//! Bounded rankings: the `limit` highest-scoring names that were offered.
//!
//! A ranking holds its entries by falling score, and among equal scores
//! the one offered first stands first. A name with score 0 is never taken.
//! A full ranking takes a new name only if its score is above the lowest
//! one held, which then leaves.

use vstd::prelude::*;
use crate::lex::copy_bytes;

verus! {

/// One entry of a ranking, as contracts see it.
pub struct Ranked {
    pub score: u64,
    pub name: Seq<u8>,
}

/// A name with the score it was offered with.
#[derive(Debug)]
pub struct TrackedPath {
    pub size: u64,
    pub path: Vec<u8>,
}

impl View for TrackedPath {
    type V = Ranked;

    open spec fn view(&self) -> Ranked {
        Ranked { score: self.size, name: self.path@ }
    }
}

/// The entries of a vector of tracked names, in its order.
pub open spec fn ranked_seq(items: Seq<TrackedPath>) -> Seq<Ranked> {
    Seq::new(items.len(), |i: int| items[i]@)
}

/// What holds of every ranking of capacity `cap`: at most `cap` entries,
/// no score 0, scores falling.
pub open spec fn ranked_wf(v: Seq<Ranked>, cap: nat) -> bool {
    &&& v.len() <= cap
    &&& forall|i: int| 0 <= i < v.len() ==> (#[trigger] v[i]).score > 0
    &&& forall|i: int, j: int| 0 <= i < j < v.len() ==> (#[trigger] v[i]).score >= (#[trigger] v[j]).score
}

/// Number of entries of `v` whose score is at least `s`.
pub open spec fn count_ge(v: Seq<Ranked>, s: u64) -> nat
    decreases v.len(),
{
    if v.len() == 0 {
        0
    } else if v.last().score >= s {
        count_ge(v.drop_last(), s) + 1
    } else {
        count_ge(v.drop_last(), s)
    }
}

/// `v` with `item` put behind every entry that scores at least as much.
pub open spec fn insert_ranked(v: Seq<Ranked>, item: Ranked) -> Seq<Ranked> {
    v.insert(count_ge(v, item.score) as int, item)
}

/// The ranking `v` of capacity `cap` after `item` was offered to it.
pub open spec fn offer(v: Seq<Ranked>, cap: nat, item: Ranked) -> Seq<Ranked> {
    if item.score == 0 {
        v
    } else if v.len() < cap {
        insert_ranked(v, item)
    } else if v.len() > 0 && v.last().score < item.score {
        insert_ranked(v.drop_last(), item)
    } else {
        v
    }
}

/// The ranking of capacity `cap` to which `items` were offered in turn.
pub open spec fn offer_all(cap: nat, items: Seq<Ranked>) -> Seq<Ranked>
    decreases items.len(),
{
    if items.len() == 0 {
        Seq::empty()
    } else {
        offer(offer_all(cap, items.drop_last()), cap, items.last())
    }
}

/// Number of entries of `items` whose score is not 0.
pub open spec fn count_scored(items: Seq<Ranked>) -> nat
    decreases items.len(),
{
    if items.len() == 0 {
        0
    } else if items.last().score > 0 {
        count_scored(items.drop_last()) + 1
    } else {
        count_scored(items.drop_last())
    }
}

/// In a ranking, the entries that score at least `s` are the first
/// `count_ge` ones.
pub proof fn lemma_count_ge_boundary(v: Seq<Ranked>, s: u64, pos: int)
    requires
        forall|i: int, j: int| 0 <= i < j < v.len() ==> (#[trigger] v[i]).score >= (#[trigger] v[j]).score,
        0 <= pos <= v.len(),
        forall|i: int| 0 <= i < pos ==> (#[trigger] v[i]).score >= s,
        pos < v.len() ==> v[pos].score < s,
    ensures
        count_ge(v, s) == pos,
    decreases v.len(),
{
    if v.len() > 0 {
        let w = v.drop_last();
        if pos == v.len() {
            assert(v[pos - 1].score >= s);
            lemma_count_ge_boundary(w, s, pos - 1);
        } else {
            if pos < v.len() - 1 {
                assert(v[pos].score >= v[v.len() - 1].score);
            }
            lemma_count_ge_boundary(w, s, pos);
        }
    }
}

/// `count_ge` is an index into the ranking, or its length.
pub proof fn lemma_count_ge_bounds(v: Seq<Ranked>, s: u64)
    ensures
        count_ge(v, s) <= v.len(),
    decreases v.len(),
{
    if v.len() > 0 {
        lemma_count_ge_bounds(v.drop_last(), s);
    }
}

/// In a ranking, the entries before `count_ge` score at least `s` and the
/// others less.
pub proof fn lemma_count_ge_splits(v: Seq<Ranked>, s: u64)
    requires
        forall|i: int, j: int| 0 <= i < j < v.len() ==> (#[trigger] v[i]).score >= (#[trigger] v[j]).score,
    ensures
        count_ge(v, s) <= v.len(),
        forall|i: int| 0 <= i < count_ge(v, s) ==> (#[trigger] v[i]).score >= s,
        forall|i: int| count_ge(v, s) <= i < v.len() ==> (#[trigger] v[i]).score < s,
    decreases v.len(),
{
    if v.len() > 0 {
        let w = v.drop_last();
        lemma_count_ge_splits(w, s);
        lemma_count_ge_bounds(w, s);
        let c = count_ge(w, s);
        if v.last().score >= s {
            assert forall|i: int| 0 <= i < v.len() implies (#[trigger] v[i]).score >= s by {
                if i < v.len() - 1 {
                    assert(v[i].score >= v[v.len() - 1].score);
                }
            }
            lemma_count_ge_boundary(w, s, w.len() as int);
        } else {
            assert forall|i: int| 0 <= i < c implies (#[trigger] v[i]).score >= s by {
                assert(w[i].score >= s);
            }
            assert forall|i: int| c <= i < v.len() implies (#[trigger] v[i]).score < s by {
                if i < w.len() {
                    assert(w[i].score < s);
                }
            }
        }
    }
}

/// Putting an entry into a ranking makes it one longer.
pub proof fn lemma_insert_ranked_len(v: Seq<Ranked>, item: Ranked)
    ensures
        insert_ranked(v, item).len() == v.len() + 1,
{
    lemma_count_ge_bounds(v, item.score);
}

/// Putting a scored entry into a ranking with room gives a ranking.
pub proof fn lemma_insert_ranked_wf(v: Seq<Ranked>, cap: nat, item: Ranked)
    requires
        ranked_wf(v, cap),
        v.len() < cap,
        item.score > 0,
    ensures
        ranked_wf(insert_ranked(v, item), cap),
{
    lemma_count_ge_splits(v, item.score);
    let pos = count_ge(v, item.score) as int;
    let w = insert_ranked(v, item);
    assert forall|i: int, j: int| 0 <= i < j < w.len() implies (#[trigger] w[i]).score >= (
    #[trigger] w[j]).score by {
        if i < pos {
            assert(w[i] == v[i]);
            if j > pos {
                assert(w[j] == v[j - 1]);
            }
        } else if i == pos {
            assert(w[j] == v[j - 1]);
        } else {
            assert(w[i] == v[i - 1]);
            assert(w[j] == v[j - 1]);
        }
    }
    assert forall|i: int| 0 <= i < w.len() implies (#[trigger] w[i]).score > 0 by {
        if i < pos {
            assert(w[i] == v[i]);
        } else if i > pos {
            assert(w[i] == v[i - 1]);
        }
    }
}

/// A ranking without its last entry is a ranking.
pub proof fn lemma_drop_last_wf(v: Seq<Ranked>, cap: nat)
    requires
        ranked_wf(v, cap),
        v.len() > 0,
    ensures
        ranked_wf(v.drop_last(), cap),
{
    let w = v.drop_last();
    assert forall|i: int| 0 <= i < w.len() implies (#[trigger] w[i]).score > 0 by {
        assert(w[i] == v[i]);
    }
    assert forall|i: int, j: int| 0 <= i < j < w.len() implies (#[trigger] w[i]).score >= (
    #[trigger] w[j]).score by {
        assert(w[i] == v[i]);
        assert(w[j] == v[j]);
    }
}

/// An offer leaves a ranking a ranking.
pub proof fn lemma_offer_wf(v: Seq<Ranked>, cap: nat, item: Ranked)
    requires
        ranked_wf(v, cap),
    ensures
        ranked_wf(offer(v, cap, item), cap),
        offer(v, cap, item).len() >= v.len(),
{
    if item.score != 0 {
        if v.len() < cap {
            lemma_insert_ranked_wf(v, cap, item);
            lemma_insert_ranked_len(v, item);
        } else if v.len() > 0 && v.last().score < item.score {
            let w = v.drop_last();
            lemma_insert_ranked_len(w, item);
            assert forall|i: int| 0 <= i < w.len() implies (#[trigger] w[i]).score > 0 by {
                assert(w[i] == v[i]);
            }
            assert forall|i: int, j: int| 0 <= i < j < w.len() implies (#[trigger] w[i]).score >= (
            #[trigger] w[j]).score by {
                assert(w[i] == v[i]);
                assert(w[j] == v[j]);
            }
            lemma_insert_ranked_wf(w, cap, item);
        }
    }
}

/// Whatever was offered, the result is a ranking: never more than `cap`
/// entries, none with score 0, scores falling.
pub proof fn law_offers_give_ranking(cap: nat, items: Seq<Ranked>)
    ensures
        ranked_wf(offer_all(cap, items), cap),
    decreases items.len(),
{
    if items.len() > 0 {
        law_offers_give_ranking(cap, items.drop_last());
        lemma_offer_wf(offer_all(cap, items.drop_last()), cap, items.last());
    }
}

/// A ranking holds every scored name offered while there is room: its
/// length is the number of scored offers, or `cap` if that is less.
pub proof fn law_ranking_length(cap: nat, items: Seq<Ranked>)
    ensures
        offer_all(cap, items).len() == if count_scored(items) < cap {
            count_scored(items)
        } else {
            cap
        },
    decreases items.len(),
{
    if items.len() > 0 {
        let prev = offer_all(cap, items.drop_last());
        law_ranking_length(cap, items.drop_last());
        law_offers_give_ranking(cap, items.drop_last());
        lemma_insert_ranked_len(prev, items.last());
        if prev.len() > 0 {
            lemma_insert_ranked_len(prev.drop_last(), items.last());
        }
    }
}

/// Whether the `i`-th of `items` was turned away: the ranking was the same
/// after it as before.
pub open spec fn rejected(cap: nat, items: Seq<Ranked>, i: int) -> bool {
    offer(offer_all(cap, items.take(i)), cap, items[i]) == offer_all(cap, items.take(i))
}

/// A scored name is turned away only by a full ranking, and from then on
/// nothing that scores less is held.
proof fn lemma_rejected_stays_below(cap: nat, items: Seq<Ranked>, i: int)
    requires
        0 <= i < items.len(),
        rejected(cap, items, i),
        items[i].score > 0,
    ensures
        offer_all(cap, items).len() == cap,
        forall|j: int| 0 <= j < offer_all(cap, items).len() ==> (#[trigger] offer_all(cap, items)[j]).score
            >= items[i].score,
    decreases items.len(),
{
    let h = offer_all(cap, items);
    let before = items.drop_last();
    let prev = offer_all(cap, before);
    law_offers_give_ranking(cap, before);
    if i == items.len() - 1 {
        assert(items.take(i) =~= before);
        let item = items[i];
        lemma_insert_ranked_len(prev, item);
        if prev.len() >= cap && prev.len() > 0 && prev.last().score < item.score {
            let w = prev.drop_last();
            lemma_drop_last_wf(prev, cap);
            lemma_count_ge_splits(w, item.score);
            lemma_insert_ranked_len(w, item);
            let pos = count_ge(w, item.score) as int;
            let changed = insert_ranked(w, item);
            assert(changed[pos] == item);
            if pos < w.len() {
                assert(prev[pos] == w[pos]);
                assert(w[pos].score < item.score);
            }
            assert(changed[pos].score != prev[pos].score);
        }
        assert(h == prev);
        assert forall|j: int| 0 <= j < h.len() implies (#[trigger] h[j]).score >= items[i].score by {
            if j < h.len() - 1 {
                assert(h[j].score >= h[h.len() - 1].score);
            }
        }
    } else {
        assert(before.take(i) =~= items.take(i));
        assert(before[i] == items[i]);
        lemma_rejected_stays_below(cap, before, i);
        let item = items.last();
        if item.score != 0 && prev.len() > 0 && prev.last().score < item.score {
            let w = prev.drop_last();
            let pos = count_ge(w, item.score) as int;
            lemma_count_ge_bounds(w, item.score);
            lemma_insert_ranked_len(w, item);
            assert forall|j: int| 0 <= j < h.len() implies (#[trigger] h[j]).score >= items[i].score by {
                if j < pos {
                    assert(h[j] == w[j]);
                    assert(w[j] == prev[j]);
                } else if j > pos {
                    assert(h[j] == w[j - 1]);
                    assert(w[j - 1] == prev[j - 1]);
                } else {
                    assert(prev[prev.len() - 1].score >= items[i].score);
                }
            }
        }
    }
}

/// No name that was offered and turned away scores more than any entry of
/// the ranking: its lowest score is at least the highest rejected one.
pub proof fn law_rejected_not_above_lowest(cap: nat, items: Seq<Ranked>, i: int)
    requires
        0 <= i < items.len(),
        rejected(cap, items, i),
    ensures
        forall|j: int| 0 <= j < offer_all(cap, items).len() ==> (#[trigger] offer_all(cap, items)[j]).score
            >= items[i].score,
{
    if items[i].score > 0 {
        lemma_rejected_stays_below(cap, items, i);
    }
}

/// All scored entries of `items` by falling score, and among equal scores
/// the one offered first before the others.
pub open spec fn sorted_offers(items: Seq<Ranked>) -> Seq<Ranked>
    decreases items.len(),
{
    if items.len() == 0 {
        Seq::empty()
    } else if items.last().score == 0 {
        sorted_offers(items.drop_last())
    } else {
        insert_ranked(sorted_offers(items.drop_last()), items.last())
    }
}

/// The first `cap` entries of `v`; all of it, if it has no more.
pub open spec fn head(v: Seq<Ranked>, cap: nat) -> Seq<Ranked> {
    if v.len() <= cap {
        v
    } else {
        v.take(cap as int)
    }
}

/// The sorted offers are a ranking without a bound.
pub proof fn lemma_sorted_offers_wf(items: Seq<Ranked>)
    ensures
        ranked_wf(sorted_offers(items), items.len()),
    decreases items.len(),
{
    if items.len() > 0 {
        let rest = sorted_offers(items.drop_last());
        lemma_sorted_offers_wf(items.drop_last());
        if items.last().score != 0 {
            assert(ranked_wf(rest, items.len()));
            lemma_insert_ranked_wf(rest, items.len(), items.last());
        }
    }
}

/// An offer to the first `cap` entries of a sorted list gives the first
/// `cap` entries of the list with the offer put in.
#[verifier::rlimit(40)]
pub proof fn lemma_offer_head(s: Seq<Ranked>, cap: nat, x: Ranked)
    requires
        ranked_wf(s, s.len()),
    ensures
        offer(head(s, cap), cap, x) == head(
            if x.score == 0 {
                s
            } else {
                insert_ranked(s, x)
            },
            cap,
        ),
{
    if x.score != 0 {
        let t = head(s, cap);
        let pos = count_ge(s, x.score) as int;
        lemma_count_ge_splits(s, x.score);
        let grown = insert_ranked(s, x);
        lemma_insert_ranked_len(s, x);
        if s.len() >= cap {
            assert(t =~= s.take(cap as int));
            if cap > 0 {
                let last = t[cap - 1];
                assert(last == s[cap - 1]);
                if last.score < x.score {
                    let w = t.drop_last();
                    assert forall|i: int, j: int| 0 <= i < j < w.len() implies (#[trigger] w[i]).score >= (
                    #[trigger] w[j]).score by {
                        assert(w[i] == s[i] && w[j] == s[j]);
                    }
                    assert forall|i: int| 0 <= i < pos implies (#[trigger] w[i]).score >= x.score by {
                        assert(w[i] == s[i]);
                    }
                    if pos < w.len() {
                        assert(w[pos] == s[pos]);
                    }
                    lemma_count_ge_boundary(w, x.score, pos);
                    assert(insert_ranked(w, x) =~= grown.take(cap as int));
                } else {
                    assert(pos >= cap) by {
                        if pos < cap {
                            assert(s[cap - 1].score < x.score);
                        }
                    }
                    assert(grown.take(cap as int) =~= t);
                }
            } else {
                assert(grown.take(0) =~= t);
            }
        }
    }
}

/// A ranking is the head of the sorted offers: it holds the `cap`
/// highest-scoring of all scored names that were offered, by falling
/// score, and among equal scores those offered first.
pub proof fn law_ranking_is_head(cap: nat, items: Seq<Ranked>)
    ensures
        offer_all(cap, items) == head(sorted_offers(items), cap),
    decreases items.len(),
{
    if items.len() > 0 {
        law_ranking_is_head(cap, items.drop_last());
        lemma_sorted_offers_wf(items.drop_last());
        let rest = sorted_offers(items.drop_last());
        assert(ranked_wf(rest, rest.len()));
        lemma_offer_head(rest, cap, items.last());
    }
}

/// Putting an entry into a list adds that entry to it and nothing else.
pub proof fn lemma_insert_ranked_contains(v: Seq<Ranked>, item: Ranked, x: Ranked)
    ensures
        insert_ranked(v, item).contains(x) == (v.contains(x) || x == item),
{
    lemma_count_ge_bounds(v, item.score);
    let pos = count_ge(v, item.score) as int;
    let w = insert_ranked(v, item);
    assert(w[pos] == item);
    if v.contains(x) {
        let i = choose|i: int| 0 <= i < v.len() && v[i] == x;
        if i < pos {
            assert(w[i] == x);
        } else {
            assert(w[i + 1] == x);
        }
    }
    if w.contains(x) && x != item {
        let k = choose|k: int| 0 <= k < w.len() && w[k] == x;
        if k < pos {
            assert(v[k] == x);
        } else {
            assert(v[k - 1] == x);
        }
    }
}

/// The sorted offers hold the scored entries that were offered and
/// nothing else.
pub proof fn lemma_sorted_offers_contains(items: Seq<Ranked>, x: Ranked)
    ensures
        sorted_offers(items).contains(x) == (x.score > 0 && items.contains(x)),
    decreases items.len(),
{
    if items.len() > 0 {
        let rest = items.drop_last();
        lemma_sorted_offers_contains(rest, x);
        lemma_insert_ranked_contains(sorted_offers(rest), items.last(), x);
        if rest.contains(x) {
            let i = choose|i: int| 0 <= i < rest.len() && rest[i] == x;
            assert(items[i] == x);
        }
        if items.contains(x) {
            let i = choose|i: int| 0 <= i < items.len() && items[i] == x;
            if i < rest.len() {
                assert(rest[i] == x);
            }
        }
    }
}

/// No two scored entries have the same score.
pub open spec fn distinct_scores(items: Seq<Ranked>) -> bool {
    forall|i: int, j: int|
        0 <= i < j < items.len() && (#[trigger] items[i]).score > 0
            ==> items[i].score != (#[trigger] items[j]).score
}

/// Scores that fall from each entry to the next.
pub open spec fn strictly_falling(v: Seq<Ranked>) -> bool {
    forall|i: int, j: int| 0 <= i < j < v.len() ==> (#[trigger] v[i]).score > (#[trigger] v[j]).score
}

/// Where no two scored entries have the same score, the scores of the
/// sorted offers fall from each to the next.
#[verifier::rlimit(40)]
pub proof fn lemma_sorted_offers_strict(items: Seq<Ranked>)
    requires
        distinct_scores(items),
    ensures
        strictly_falling(sorted_offers(items)),
    decreases items.len(),
{
    if items.len() > 0 {
        let before = items.drop_last();
        let rest = sorted_offers(before);
        let x = items.last();
        assert forall|i: int, j: int| 0 <= i < j < before.len() && (#[trigger] before[i]).score > 0
            implies before[i].score
            != (#[trigger] before[j]).score by {
            assert(items[i] == before[i] && items[j] == before[j]);
        }
        lemma_sorted_offers_strict(before);
        if x.score != 0 {
            lemma_sorted_offers_wf(before);
            lemma_count_ge_splits(rest, x.score);
            let pos = count_ge(rest, x.score) as int;
            let w = insert_ranked(rest, x);
            assert forall|k: int| 0 <= k < rest.len() implies (#[trigger] rest[k]).score != x.score by {
                lemma_sorted_offers_contains(before, rest[k]);
                assert(rest.contains(rest[k]));
                let i = choose|i: int| 0 <= i < before.len() && before[i] == rest[k];
                assert(items[i] == rest[k]);
                assert(items[items.len() - 1] == x);
            }
            assert forall|i: int, j: int| 0 <= i < j < w.len()
                implies (#[trigger] w[i]).score > (#[trigger] w[j]).score by {
                if j < pos {
                    assert(w[i] == rest[i] && w[j] == rest[j]);
                } else if j == pos {
                    assert(w[i] == rest[i]);
                    assert(rest[i].score >= x.score);
                } else if i < pos {
                    assert(w[i] == rest[i] && w[j] == rest[j - 1]);
                } else if i == pos {
                    assert(w[j] == rest[j - 1]);
                    assert(rest[j - 1].score < x.score);
                } else {
                    assert(w[i] == rest[i - 1] && w[j] == rest[j - 1]);
                }
            }
        }
    }
}

/// Two lists with falling scores that hold the same entries are the same
/// list.
#[verifier::rlimit(40)]
pub proof fn lemma_falling_same_entries(a: Seq<Ranked>, b: Seq<Ranked>)
    requires
        strictly_falling(a),
        strictly_falling(b),
        forall|x: Ranked| #[trigger] a.contains(x) == b.contains(x),
    ensures
        a == b,
    decreases a.len(),
{
    if a.len() == 0 {
        if b.len() > 0 {
            assert(b.contains(b[0]));
            assert(a.contains(b[0]));
        }
        assert(a =~= b);
    } else {
        assert(a.contains(a[0]));
        assert(b.contains(a[0]));
        let j = choose|j: int| 0 <= j < b.len() && b[j] == a[0];
        assert(b.contains(b[0]));
        assert(a.contains(b[0]));
        let i = choose|i: int| 0 <= i < a.len() && a[i] == b[0];
        if j > 0 {
            assert(b[0].score > b[j].score);
            if i > 0 {
                assert(a[0].score > a[i].score);
            }
        }
        assert(a[0] == b[0]);
        let ta = a.skip(1);
        let tb = b.skip(1);
        assert forall|x: Ranked| #[trigger] ta.contains(x) == tb.contains(x) by {
            if ta.contains(x) {
                let k = choose|k: int| 0 <= k < ta.len() && ta[k] == x;
                assert(a[k + 1] == x);
                assert(a[0].score > a[k + 1].score);
                assert(a.contains(x));
                assert(b.contains(x));
                let m = choose|m: int| 0 <= m < b.len() && b[m] == x;
                assert(m > 0);
                assert(tb[m - 1] == x);
            }
            if tb.contains(x) {
                let k = choose|k: int| 0 <= k < tb.len() && tb[k] == x;
                assert(b[k + 1] == x);
                assert(b[0].score > b[k + 1].score);
                assert(b.contains(x));
                assert(a.contains(x));
                let m = choose|m: int| 0 <= m < a.len() && a[m] == x;
                assert(m > 0);
                assert(ta[m - 1] == x);
            }
        }
        assert forall|i: int, j: int| 0 <= i < j < ta.len()
            implies (#[trigger] ta[i]).score > (#[trigger] ta[j]).score by {
            assert(a[i + 1].score > a[j + 1].score);
        }
        assert forall|i: int, j: int| 0 <= i < j < tb.len()
            implies (#[trigger] tb[i]).score > (#[trigger] tb[j]).score by {
            assert(b[i + 1].score > b[j + 1].score);
        }
        lemma_falling_same_entries(ta, tb);
        assert(a =~= seq![a[0]] + ta);
        assert(b =~= seq![b[0]] + tb);
    }
}

/// Where no two scored names have the same score, the ranking does not
/// depend on the order of the offers: two series of offers that hold the
/// same entries give the same ranking.
pub proof fn law_offers_in_any_order(cap: nat, a: Seq<Ranked>, b: Seq<Ranked>)
    requires
        distinct_scores(a),
        distinct_scores(b),
        forall|x: Ranked| #[trigger] a.contains(x) == b.contains(x),
    ensures
        offer_all(cap, a) == offer_all(cap, b),
{
    law_ranking_is_head(cap, a);
    law_ranking_is_head(cap, b);
    lemma_sorted_offers_strict(a);
    lemma_sorted_offers_strict(b);
    assert forall|x: Ranked| #[trigger] sorted_offers(a).contains(x) == sorted_offers(b).contains(x) by {
        lemma_sorted_offers_contains(a, x);
        lemma_sorted_offers_contains(b, x);
        assert(a.contains(x) == b.contains(x));
    }
    lemma_falling_same_entries(sorted_offers(a), sorted_offers(b));
}

/// The scores of the entries of `v`, in its order.
pub open spec fn scores_of(v: Seq<Ranked>) -> Seq<u64> {
    Seq::new(v.len(), |i: int| v[i].score)
}

/// The scores of the scored entries of `items`, each as often as it was
/// offered.
pub open spec fn scored(items: Seq<Ranked>) -> vstd::multiset::Multiset<u64>
    decreases items.len(),
{
    if items.len() == 0 {
        vstd::multiset::Multiset::empty()
    } else if items.last().score == 0 {
        scored(items.drop_last())
    } else {
        scored(items.drop_last()).insert(items.last().score)
    }
}

/// The sorted offers hold the scores of the scored offers, each as often
/// as it was offered.
pub proof fn lemma_sorted_offers_scores(items: Seq<Ranked>)
    ensures
        scores_of(sorted_offers(items)).to_multiset() == scored(items),
    decreases items.len(),
{
    if items.len() == 0 {
        assert(scores_of(sorted_offers(items)) =~= Seq::<u64>::empty());
        Seq::<u64>::empty().to_multiset_ensures();
        assert(Seq::<u64>::empty().to_multiset().len() == 0);
        assert(Seq::<u64>::empty().to_multiset() =~= vstd::multiset::Multiset::<u64>::empty());
    } else {
        lemma_sorted_offers_scores(items.drop_last());
        let x = items.last();
        if x.score != 0 {
            let rest = sorted_offers(items.drop_last());
            lemma_count_ge_bounds(rest, x.score);
            let pos = count_ge(rest, x.score) as int;
            assert(scores_of(insert_ranked(rest, x)) =~= scores_of(rest).insert(pos, x.score));
            vstd::seq_lib::to_multiset_insert(scores_of(rest), pos, x.score);
        }
    }
}

/// The scores of the offers without one of them are those of all, less
/// that one.
pub proof fn lemma_scored_remove(items: Seq<Ranked>, k: int)
    requires
        0 <= k < items.len(),
    ensures
        scored(items) == if items[k].score == 0 {
            scored(items.remove(k))
        } else {
            scored(items.remove(k)).insert(items[k].score)
        },
    decreases items.len(),
{
    if k == items.len() - 1 {
        assert(items.remove(k) =~= items.drop_last());
    } else {
        lemma_scored_remove(items.drop_last(), k);
        assert(items.remove(k).drop_last() =~= items.drop_last().remove(k));
        assert(items.remove(k).last() == items.last());
        assert(items.drop_last()[k] == items[k]);
        let m = scored(items.drop_last().remove(k));
        assert(m.insert(items[k].score).insert(items.last().score) =~= m.insert(items.last().score).insert(
            items[k].score,
        ));
    }
}

/// Offers that are the same but for their order hold the same scores.
pub proof fn lemma_scored_rearranged(a: Seq<Ranked>, b: Seq<Ranked>)
    requires
        a.to_multiset() == b.to_multiset(),
    ensures
        scored(a) == scored(b),
    decreases a.len(),
{
    a.to_multiset_ensures();
    b.to_multiset_ensures();
    if a.len() > 0 {
        let x = a.last();
        let front = a.drop_last();
        assert(front =~= a.remove(a.len() - 1));
        assert(a[a.len() - 1] == x);
        assert(a.contains(x));
        assert(a.to_multiset().count(x) > 0);
        assert(b.to_multiset().count(x) > 0);
        assert(b.contains(x));
        let k = choose|k: int| 0 <= k < b.len() && b[k] == x;
        assert(front.to_multiset() =~= b.remove(k).to_multiset());
        lemma_scored_rearranged(front, b.remove(k));
        lemma_scored_remove(b, k);
    } else {
        assert(b.len() == 0);
    }
}

/// The scores of a ranking do not depend on the order of the offers: two
/// series of the same offers, in any two orders, give rankings with the
/// same scores at the same places. The names may differ, among equal
/// scores only.
pub proof fn law_ranking_scores_in_any_order(cap: nat, a: Seq<Ranked>, b: Seq<Ranked>)
    requires
        a.to_multiset() == b.to_multiset(),
    ensures
        scores_of(offer_all(cap, a)) == scores_of(offer_all(cap, b)),
{
    law_ranking_is_head(cap, a);
    law_ranking_is_head(cap, b);
    let sa = sorted_offers(a);
    let sb = sorted_offers(b);
    lemma_sorted_offers_wf(a);
    lemma_sorted_offers_wf(b);
    lemma_sorted_offers_scores(a);
    lemma_sorted_offers_scores(b);
    lemma_scored_rearranged(a, b);
    let falls = |x: u64, y: u64| x >= y;
    assert(vstd::relations::sorted_by(scores_of(sa), falls)) by {
        assert forall|i: int, j: int| 0 <= i < j < scores_of(sa).len() implies #[trigger] falls(
            scores_of(sa)[i],
            scores_of(sa)[j],
        ) by {
            assert(sa[i].score >= sa[j].score);
        }
    }
    assert(vstd::relations::sorted_by(scores_of(sb), falls)) by {
        assert forall|i: int, j: int| 0 <= i < j < scores_of(sb).len() implies #[trigger] falls(
            scores_of(sb)[i],
            scores_of(sb)[j],
        ) by {
            assert(sb[i].score >= sb[j].score);
        }
    }
    assert(vstd::relations::total_ordering(falls)) by {
        assert(vstd::relations::reflexive(falls));
        assert(vstd::relations::antisymmetric(falls));
        assert(vstd::relations::transitive(falls));
        assert(vstd::relations::strongly_connected(falls));
    }
    vstd::seq_lib::lemma_sorted_unique(scores_of(sa), scores_of(sb), falls);
    assert(scores_of(sa) =~= scores_of(sb));
    assert(sa.len() == sb.len());
    assert forall|i: int| 0 <= i < head(sa, cap).len() implies scores_of(head(sa, cap))[i] == scores_of(
        head(sb, cap),
    )[i] by {
        assert(scores_of(sa)[i] == scores_of(sb)[i]);
    }
    assert(scores_of(head(sa, cap)) =~= scores_of(head(sb, cap)));
}

/// The ranking `top` of capacity `cap` after `items` were offered to it
/// in turn.
pub open spec fn offer_from(top: Seq<Ranked>, cap: nat, items: Seq<Ranked>) -> Seq<Ranked>
    decreases items.len(),
{
    if items.len() == 0 {
        top
    } else {
        offer(offer_from(top, cap, items.drop_last()), cap, items.last())
    }
}

/// Offers made in two parts are offers made in one.
pub proof fn lemma_offer_from_append(top: Seq<Ranked>, cap: nat, x: Seq<Ranked>, y: Seq<Ranked>)
    ensures
        offer_from(top, cap, x + y) == offer_from(offer_from(top, cap, x), cap, y),
    decreases y.len(),
{
    if y.len() == 0 {
        assert(x + y =~= x);
    } else {
        assert((x + y).drop_last() =~= x + y.drop_last());
        assert((x + y).last() == y.last());
        lemma_offer_from_append(top, cap, x, y.drop_last());
    }
}

/// Offers to an empty ranking are what `offer_all` tells of.
pub proof fn lemma_offer_from_empty(cap: nat, items: Seq<Ranked>)
    ensures
        offer_from(Seq::empty(), cap, items) == offer_all(cap, items),
    decreases items.len(),
{
    if items.len() > 0 {
        lemma_offer_from_empty(cap, items.drop_last());
    }
}

/// A bounded ranking of names by score.
#[derive(Debug)]
pub struct TopN {
    items: Vec<TrackedPath>,
    limit: usize,
}

impl View for TopN {
    type V = Seq<Ranked>;

    closed spec fn view(&self) -> Seq<Ranked> {
        ranked_seq(self.items@)
    }
}

impl TopN {
    /// The most entries this ranking holds.
    pub closed spec fn capacity(&self) -> nat {
        self.limit as nat
    }

    /// What every ranking made here satisfies.
    pub open spec fn wf(&self) -> bool {
        ranked_wf(self@, self.capacity())
    }

    /// An empty ranking that holds up to `limit` entries.
    pub fn new(limit: usize) -> (r: TopN)
        ensures
            r.wf(),
            r@ == Seq::<Ranked>::empty(),
            r.capacity() == limit,
    {
        let r = TopN { items: Vec::new(), limit };
        proof {
            assert(r@ =~= Seq::<Ranked>::empty());
        }
        r
    }

    /// The most entries this ranking holds.
    pub fn limit(&self) -> (r: usize)
        ensures
            r == self.capacity(),
    {
        self.limit
    }

    /// Number of entries held.
    pub fn len(&self) -> (r: usize)
        ensures
            r == self@.len(),
    {
        self.items.len()
    }

    /// Whether nothing is held.
    pub fn is_empty(&self) -> (r: bool)
        ensures
            r == (self@.len() == 0),
    {
        self.items.len() == 0
    }

    /// Score of the `i`-th entry, the highest first.
    pub fn score_at(&self, i: usize) -> (r: u64)
        requires
            i < self@.len(),
        ensures
            r == self@[i as int].score,
    {
        self.items[i].size
    }

    /// Name of the `i`-th entry, the highest score first.
    pub fn name_at(&self, i: usize) -> (r: Vec<u8>)
        requires
            i < self@.len(),
        ensures
            r@ == self@[i as int].name,
    {
        copy_bytes(&self.items[i].path)
    }
}

/// Offers the name `p` with score `s` to the ranking.
pub fn track_top_n(heap: &mut TopN, p: &Vec<u8>, s: u64)
    requires
        old(heap).wf(),
    ensures
        final(heap).wf(),
        final(heap).capacity() == old(heap).capacity(),
        final(heap)@ == offer(old(heap)@, old(heap).capacity(), Ranked { score: s, name: p@ }),
{
    let ghost item = Ranked { score: s, name: p@ };
    let ghost v0 = heap@;
    let ghost cap = heap.capacity();
    proof {
        lemma_offer_wf(v0, cap, item);
    }
    if s == 0 {
        return;
    }
    let n = heap.items.len();
    if n >= heap.limit {
        if n == 0 || heap.items[n - 1].size >= s {
            proof {
                if n > 0 {
                    assert(v0.last() == heap.items@[n - 1]@);
                }
            }
            return;
        }
        proof {
            assert(v0.last() == heap.items@[n - 1]@);
        }
        heap.items.pop();
        proof {
            assert(heap@ =~= v0.drop_last());
        }
    }
    let ghost base = heap@;
    let mut pos: usize = 0;
    while pos < heap.items.len() && heap.items[pos].size >= s
        invariant
            pos <= heap.items.len(),
            base == heap@,
            forall|i: int| 0 <= i < pos ==> (#[trigger] base[i]).score >= s,
        decreases heap.items.len() - pos,
    {
        pos = pos + 1;
    }
    proof {
        assert forall|i: int, j: int| 0 <= i < j < base.len() implies (#[trigger] base[i]).score >= (
        #[trigger] base[j]).score by {
            assert(base[i] == v0[i]);
            assert(base[j] == v0[j]);
        }
        if pos < base.len() {
            assert(base[pos as int] == heap.items@[pos as int]@);
        }
        lemma_count_ge_boundary(base, s, pos as int);
    }
    let path = copy_bytes(p);
    heap.items.insert(pos, TrackedPath { size: s, path });
    proof {
        assert(heap@ =~= insert_ranked(base, item));
    }
}

/// The entries of the ranking, the highest score first.
pub fn to_sort_vec(heap: &TopN) -> (v: Vec<TrackedPath>)
    ensures
        ranked_seq(v@) == heap@,
{
    let mut v: Vec<TrackedPath> = Vec::with_capacity(heap.items.len());
    let mut i: usize = 0;
    while i < heap.items.len()
        invariant
            i <= heap.items.len(),
            v.len() == i,
            forall|j: int| 0 <= j < i ==> (#[trigger] v@[j])@ == heap.items@[j]@,
        decreases heap.items.len() - i,
    {
        let path = copy_bytes(&heap.items[i].path);
        v.push(TrackedPath { size: heap.items[i].size, path });
        i = i + 1;
    }
    proof {
        assert(ranked_seq(v@) =~= heap@);
    }
    v
}

} // verus!
