//! The fetch scheduler: selects the single most stale tracked article, stamps
//! its attempt time before any fetch begins, and commits a new snapshot only
//! when the fetched content's canonical text changed.
//!
//! The cycle is split around the network fetch, which the caller performs:
//! `select_and_stamp` covers selection and the ledger stamp, `record_fetched`
//! covers comparison and commit.  When the fetch fails the caller simply does
//! not call `record_fetched`; the stamp already stands, so the article waits
//! its turn again instead of retrying in a tight loop.

use vstd::prelude::*;

verus! {

use vstd::set_lib::{set_int_range, lemma_int_range, lemma_len_subset};
use crate::store::{Store, Article, ArticleView, SnapshotView, staler, youngest, sorted_by_staleness, lemma_sorted_by_staleness_props};
use crate::canonical::{spec_canonicalize, compare_article_fulltext, join_lines};
use crate::detect::spec_has_changed;
use crate::text::{chars_of, string_of};

/// The index the scheduler selects: the article with the smallest attempt
/// stamp, ties broken towards the lower article id (the earlier position).
pub open spec fn min_index(s: Seq<ArticleView>) -> int
    decreases s.len(),
{
    if s.len() <= 1 {
        0
    } else {
        let m = min_index(s.drop_last());
        if staler(s.last(), s[m]) {
            s.len() - 1
        } else {
            m
        }
    }
}

/// The selected index is in range and no article is staler than it.
pub proof fn lemma_min_index(s: Seq<ArticleView>)
    requires
        s.len() > 0,
    ensures
        0 <= min_index(s) < s.len(),
        forall|j: int| 0 <= j < s.len() ==> !staler(#[trigger] s[j], s[min_index(s)]),
    decreases s.len(),
{
    if s.len() > 1 {
        let d = s.drop_last();
        let md = min_index(d);
        let m = min_index(s);
        lemma_min_index(d);
        assert(forall|j: int| 0 <= j < s.len() - 1 ==> #[trigger] d[j] == s[j]);
        assert forall|j: int| 0 <= j < s.len() implies !staler(#[trigger] s[j], s[m]) by {
            if staler(s.last(), s[md]) {
                assert(m == s.len() - 1);
                if j < s.len() - 1 {
                    assert(!staler(d[j], d[md]));
                    assert(d[j] == s[j] && d[md] == s[md]);
                    assert(staler(s[m], s[md]));
                }
            } else {
                assert(m == md);
                if j < s.len() - 1 {
                    assert(!staler(d[j], d[md]));
                    assert(d[j] == s[j] && d[md] == s[md]);
                }
            }
        }
    }
}

/// The articles after the scheduler stamps position `i` with time `t`.
pub open spec fn stamp_at(s: Seq<ArticleView>, i: int, t: int) -> Seq<ArticleView> {
    s.update(i, ArticleView { updated_at: t, ..s[i] })
}

/// Selects the single most stale article and immediately stamps its
/// `updated_at` with the current time, before any fetch begins.  Returns the
/// selected article as it stood before the stamp, or `None` when no articles
/// are registered.  Snapshots are never touched: even if everything after
/// selection fails, the stamp stands.
pub fn select_and_stamp(store: &mut Store, now: i32) -> (r: Option<Article>)
    requires
        old(store).wf(),
    ensures
        final(store).wf(),
        final(store)@.snapshots == old(store)@.snapshots,
        (r is None) <==> old(store)@.articles.len() == 0,
        old(store)@.articles.len() == 0 ==> final(store)@ == old(store)@,
        old(store)@.articles.len() > 0 ==> {
            let arts = old(store)@.articles;
            let m = min_index(arts);
            &&& r matches Option::Some(a) && a@ == arts[m]
            &&& final(store)@.articles == stamp_at(arts, m, now as int)
        },
{
    let ghost arts = store@.articles;
    let n = store.articles.len();
    if n == 0 {
        return Option::None;
    }
    let mut cand: usize = 0;
    let mut j: usize = 1;
    proof {
        assert(arts.subrange(0, 1).drop_last() =~= arts.subrange(0, 0));
        assert(arts.subrange(0, 0).len() == 0);
    }
    while j < n
        invariant
            1 <= j <= n,
            cand < j,
            n == store@.articles.len(),
            arts == store@.articles,
            cand as int == min_index(arts.subrange(0, j as int)),
        decreases n - j,
    {
        proof {
            let upto = arts.subrange(0, j as int + 1);
            assert(upto.drop_last() =~= arts.subrange(0, j as int));
            assert(upto.last() == arts[j as int]);
            assert(upto[cand as int] == arts.subrange(0, j as int)[cand as int]);
            assert(store@.articles[j as int] == store.articles@[j as int]@);
            assert(store@.articles[cand as int] == store.articles@[cand as int]@);
        }
        if crate::store::staler_exec(&store.articles[j], &store.articles[cand]) {
            cand = j;
        }
        j = j + 1;
    }
    proof {
        assert(arts.subrange(0, n as int) =~= arts);
        lemma_min_index(arts);
        assert(store@.articles[cand as int] == store.articles@[cand as int]@);
    }
    let src = &store.articles[cand];
    let selected = Article {
        url: src.url.clone(),
        article_id: src.article_id,
        updated_at: src.updated_at,
    };
    let stamped = Article { url: src.url.clone(), article_id: src.article_id, updated_at: now };
    let ghost old_arts = store@.articles;
    store.articles.set(cand, stamped);
    proof {
        assert(store@.articles =~= stamp_at(old_arts, cand as int, now as int));
        assert(store@.snapshots =~= old(store)@.snapshots);
    }
    Option::Some(selected)
}

/// The canonical text of the most recent stored snapshot of article `id`,
/// when one exists.
pub open spec fn prev_canonical(snaps: Seq<SnapshotView>, id: int) -> Option<Seq<char>> {
    match youngest(snaps, id) {
        Option::None => Option::None,
        Option::Some(s) => Option::Some(spec_canonicalize(s.html)),
    }
}

/// Compares fetched content against the most recent stored snapshot and
/// appends a new snapshot exactly when the canonical text changed (always,
/// when no snapshot exists yet).  The attempt stamp is not touched here: a
/// cycle that appends nothing still counts as an attempt.
pub fn record_fetched(store: &mut Store, article: &Article, now: i32, html: &str) -> (appended:
    bool)
    requires
        old(store).wf(),
        1 <= article@.article_id <= old(store)@.articles.len(),
        old(store)@.snapshots.len() < 0x7fff_ffff,
    ensures
        final(store).wf(),
        final(store)@.articles == old(store)@.articles,
        appended == spec_has_changed(
            prev_canonical(old(store)@.snapshots, article@.article_id),
            spec_canonicalize(html@),
        ),
        appended ==> final(store)@.snapshots == old(store)@.snapshots.push(
            SnapshotView {
                article_id: article@.article_id,
                snapshot_id: old(store)@.snapshots.len() as int + 1,
                archived_at: now as int,
                html: html@,
            },
        ),
        !appended ==> final(store)@.snapshots == old(store)@.snapshots,
{
    let prev = store.get_youngest_snaphot(article);
    let changed = match &prev {
        Option::None => true,
        Option::Some(p) => !compare_article_fulltext(p.html.as_str(), html),
    };
    if changed {
        store.insert_snapshot(article, now, html);
    }
    changed
}

/// With no prior snapshot, any fetched content counts as changed, so the
/// first fetch always records a snapshot.
pub proof fn lemma_first_snapshot_recorded(snaps: Seq<SnapshotView>, id: int, next: Seq<char>)
    requires
        youngest(snaps, id) is None,
    ensures
        spec_has_changed(prev_canonical(snaps, id), next),
{
}

/// Content that canonicalizes to the most recent snapshot's canonical text
/// does not count as changed, so nothing is appended for it.
pub proof fn lemma_unchanged_content_not_recorded(
    snaps: Seq<SnapshotView>,
    id: int,
    html: Seq<char>,
)
    requires
        youngest(snaps, id) matches Option::Some(p) && spec_canonicalize(p.html)
            == spec_canonicalize(html),
    ensures
        !spec_has_changed(prev_canonical(snaps, id), spec_canonicalize(html)),
{
}

/// The indices the scheduler selects over consecutive cycles run at the given
/// times: each cycle picks the most stale article and stamps it with that
/// cycle's time.
pub open spec fn selection_order(s: Seq<ArticleView>, times: Seq<int>) -> Seq<int>
    decreases times.len(),
{
    if times.len() == 0 || s.len() == 0 {
        Seq::empty()
    } else {
        let m = min_index(s);
        seq![m] + selection_order(stamp_at(s, m, times[0]), times.subrange(1, times.len() as int))
    }
}

proof fn lemma_fairness_rec(s: Seq<ArticleView>, times: Seq<int>, picked: Set<int>)
    requires
        picked.finite(),
        forall|i: int| picked.contains(i) ==> 0 <= i < s.len(),
        picked.len() + times.len() == s.len(),
        forall|i: int, j: int|
            0 <= i < j < s.len() ==> s[i].updated_at != s[j].updated_at,
        forall|k: int, l: int| 0 <= k < l < times.len() ==> times[k] < times[l],
        forall|i: int, k: int|
            0 <= i < s.len() && 0 <= k < times.len() ==> #[trigger] s[i].updated_at < #[trigger] times[k],
        forall|i: int, j: int|
            picked.contains(i) && 0 <= j < s.len() && !picked.contains(j) ==> s[j].updated_at
                < s[i].updated_at,
    ensures
        selection_order(s, times).len() == times.len(),
        selection_order(s, times).no_duplicates(),
        forall|i: int|
            0 <= i < s.len() && !picked.contains(i) ==> selection_order(s, times).contains(i),
        forall|k: int|
            0 <= k < selection_order(s, times).len() ==> 0 <= #[trigger] selection_order(s, times)[k]
                < s.len() && !picked.contains(selection_order(s, times)[k]),
    decreases times.len(),
{
    let sel = selection_order(s, times);
    if times.len() == 0 {
        let all = set_int_range(0, s.len() as int);
        lemma_int_range(0, s.len() as int);
        assert forall|i: int| 0 <= i < s.len() implies picked.contains(i) by {
            if !picked.contains(i) {
                assert(picked.subset_of(all.remove(i)));
                assert(all.remove(i).len() == all.len() - 1);
                lemma_len_subset(picked, all.remove(i));
            }
        }
    } else {
        assert(s.len() > 0);
        let m = min_index(s);
        lemma_min_index(s);
        let all = set_int_range(0, s.len() as int);
        lemma_int_range(0, s.len() as int);
        // the selected article is one not picked before: picked articles
        // carry fresher stamps than every unpicked one, and some article is
        // still unpicked
        assert(!picked.contains(m)) by {
            if picked.contains(m) {
                assert(exists|j: int| 0 <= j < s.len() && !picked.contains(j)) by {
                    if forall|j: int| 0 <= j < s.len() ==> #[trigger] picked.contains(j) {
                        assert(all.subset_of(picked));
                        lemma_len_subset(all, picked);
                    }
                }
                let j = choose|j: int| 0 <= j < s.len() && !picked.contains(j);
                assert(s[j].updated_at < s[m].updated_at);
                assert(staler(s[j], s[m]));
            }
        }
        let t0 = times[0];
        let s2 = stamp_at(s, m, t0);
        let times2 = times.subrange(1, times.len() as int);
        let picked2 = picked.insert(m);
        assert(picked2.len() == picked.len() + 1);
        assert(forall|i: int| 0 <= i < s.len() && i != m ==> #[trigger] s2[i] == s[i]);
        assert(s2[m].updated_at == t0);
        lemma_fairness_rec(s2, times2, picked2);
        let sel2 = selection_order(s2, times2);
        assert(sel == seq![m] + sel2);
        assert(sel[0] == m);
        assert(forall|k: int| 0 <= k < sel2.len() ==> #[trigger] sel[k + 1] == sel2[k]);
        assert(forall|k: int|
            0 <= k < sel2.len() ==> 0 <= #[trigger] sel2[k] < s.len() && !picked2.contains(
                sel2[k],
            ));
        assert forall|k: int, l: int| 0 <= k < l < sel.len() implies sel[k] != sel[l] by {
            if k == 0 {
                assert(sel[l] == sel2[l - 1]);
                assert(!picked2.contains(sel2[l - 1]));
            } else {
                assert(sel[k] == sel2[k - 1] && sel[l] == sel2[l - 1]);
            }
        }
        assert(sel.no_duplicates());
        assert forall|i: int| 0 <= i < s.len() && !picked.contains(i) implies sel.contains(i) by {
            if i == m {
                assert(sel[0] == i);
            } else {
                assert(!picked2.contains(i));
                assert(sel2.contains(i));
                let k = choose|k: int| 0 <= k < sel2.len() && sel2[k] == i;
                assert(sel[k + 1] == i);
            }
        }
    }
}

/// Staleness fairness: with distinct attempt stamps and one cycle per tick at
/// strictly increasing times that lie after every current stamp, a run of as
/// many cycles as there are articles selects every article exactly once.
pub proof fn lemma_staleness_fairness(s: Seq<ArticleView>, times: Seq<int>)
    requires
        times.len() == s.len(),
        forall|i: int, j: int|
            0 <= i < j < s.len() ==> s[i].updated_at != s[j].updated_at,
        forall|k: int, l: int| 0 <= k < l < times.len() ==> times[k] < times[l],
        forall|i: int, k: int|
            0 <= i < s.len() && 0 <= k < times.len() ==> #[trigger] s[i].updated_at < #[trigger] times[k],
    ensures
        selection_order(s, times).len() == s.len(),
        selection_order(s, times).no_duplicates(),
        forall|i: int| 0 <= i < s.len() ==> selection_order(s, times).contains(i),
{
    assert(Set::<int>::empty().len() == 0);
    lemma_fairness_rec(s, times, Set::empty());
    assert forall|i: int| 0 <= i < s.len() implies selection_order(s, times).contains(i) by {
        assert(!Set::<int>::empty().contains(i));
    }
}

/// The article the scheduler stamps is exactly the head of the
/// staleness-ordered listing: selecting the most stale article and asking
/// for the single most outdated one agree.
pub proof fn lemma_selection_heads_the_order(s: Seq<ArticleView>)
    requires
        s.len() > 0,
        forall|i: int, j: int| 0 <= i < j < s.len() ==> s[i].article_id != s[j].article_id,
    ensures
        sorted_by_staleness(s)[0] == s[min_index(s)],
{
    let out = sorted_by_staleness(s);
    lemma_sorted_by_staleness_props(s);
    lemma_min_index(s);
    let m = min_index(s);
    assert(s.contains(out[0]));
    let k = choose|k: int| 0 <= k < s.len() && s[k] == out[0];
    assert(out.contains(s[m]));
    let w = choose|w: int| 0 <= w < out.len() && out[w] == s[m];
    assert(!staler(s[k], s[m]));
    if w > 0 {
        assert(!staler(out[w], out[0]));
    }
    assert(!staler(s[m], s[k]));
    if k != m {
        assert(s[k].article_id != s[m].article_id);
    }
}

/// The urls of the given articles joined with newlines, the text the url dump
/// prints.
pub fn dump_article_urls(articles: &Vec<Article>) -> (r: String)
    ensures
        r@ == join_lines(articles@.map_values(|a: Article| a@.url)),
{
    let ghost urls = articles@.map_values(|a: Article| a@.url);
    let n = articles.len();
    let mut pieces: Vec<Vec<char>> = Vec::new();
    let mut i: usize = 0;
    proof {
        assert(pieces@.map_values(|p: Vec<char>| p@) =~= urls.subrange(0, 0));
    }
    while i < n
        invariant
            i <= n,
            n == articles@.len(),
            urls == articles@.map_values(|a: Article| a@.url),
            pieces@.map_values(|p: Vec<char>| p@) == urls.subrange(0, i as int),
        decreases n - i,
    {
        let ghost old_pieces = pieces@;
        pieces.push(chars_of(articles[i].url.as_str()));
        proof {
            let f = |p: Vec<char>| p@;
            assert(urls[i as int] == articles@[i as int]@.url);
            assert(pieces@.map_values(f) =~= old_pieces.map_values(f).push(urls[i as int]));
            assert(urls.subrange(0, i as int).push(urls[i as int]) =~= urls.subrange(
                0,
                i as int + 1,
            ));
        }
        i = i + 1;
    }
    proof {
        assert(urls.subrange(0, n as int) =~= urls);
    }
    let joined = crate::canonical::join(&pieces);
    string_of(&joined)
}

} // verus!
