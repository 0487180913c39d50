//! The article/snapshot store and its freshness ledger, modelled in memory.
//!
//! Articles are identified by their url; each carries the `updated_at` stamp
//! of its last fetch attempt.  Snapshots form an append-only history per
//! article.  Identifiers are assigned in insertion order, starting at 1, and
//! are never reused, so an article's (or snapshot's) id always equals its
//! position in the store plus one.

use vstd::prelude::*;

verus! {

use crate::text::str_eq;

/// A tracked article: its url (unique within the store), its id, and the
/// stamp of the last fetch attempt.
#[derive(Debug, Clone)]
pub struct Article {
    pub url: String,
    pub article_id: i32,
    pub updated_at: i32,
}

/// The mathematical shape of an article.
pub struct ArticleView {
    pub url: Seq<char>,
    pub article_id: int,
    pub updated_at: int,
}

impl View for Article {
    type V = ArticleView;

    open spec fn view(&self) -> ArticleView {
        ArticleView { url: self.url@, article_id: self.article_id as int, updated_at: self.updated_at as int }
    }
}

/// The metadata of a snapshot: everything but the captured content.
#[derive(Debug, Clone)]
pub struct SnapshotMetadata {
    pub article_id: i32,
    pub snapshot_id: i32,
    pub archived_at: i32,
}

/// The mathematical shape of snapshot metadata.
pub struct SnapshotMetadataView {
    pub article_id: int,
    pub snapshot_id: int,
    pub archived_at: int,
}

impl View for SnapshotMetadata {
    type V = SnapshotMetadataView;

    open spec fn view(&self) -> SnapshotMetadataView {
        SnapshotMetadataView {
            article_id: self.article_id as int,
            snapshot_id: self.snapshot_id as int,
            archived_at: self.archived_at as int,
        }
    }
}

/// An immutable, timestamped capture of an article's raw fetched content.
#[derive(Debug, Clone)]
pub struct Snapshot {
    pub article_id: i32,
    pub snapshot_id: i32,
    pub archived_at: i32,
    pub html: String,
}

/// The mathematical shape of a snapshot.
pub struct SnapshotView {
    pub article_id: int,
    pub snapshot_id: int,
    pub archived_at: int,
    pub html: Seq<char>,
}

impl View for Snapshot {
    type V = SnapshotView;

    open spec fn view(&self) -> SnapshotView {
        SnapshotView {
            article_id: self.article_id as int,
            snapshot_id: self.snapshot_id as int,
            archived_at: self.archived_at as int,
            html: self.html@,
        }
    }
}

/// The metadata of a snapshot.
pub open spec fn meta_of(s: SnapshotView) -> SnapshotMetadataView {
    SnapshotMetadataView { article_id: s.article_id, snapshot_id: s.snapshot_id, archived_at: s.archived_at }
}

/// The in-memory model of the persistent store: the tracked articles and
/// their append-only snapshot history.
pub struct Store {
    pub articles: Vec<Article>,
    pub snapshots: Vec<Snapshot>,
}

/// The mathematical shape of the store.
pub struct StoreView {
    pub articles: Seq<ArticleView>,
    pub snapshots: Seq<SnapshotView>,
}

impl View for Store {
    type V = StoreView;

    open spec fn view(&self) -> StoreView {
        StoreView {
            articles: self.articles@.map_values(|a: Article| a@),
            snapshots: self.snapshots@.map_values(|s: Snapshot| s@),
        }
    }
}

/// Whether some article of `arts` has the url `url`.
pub open spec fn has_url(arts: Seq<ArticleView>, url: Seq<char>) -> bool {
    exists|i: int| 0 <= i < arts.len() && (#[trigger] arts[i]).url == url
}

impl Store {
    /// The store's invariant: ids equal position plus one (so they are unique
    /// and assigned in insertion order), urls are unique, and every snapshot
    /// belongs to a tracked article.
    pub open spec fn wf(&self) -> bool {
        &&& forall|i: int| 0 <= i < self@.articles.len() ==> #[trigger] self@.articles[i].article_id == i + 1
        &&& forall|i: int, j: int|
            0 <= i < j < self@.articles.len() ==> self@.articles[i].url != self@.articles[j].url
        &&& forall|k: int|
            0 <= k < self@.snapshots.len() ==> #[trigger] self@.snapshots[k].snapshot_id == k + 1
        &&& forall|k: int|
            0 <= k < self@.snapshots.len() ==> 1 <= #[trigger] self@.snapshots[k].article_id
                <= self@.articles.len()
    }

    /// An empty store, the state the schema setup leaves behind.
    pub fn new() -> (r: Store)
        ensures
            r.wf(),
            r@.articles == Seq::<ArticleView>::empty(),
            r@.snapshots == Seq::<SnapshotView>::empty(),
    {
        let r = Store { articles: Vec::new(), snapshots: Vec::new() };
        proof {
            assert(r@.articles =~= Seq::<ArticleView>::empty());
            assert(r@.snapshots =~= Seq::<SnapshotView>::empty());
        }
        r
    }

    /// Idempotently ensures an article exists for `url` and returns it: a
    /// no-op returning the already tracked article when the url is present,
    /// otherwise an append with a fresh id and a never-attempted stamp of 0.
    pub fn insert_article(&mut self, url: &str) -> (a: Article)
        requires
            old(self).wf(),
            old(self)@.articles.len() < 0x7fff_ffff,
        ensures
            final(self).wf(),
            a@.url == url@,
            final(self)@.snapshots == old(self)@.snapshots,
            has_url(old(self)@.articles, url@) ==> final(self)@ == old(self)@ && exists|i: int|
                0 <= i < final(self)@.articles.len() && #[trigger] final(self)@.articles[i] == a@,
            !has_url(old(self)@.articles, url@) ==> {
                &&& a@.article_id == old(self)@.articles.len() + 1
                &&& a@.updated_at == 0
                &&& final(self)@.articles == old(self)@.articles.push(a@)
            },
    {
        let n = self.articles.len();
        let mut i: usize = 0;
        while i < n
            invariant
                i <= n,
                n == self@.articles.len(),
                old(self).wf(),
                self@ == old(self)@,
                forall|j: int| 0 <= j < i ==> #[trigger] self@.articles[j].url != url@,
            decreases n - i,
        {
            if str_eq(self.articles[i].url.as_str(), url) {
                let found = Article {
                    url: self.articles[i].url.clone(),
                    article_id: self.articles[i].article_id,
                    updated_at: self.articles[i].updated_at,
                };
                proof {
                    assert(self@.articles[i as int] == self.articles@[i as int]@);
                    assert(has_url(old(self)@.articles, url@));
                }
                return found;
            }
            i = i + 1;
        }
        let a = Article {
            url: url.to_owned(),
            article_id: (n as i32) + 1,
            updated_at: 0,
        };
        let ghost old_view = self@.articles;
        self.articles.push(
            Article { url: a.url.clone(), article_id: a.article_id, updated_at: a.updated_at },
        );
        proof {
            assert(self@.articles =~= old_view.push(a@));
            assert(self@.snapshots =~= old(self)@.snapshots);
        }
        a
    }

    /// Sets the attempt stamp of the article with the given url; a no-op when
    /// no article has that url.
    pub fn update_article(&mut self, url: &str, updated_at: i32)
        requires
            old(self).wf(),
        ensures
            final(self).wf(),
            final(self)@.snapshots == old(self)@.snapshots,
            !has_url(old(self)@.articles, url@) ==> final(self)@ == old(self)@,
            has_url(old(self)@.articles, url@) ==> exists|i: int|
                {
                    &&& 0 <= i < old(self)@.articles.len()
                    &&& #[trigger] old(self)@.articles[i].url == url@
                    &&& final(self)@.articles == old(self)@.articles.update(
                        i,
                        ArticleView {
                            updated_at: updated_at as int,
                            ..old(self)@.articles[i]
                        },
                    )
                },
    {
        let n = self.articles.len();
        let mut i: usize = 0;
        while i < n
            invariant
                i <= n,
                n == self@.articles.len(),
                old(self).wf(),
                self@ == old(self)@,
                forall|j: int| 0 <= j < i ==> #[trigger] self@.articles[j].url != url@,
            decreases n - i,
        {
            if str_eq(self.articles[i].url.as_str(), url) {
                let ghost old_view = self@.articles;
                let stamped = Article {
                    url: self.articles[i].url.clone(),
                    article_id: self.articles[i].article_id,
                    updated_at,
                };
                self.articles.set(i, stamped);
                proof {
                    assert(self@.articles =~= old_view.update(
                        i as int,
                        ArticleView { updated_at: updated_at as int, ..old_view[i as int] },
                    ));
                    assert(self@.snapshots =~= old(self)@.snapshots);
                }
                return ;
            }
            i = i + 1;
        }
    }

    /// The tracked article with the given url, if any.
    pub fn get_article(&self, url: &str) -> (r: Option<Article>)
        requires
            self.wf(),
        ensures
            match r {
                Option::None => !has_url(self@.articles, url@),
                Option::Some(a) => a@.url == url@ && exists|i: int|
                    0 <= i < self@.articles.len() && #[trigger] self@.articles[i] == a@,
            },
    {
        let n = self.articles.len();
        let mut i: usize = 0;
        while i < n
            invariant
                i <= n,
                n == self@.articles.len(),
                forall|j: int| 0 <= j < i ==> #[trigger] self@.articles[j].url != url@,
            decreases n - i,
        {
            if str_eq(self.articles[i].url.as_str(), url) {
                let found = Article {
                    url: self.articles[i].url.clone(),
                    article_id: self.articles[i].article_id,
                    updated_at: self.articles[i].updated_at,
                };
                proof {
                    assert(self@.articles[i as int] == self.articles@[i as int]@);
                }
                return Option::Some(found);
            }
            i = i + 1;
        }
        Option::None
    }
}


/// The metadata of the snapshots of article `id`, in insertion order.
pub open spec fn metas_for(snaps: Seq<SnapshotView>, id: int) -> Seq<SnapshotMetadataView>
    decreases snaps.len(),
{
    if snaps.len() == 0 {
        Seq::empty()
    } else {
        metas_for(snaps.drop_last(), id) + (if snaps.last().article_id == id {
            seq![meta_of(snaps.last())]
        } else {
            Seq::empty()
        })
    }
}

/// The most recent snapshot of article `id`: the one with the greatest
/// `archived_at`, ties resolved towards the latest appended.
pub open spec fn youngest(snaps: Seq<SnapshotView>, id: int) -> Option<SnapshotView>
    decreases snaps.len(),
{
    if snaps.len() == 0 {
        Option::None
    } else {
        let r = youngest(snaps.drop_last(), id);
        let l = snaps.last();
        if l.article_id == id && (r is None || l.archived_at >= r->0.archived_at) {
            Option::Some(l)
        } else {
            r
        }
    }
}

impl Store {
    /// Appends an immutable snapshot of the article's raw fetched content,
    /// with a fresh id.
    pub fn insert_snapshot(&mut self, article: &Article, archived_at: i32, html: &str)
        requires
            old(self).wf(),
            1 <= article@.article_id <= old(self)@.articles.len(),
            old(self)@.snapshots.len() < 0x7fff_ffff,
        ensures
            final(self).wf(),
            final(self)@.articles == old(self)@.articles,
            final(self)@.snapshots == old(self)@.snapshots.push(
                SnapshotView {
                    article_id: article@.article_id,
                    snapshot_id: old(self)@.snapshots.len() as int + 1,
                    archived_at: archived_at as int,
                    html: html@,
                },
            ),
    {
        let n = self.snapshots.len();
        let s = Snapshot {
            article_id: article.article_id,
            snapshot_id: (n as i32) + 1,
            archived_at,
            html: html.to_owned(),
        };
        let ghost old_snaps = self@.snapshots;
        self.snapshots.push(s);
        proof {
            assert(self@.snapshots =~= old_snaps.push(
                SnapshotView {
                    article_id: article@.article_id,
                    snapshot_id: old_snaps.len() as int + 1,
                    archived_at: archived_at as int,
                    html: html@,
                },
            ));
            assert(self@.articles =~= old(self)@.articles);
        }
    }

    /// The snapshot with the given id, if any.
    pub fn get_snaphot(&self, id: i32) -> (r: Option<Snapshot>)
        requires
            self.wf(),
        ensures
            match r {
                Option::Some(s) => 1 <= id as int <= self@.snapshots.len() && s@ == self@.snapshots[id
                    - 1],
                Option::None => !(1 <= id as int <= self@.snapshots.len()),
            },
    {
        if id >= 1 && (id as usize) <= self.snapshots.len() {
            let k = (id as usize) - 1;
            let s = &self.snapshots[k];
            let copy = Snapshot {
                article_id: s.article_id,
                snapshot_id: s.snapshot_id,
                archived_at: s.archived_at,
                html: s.html.clone(),
            };
            proof {
                assert(self@.snapshots[k as int] == self.snapshots@[k as int]@);
            }
            Option::Some(copy)
        } else {
            Option::None
        }
    }

    /// The metadata of every snapshot of the given article, in insertion
    /// order.
    pub fn get_snaphot_metadatas_from_article(&self, article: &Article) -> (r: Vec<
        SnapshotMetadata,
    >)
        requires
            self.wf(),
        ensures
            r@.map_values(|m: SnapshotMetadata| m@) == metas_for(
                self@.snapshots,
                article@.article_id,
            ),
    {
        let ghost snaps = self@.snapshots;
        let ghost id = article@.article_id;
        let n = self.snapshots.len();
        let mut r: Vec<SnapshotMetadata> = Vec::new();
        let mut k: usize = 0;
        proof {
            assert(snaps.subrange(0, 0) =~= Seq::<SnapshotView>::empty());
            assert(r@.map_values(|m: SnapshotMetadata| m@) =~= Seq::<SnapshotMetadataView>::empty());
        }
        while k < n
            invariant
                k <= n,
                n == self@.snapshots.len(),
                snaps == self@.snapshots,
                id == article@.article_id,
                r@.map_values(|m: SnapshotMetadata| m@) == metas_for(snaps.subrange(0, k as int), id),
            decreases n - k,
        {
            let ghost old_r = r@;
            let s = &self.snapshots[k];
            proof {
                assert(self@.snapshots[k as int] == self.snapshots@[k as int]@);
                let upto = snaps.subrange(0, k as int + 1);
                assert(upto.drop_last() =~= snaps.subrange(0, k as int));
                assert(upto.last() == snaps[k as int]);
            }
            if s.article_id == article.article_id {
                let m = SnapshotMetadata {
                    article_id: s.article_id,
                    snapshot_id: s.snapshot_id,
                    archived_at: s.archived_at,
                };
                r.push(m);
                proof {
                    let f = |m: SnapshotMetadata| m@;
                    let last = r@.last();
                    assert(r@.map_values(f) =~= old_r.map_values(f) + seq![last@]);
                }
            } else {
                proof {
                    assert(metas_for(snaps.subrange(0, k as int + 1), id) =~= metas_for(
                        snaps.subrange(0, k as int),
                        id,
                    ));
                }
            }
            k = k + 1;
        }
        proof {
            assert(snaps.subrange(0, n as int) =~= snaps);
        }
        r
    }

    /// The most recent snapshot of the given article, if it has any: greatest
    /// `archived_at`, ties resolved towards the latest appended.
    pub fn get_youngest_snaphot(&self, article: &Article) -> (r: Option<Snapshot>)
        requires
            self.wf(),
        ensures
            match r {
                Option::Some(s) => youngest(self@.snapshots, article@.article_id) == Option::Some(
                    s@,
                ),
                Option::None => youngest(self@.snapshots, article@.article_id) is None,
            },
    {
        let ghost snaps = self@.snapshots;
        let ghost id = article@.article_id;
        let n = self.snapshots.len();
        let mut best: Option<Snapshot> = Option::None;
        let mut k: usize = 0;
        proof {
            assert(snaps.subrange(0, 0) =~= Seq::<SnapshotView>::empty());
        }
        while k < n
            invariant
                k <= n,
                n == self@.snapshots.len(),
                snaps == self@.snapshots,
                id == article@.article_id,
                match best {
                    Option::Some(b) => youngest(snaps.subrange(0, k as int), id) == Option::Some(
                        b@,
                    ),
                    Option::None => youngest(snaps.subrange(0, k as int), id) is None,
                },
            decreases n - k,
        {
            let s = &self.snapshots[k];
            proof {
                assert(self@.snapshots[k as int] == self.snapshots@[k as int]@);
                let upto = snaps.subrange(0, k as int + 1);
                assert(upto.drop_last() =~= snaps.subrange(0, k as int));
                assert(upto.last() == snaps[k as int]);
            }
            if s.article_id == article.article_id {
                let take_it = match &best {
                    Option::None => true,
                    Option::Some(b) => s.archived_at >= b.archived_at,
                };
                if take_it {
                    best = Option::Some(
                        Snapshot {
                            article_id: s.article_id,
                            snapshot_id: s.snapshot_id,
                            archived_at: s.archived_at,
                            html: s.html.clone(),
                        },
                    );
                }
            }
            k = k + 1;
        }
        proof {
            assert(snaps.subrange(0, n as int) =~= snaps);
        }
        best
    }
}


/// The staleness order: older attempt stamps first, ties broken towards the
/// lower article id.
pub open spec fn staler(a: ArticleView, b: ArticleView) -> bool {
    a.updated_at < b.updated_at || (a.updated_at == b.updated_at && a.article_id < b.article_id)
}

/// Places `a` in an ordered sequence, before the first element it is staler
/// than.
pub open spec fn insert_ordered(a: ArticleView, s: Seq<ArticleView>) -> Seq<ArticleView>
    decreases s.len(),
{
    if s.len() == 0 {
        seq![a]
    } else if staler(a, s[0]) {
        seq![a] + s
    } else {
        seq![s[0]] + insert_ordered(a, s.subrange(1, s.len() as int))
    }
}

/// The articles ordered by staleness: ascending attempt stamp, ties broken
/// towards the lower article id.
pub open spec fn sorted_by_staleness(s: Seq<ArticleView>) -> Seq<ArticleView>
    decreases s.len(),
{
    if s.len() == 0 {
        Seq::empty()
    } else {
        insert_ordered(s.last(), sorted_by_staleness(s.drop_last()))
    }
}

/// `insert_ordered` grows the sequence by one.
proof fn lemma_insert_ordered_len(a: ArticleView, s: Seq<ArticleView>)
    ensures
        insert_ordered(a, s).len() == s.len() + 1,
    decreases s.len(),
{
    if s.len() == 0 {
    } else if staler(a, s[0]) {
    } else {
        lemma_insert_ordered_len(a, s.subrange(1, s.len() as int));
    }
}

/// Ordering by staleness keeps the number of articles.
pub proof fn lemma_sorted_len(s: Seq<ArticleView>)
    ensures
        sorted_by_staleness(s).len() == s.len(),
    decreases s.len(),
{
    if s.len() > 0 {
        lemma_sorted_len(s.drop_last());
        lemma_insert_ordered_len(s.last(), sorted_by_staleness(s.drop_last()));
    }
}

/// Inserting at the first position whose element `a` is staler than yields
/// `insert_ordered`.
proof fn lemma_insert_ordered_at(a: ArticleView, s: Seq<ArticleView>, p: int)
    requires
        0 <= p <= s.len(),
        forall|q: int| 0 <= q < p ==> !staler(a, #[trigger] s[q]),
        p < s.len() ==> staler(a, s[p]),
    ensures
        insert_ordered(a, s) == s.insert(p, a),
    decreases s.len(),
{
    if s.len() == 0 {
        assert(s.insert(0, a) =~= seq![a]);
    } else if staler(a, s[0]) {
        assert(p == 0);
        assert(s.insert(0, a) =~= seq![a] + s);
    } else {
        assert(p >= 1);
        let rest = s.subrange(1, s.len() as int);
        assert(forall|q: int| 0 <= q < p - 1 ==> !staler(a, #[trigger] rest[q]));
        lemma_insert_ordered_at(a, rest, p - 1);
        assert(insert_ordered(a, s) == seq![s[0]] + rest.insert(p - 1, a));
        assert(seq![s[0]] + rest.insert(p - 1, a) =~= s.insert(p, a));
    }
}

/// Decides the staleness order on concrete articles.
pub fn staler_exec(a: &Article, b: &Article) -> (r: bool)
    ensures
        r == staler(a@, b@),
{
    a.updated_at < b.updated_at || (a.updated_at == b.updated_at && a.article_id < b.article_id)
}

impl Store {
    /// All tracked articles ordered by staleness.
    fn sorted_articles(&self) -> (r: Vec<Article>)
        ensures
            r@.map_values(|a: Article| a@) == sorted_by_staleness(self@.articles),
    {
        let ghost arts = self@.articles;
        let n = self.articles.len();
        let mut out: Vec<Article> = Vec::new();
        let mut i: usize = 0;
        proof {
            assert(arts.subrange(0, 0) =~= Seq::<ArticleView>::empty());
            assert(out@.map_values(|a: Article| a@) =~= Seq::<ArticleView>::empty());
        }
        while i < n
            invariant
                i <= n,
                n == self@.articles.len(),
                arts == self@.articles,
                out@.map_values(|a: Article| a@) == sorted_by_staleness(arts.subrange(0, i as int)),
            decreases n - i,
        {
            let src = &self.articles[i];
            let a = Article {
                url: src.url.clone(),
                article_id: src.article_id,
                updated_at: src.updated_at,
            };
            proof {
                assert(self@.articles[i as int] == self.articles@[i as int]@);
                assert(a@ == arts[i as int]);
            }
            let ghost sorted_prefix = out@.map_values(|x: Article| x@);
            let m = out.len();
            let mut p: usize = 0;
            while p < m && !staler_exec(&a, &out[p])
                invariant
                    p <= m,
                    m == out@.len(),
                    a@ == arts[i as int],
                    sorted_prefix == out@.map_values(|x: Article| x@),
                    forall|q: int| 0 <= q < p ==> !staler(a@, #[trigger] sorted_prefix[q]),
                decreases m - p,
            {
                proof {
                    assert(sorted_prefix[p as int] == out@[p as int]@);
                }
                p = p + 1;
            }
            proof {
                if p < m {
                    assert(sorted_prefix[p as int] == out@[p as int]@);
                }
                lemma_insert_ordered_at(a@, sorted_prefix, p as int);
            }
            out.insert(p, a);
            proof {
                let upto = arts.subrange(0, i as int + 1);
                assert(upto.drop_last() =~= arts.subrange(0, i as int));
                assert(upto.last() == arts[i as int]);
                assert(out@.map_values(|x: Article| x@) =~= sorted_prefix.insert(
                    p as int,
                    arts[i as int],
                ));
            }
            i = i + 1;
        }
        proof {
            assert(arts.subrange(0, n as int) =~= arts);
        }
        out
    }

    /// The `limit` most stale articles, most stale first.  A negative limit
    /// means no limit, as the storage engine treated it.
    pub fn get_outdated_articles(&self, limit: i32) -> (r: Vec<Article>)
        requires
            self.wf(),
        ensures
            r@.map_values(|a: Article| a@) == sorted_by_staleness(self@.articles).take(
                if limit < 0 || limit as int > self@.articles.len() {
                    self@.articles.len() as int
                } else {
                    limit as int
                },
            ),
    {
        let sorted = self.sorted_articles();
        let ghost whole = sorted@.map_values(|a: Article| a@);
        proof {
            lemma_sorted_len(self@.articles);
        }
        let n = sorted.len();
        let lim: usize = if limit < 0 || (limit as usize) > n {
            n
        } else {
            limit as usize
        };
        let mut r: Vec<Article> = Vec::new();
        let mut k: usize = 0;
        proof {
            assert(r@.map_values(|a: Article| a@) =~= whole.subrange(0, 0));
        }
        while k < lim
            invariant
                k <= lim <= n,
                n == sorted@.len(),
                whole == sorted@.map_values(|a: Article| a@),
                r@.map_values(|a: Article| a@) == whole.subrange(0, k as int),
            decreases lim - k,
        {
            let src = &sorted[k];
            let ghost old_r = r@;
            r.push(
                Article { url: src.url.clone(), article_id: src.article_id, updated_at: src.updated_at },
            );
            proof {
                let f = |a: Article| a@;
                assert(whole[k as int] == sorted@[k as int]@);
                assert(r@.map_values(f) =~= old_r.map_values(f).push(whole[k as int]));
                assert(whole.subrange(0, k as int).push(whole[k as int]) =~= whole.subrange(
                    0,
                    k as int + 1,
                ));
            }
            k = k + 1;
        }
        proof {
            assert(whole.subrange(0, lim as int) =~= whole.take(lim as int));
        }
        r
    }

    /// A window of the staleness-ordered articles: at most `limit` of them,
    /// skipping the first `offset`.  A negative offset counts as 0; a
    /// negative limit means no limit.
    pub fn get_articles(&self, offset: i32, limit: i32) -> (r: Vec<Article>)
        requires
            self.wf(),
        ensures
            r@.map_values(|a: Article| a@) == ({
                let len = self@.articles.len() as int;
                let o = if offset < 0 { 0 } else if offset as int > len { len } else { offset as int };
                let e = if limit < 0 || o + limit > len { len } else { o + limit };
                sorted_by_staleness(self@.articles).subrange(o, e)
            }),
    {
        let sorted = self.sorted_articles();
        let ghost whole = sorted@.map_values(|a: Article| a@);
        proof {
            lemma_sorted_len(self@.articles);
        }
        let n = sorted.len();
        let o: usize = if offset < 0 {
            0
        } else if (offset as usize) > n {
            n
        } else {
            offset as usize
        };
        let e: usize = if limit < 0 || (limit as usize) > n - o {
            n
        } else {
            o + (limit as usize)
        };
        let mut r: Vec<Article> = Vec::new();
        let mut k: usize = o;
        proof {
            assert(r@.map_values(|a: Article| a@) =~= whole.subrange(o as int, o as int));
        }
        while k < e
            invariant
                o <= k <= e <= n,
                n == sorted@.len(),
                whole == sorted@.map_values(|a: Article| a@),
                r@.map_values(|a: Article| a@) == whole.subrange(o as int, k as int),
            decreases e - k,
        {
            let src = &sorted[k];
            let ghost old_r = r@;
            r.push(
                Article { url: src.url.clone(), article_id: src.article_id, updated_at: src.updated_at },
            );
            proof {
                let f = |a: Article| a@;
                assert(whole[k as int] == sorted@[k as int]@);
                assert(r@.map_values(f) =~= old_r.map_values(f).push(whole[k as int]));
                assert(whole.subrange(o as int, k as int).push(whole[k as int]) =~= whole.subrange(
                    o as int,
                    k as int + 1,
                ));
            }
            k = k + 1;
        }
        r
    }
}


/// Whether a sequence of articles stands in staleness order.
pub open spec fn ordered_by_staleness(s: Seq<ArticleView>) -> bool {
    forall|i: int, j: int| 0 <= i < j < s.len() ==> !staler(#[trigger] s[j], #[trigger] s[i])
}

/// What `insert_ordered` holds: one more element, namely `a` and everything
/// the sequence held before.
pub proof fn lemma_insert_ordered_contents(a: ArticleView, s: Seq<ArticleView>)
    ensures
        insert_ordered(a, s).len() == s.len() + 1,
        insert_ordered(a, s).contains(a),
        forall|k: int|
            0 <= k < insert_ordered(a, s).len() ==> (#[trigger] insert_ordered(a, s)[k] == a
                || s.contains(insert_ordered(a, s)[k])),
        forall|m: int| 0 <= m < s.len() ==> insert_ordered(a, s).contains(#[trigger] s[m]),
    decreases s.len(),
{
    let ins = insert_ordered(a, s);
    if s.len() == 0 {
        assert(ins[0] == a);
        assert(ins.contains(a));
    } else if staler(a, s[0]) {
        assert(ins[0] == a);
        assert(ins.contains(a));
        assert forall|k: int| 0 <= k < ins.len() implies (#[trigger] ins[k] == a || s.contains(
            ins[k],
        )) by {
            if k >= 1 {
                assert(ins[k] == s[k - 1]);
                assert(s.contains(s[k - 1]));
            }
        }
        assert forall|m: int| 0 <= m < s.len() implies ins.contains(#[trigger] s[m]) by {
            assert(ins[m + 1] == s[m]);
        }
    } else {
        let rest = s.subrange(1, s.len() as int);
        lemma_insert_ordered_contents(a, rest);
        let ins2 = insert_ordered(a, rest);
        assert(forall|j: int| 0 <= j < rest.len() ==> #[trigger] rest[j] == s[j + 1]);
        assert(forall|k: int| 1 <= k < ins.len() ==> #[trigger] ins[k] == ins2[k - 1]);
        let w = choose|w: int| 0 <= w < ins2.len() && ins2[w] == a;
        assert(ins[w + 1] == a);
        assert(ins.contains(a));
        assert forall|k: int| 0 <= k < ins.len() implies (#[trigger] ins[k] == a || s.contains(
            ins[k],
        )) by {
            if k == 0 {
                assert(ins[0] == s[0]);
                assert(s.contains(s[0]));
            } else {
                assert(ins[k] == ins2[k - 1]);
                if ins2[k - 1] != a {
                    assert(rest.contains(ins2[k - 1]));
                    let m = choose|m: int| 0 <= m < rest.len() && rest[m] == ins2[k - 1];
                    assert(s[m + 1] == ins2[k - 1]);
                    assert(s.contains(s[m + 1]));
                }
            }
        }
        assert forall|m: int| 0 <= m < s.len() implies ins.contains(#[trigger] s[m]) by {
            if m == 0 {
                assert(ins[0] == s[0]);
            } else {
                assert(rest[m - 1] == s[m]);
                assert(ins2.contains(rest[m - 1]));
                let w2 = choose|w2: int| 0 <= w2 < ins2.len() && ins2[w2] == rest[m - 1];
                assert(ins[w2 + 1] == s[m]);
            }
        }
    }
}

/// `insert_ordered` keeps the staleness order.
pub proof fn lemma_insert_ordered_keeps_order(a: ArticleView, s: Seq<ArticleView>)
    requires
        ordered_by_staleness(s),
    ensures
        ordered_by_staleness(insert_ordered(a, s)),
    decreases s.len(),
{
    let ins = insert_ordered(a, s);
    if s.len() == 0 {
    } else if staler(a, s[0]) {
        assert forall|i: int, j: int| 0 <= i < j < ins.len() implies !staler(
            #[trigger] ins[j],
            #[trigger] ins[i],
        ) by {
            assert(ins[j] == s[j - 1]);
            if i == 0 {
                if j > 1 {
                    assert(!staler(s[j - 1], s[0]));
                }
            } else {
                assert(ins[i] == s[i - 1]);
            }
        }
    } else {
        let rest = s.subrange(1, s.len() as int);
        assert(forall|j: int| 0 <= j < rest.len() ==> #[trigger] rest[j] == s[j + 1]);
        lemma_insert_ordered_keeps_order(a, rest);
        lemma_insert_ordered_contents(a, rest);
        let ins2 = insert_ordered(a, rest);
        assert(forall|k: int| 1 <= k < ins.len() ==> #[trigger] ins[k] == ins2[k - 1]);
        assert forall|i: int, j: int| 0 <= i < j < ins.len() implies !staler(
            #[trigger] ins[j],
            #[trigger] ins[i],
        ) by {
            if i == 0 {
                assert(ins[0] == s[0]);
                assert(ins[j] == ins2[j - 1]);
                if ins2[j - 1] == a {
                    assert(!staler(a, s[0]));
                } else {
                    assert(rest.contains(ins2[j - 1]));
                    let m = choose|m: int| 0 <= m < rest.len() && rest[m] == ins2[j - 1];
                    assert(rest[m] == s[m + 1]);
                    assert(!staler(s[m + 1], s[0]));
                }
            } else {
                assert(ins[i] == ins2[i - 1] && ins[j] == ins2[j - 1]);
            }
        }
    }
}

/// What the staleness-ordered listing holds: as many articles as the store,
/// in staleness order, and exactly the stored ones.
pub proof fn lemma_sorted_by_staleness_props(s: Seq<ArticleView>)
    ensures
        sorted_by_staleness(s).len() == s.len(),
        ordered_by_staleness(sorted_by_staleness(s)),
        forall|k: int|
            0 <= k < s.len() ==> s.contains(#[trigger] sorted_by_staleness(s)[k]),
        forall|m: int| 0 <= m < s.len() ==> sorted_by_staleness(s).contains(#[trigger] s[m]),
    decreases s.len(),
{
    lemma_sorted_len(s);
    if s.len() > 0 {
        let d = s.drop_last();
        let sd = sorted_by_staleness(d);
        let a = s.last();
        lemma_sorted_by_staleness_props(d);
        lemma_sorted_len(d);
        lemma_insert_ordered_keeps_order(a, sd);
        lemma_insert_ordered_contents(a, sd);
        let out = sorted_by_staleness(s);
        assert(forall|j: int| 0 <= j < d.len() ==> #[trigger] d[j] == s[j]);
        assert forall|k: int| 0 <= k < s.len() implies s.contains(#[trigger] out[k]) by {
            if out[k] == a {
                assert(s[s.len() - 1] == a);
            } else {
                assert(sd.contains(out[k]));
                let w = choose|w: int| 0 <= w < sd.len() && sd[w] == out[k];
                assert(d.contains(sd[w]));
                let m = choose|m: int| 0 <= m < d.len() && d[m] == sd[w];
                assert(s[m] == out[k]);
            }
        }
        assert forall|m: int| 0 <= m < s.len() implies out.contains(#[trigger] s[m]) by {
            if m == s.len() - 1 {
                assert(out.contains(a));
            } else {
                assert(d[m] == s[m]);
                assert(sd.contains(d[m]));
                let w = choose|w: int| 0 <= w < sd.len() && sd[w] == d[m];
                assert(out.contains(sd[w]));
            }
        }
    }
}

} // verus!
