use crate::editor::Search;
use fuzzy_matcher::skim::SkimMatcherV2;
use fuzzy_matcher::FuzzyMatcher;
use vstd::arithmetic::div_mod::lemma_fundamental_div_mod_converse;
use vstd::prelude::*;

verus! {

/// The score that the skim fuzzy matcher gives `choice` for `pattern`, or
/// `None` when `pattern` is not a subsequence of `choice`.
pub uninterp spec fn skim_score(choice: Seq<char>, pattern: Seq<char>) -> Option<i64>;

/// Relies on `fuzzy_matcher::skim::SkimMatcherV2::fuzzy_match`, with the
/// matcher's default settings: its result depends on the two strings alone,
/// and an empty pattern matches with score 0.
#[verifier::external_body]
fn fuzzy_score(choice: &str, pattern: &str) -> (r: Option<i64>)
    ensures
        r == skim_score(choice@, pattern@),
        pattern@.len() == 0 ==> r == Some(0i64),
{
    SkimMatcherV2::default().fuzzy_match(choice, pattern)
}

/// Ranking order of matches: higher score first, then lower index.
pub open spec fn precedes(a: (i64, usize), b: (i64, usize)) -> bool {
    a.0 > b.0 || (a.0 == b.0 && a.1 < b.1)
}

/// `r` lists `(score, index)` for every index whose score is `Some`, and
/// nothing else, in ranking order.
pub open spec fn is_ranking(scores: Seq<Option<i64>>, r: Seq<(i64, usize)>) -> bool {
    &&& forall|a: int, b: int| 0 <= a < b < r.len() ==> precedes(#[trigger] r[a], #[trigger] r[b])
    &&& forall|a: int| 0 <= a < r.len() ==> (#[trigger] r[a]).1 < scores.len() && scores[r[a].1 as int] == Some(r[a].0)
    &&& forall|i: int| 0 <= i < scores.len() && (#[trigger] scores[i]).is_some()
        ==> exists|a: int| 0 <= a < r.len() && (#[trigger] r[a]).1 == i
}

/// Scores of each option against the query.
pub open spec fn scores_of(options: Seq<Seq<char>>, query: Seq<char>) -> Seq<Option<i64>> {
    Seq::new(options.len(), |i: int| skim_score(options[i], query))
}

/// Ranks the scored options: `(score, index)` for each `Some` score,
/// highest score first, equal scores in index order.
pub fn rank(scores: &Vec<Option<i64>>) -> (r: Vec<(i64, usize)>)
    ensures
        is_ranking(scores@, r@),
{
    let mut r: Vec<(i64, usize)> = Vec::new();
    let mut i: usize = 0;
    while i < scores.len()
        invariant
            i <= scores@.len(),
            forall|a: int, b: int| 0 <= a < b < r@.len() ==> precedes(#[trigger] r@[a], #[trigger] r@[b]),
            forall|a: int| 0 <= a < r@.len() ==> (#[trigger] r@[a]).1 < i && scores@[r@[a].1 as int] == Some(r@[a].0),
            forall|j: int| 0 <= j < i && (#[trigger] scores@[j]).is_some()
                ==> exists|a: int| 0 <= a < r@.len() && (#[trigger] r@[a]).1 == j,
        decreases scores@.len() - i,
    {
        if let Some(s) = scores[i] {
            let mut p: usize = 0;
            while p < r.len() && r[p].0 >= s
                invariant
                    p <= r@.len(),
                    forall|q: int| 0 <= q < p ==> (#[trigger] r@[q]).0 >= s,
                decreases r@.len() - p,
            {
                p = p + 1;
            }
            let ghost old_r = r@;
            assert forall|q: int| p <= q < old_r.len() implies (#[trigger] old_r[q]).0 < s by {
                if q > p {
                    assert(precedes(old_r[p as int], old_r[q]));
                }
            }
            r.insert(p, (s, i));
            assert forall|a: int, b: int| 0 <= a < b < r@.len() implies precedes(#[trigger] r@[a], #[trigger] r@[b]) by {
                if b < p {
                    assert(r@[a] == old_r[a] && r@[b] == old_r[b]);
                } else if b == p {
                    assert(r@[a] == old_r[a]);
                } else if a < p {
                    assert(r@[a] == old_r[a] && r@[b] == old_r[b - 1]);
                } else if a == p {
                    assert(r@[b] == old_r[b - 1]);
                } else {
                    assert(r@[a] == old_r[a - 1] && r@[b] == old_r[b - 1]);
                }
            }
            assert forall|a: int| 0 <= a < r@.len() implies (#[trigger] r@[a]).1 < i + 1 && scores@[r@[a].1 as int] == Some(r@[a].0) by {
                if a < p {
                    assert(r@[a] == old_r[a]);
                } else if a > p {
                    assert(r@[a] == old_r[a - 1]);
                }
            }
            assert forall|j: int| 0 <= j < i + 1 && (#[trigger] scores@[j]).is_some()
                implies exists|a: int| 0 <= a < r@.len() && (#[trigger] r@[a]).1 == j by {
                if j == i {
                    assert(r@[p as int].1 == j);
                } else {
                    let a = choose|a: int| 0 <= a < old_r.len() && (#[trigger] old_r[a]).1 == j;
                    if a < p {
                        assert(r@[a] == old_r[a]);
                    } else {
                        assert(r@[a + 1] == old_r[a]);
                    }
                }
            }
        }
        i = i + 1;
    }
    r
}

/// Every index in order, each with score 0.
pub open spec fn in_order(n: nat) -> Seq<(i64, usize)> {
    Seq::new(n, |i: int| (0i64, i as usize))
}

/// When every score is 0, the ranking keeps the original order.
pub proof fn lemma_in_order_ranks_equal_scores(scores: Seq<Option<i64>>)
    requires
        scores.len() <= usize::MAX,
        forall|j: int| 0 <= j < scores.len() ==> #[trigger] scores[j] == Some(0i64),
    ensures
        is_ranking(scores, in_order(scores.len())),
{
    let r = in_order(scores.len());
    assert forall|i: int| 0 <= i < scores.len() && (#[trigger] scores[i]).is_some()
        implies exists|a: int| 0 <= a < r.len() && (#[trigger] r[a]).1 == i by {
        assert(r[i].1 == i);
    }
}

/// Two rankings of the same scores are the same sequence.
pub proof fn lemma_ranking_unique(scores: Seq<Option<i64>>, r1: Seq<(i64, usize)>, r2: Seq<(i64, usize)>)
    requires
        is_ranking(scores, r1),
        is_ranking(scores, r2),
    ensures
        r1 == r2,
    decreases r1.len() + r2.len(),
{
    if r1.len() == 0 && r2.len() == 0 {
        assert(r1 =~= r2);
    } else if r1.len() == 0 {
        let _ = scores[r2[0].1 as int];
    } else if r2.len() == 0 {
        let _ = scores[r1[0].1 as int];
    } else {
        let x = r1[0];
        let y = r2[0];
        let _ = scores[x.1 as int];
        let _ = scores[y.1 as int];
        let b = choose|b: int| 0 <= b < r2.len() && (#[trigger] r2[b]).1 == x.1;
        let a = choose|a: int| 0 <= a < r1.len() && (#[trigger] r1[a]).1 == y.1;
        assert(r2[b] == x);
        assert(r1[a] == y);
        if a > 0 && b > 0 {
            assert(precedes(r1[0], r1[a]));
            assert(precedes(r2[0], r2[b]));
        } else if a > 0 {
            assert(precedes(r1[0], r1[a]));
        } else if b > 0 {
            assert(precedes(r2[0], r2[b]));
        }
        assert(x == y);
        let rest = scores.update(x.1 as int, None);
        let t1 = r1.drop_first();
        let t2 = r2.drop_first();
        lemma_ranking_drop_first(scores, r1);
        lemma_ranking_drop_first(scores, r2);
        lemma_ranking_unique(rest, t1, t2);
        assert(r1 =~= seq![x] + t1);
        assert(r2 =~= seq![x] + t2);
    }
}

/// Without its first entry, a ranking ranks the scores with that entry's
/// score taken out.
proof fn lemma_ranking_drop_first(scores: Seq<Option<i64>>, r: Seq<(i64, usize)>)
    requires
        is_ranking(scores, r),
        r.len() > 0,
    ensures
        is_ranking(scores.update(r[0].1 as int, None), r.drop_first()),
{
    let x = r[0];
    let rest = scores.update(x.1 as int, None);
    let t = r.drop_first();
    assert forall|a: int, b: int| 0 <= a < b < t.len() implies precedes(#[trigger] t[a], #[trigger] t[b]) by {
        assert(t[a] == r[a + 1] && t[b] == r[b + 1]);
    }
    assert forall|a: int| 0 <= a < t.len() implies (#[trigger] t[a]).1 < rest.len() && rest[t[a].1 as int] == Some(t[a].0) by {
        assert(t[a] == r[a + 1]);
        assert(precedes(r[0], r[a + 1]));
        if r[a + 1].1 == x.1 {
            assert(scores[x.1 as int] == Some(x.0));
        }
    }
    assert forall|i: int| 0 <= i < rest.len() && (#[trigger] rest[i]).is_some()
        implies exists|a: int| 0 <= a < t.len() && (#[trigger] t[a]).1 == i by {
        assert(scores[i] == rest[i]);
        let a = choose|a: int| 0 <= a < r.len() && (#[trigger] r[a]).1 == i;
        assert(a != 0);
        assert(t[a - 1] == r[a]);
    }
}

/// The candidate list, the query line, the ranked matches of the last
/// `update`, and which match is selected.
pub struct Picker {
    pub search: Search,
    pub matches: Vec<(i64, usize)>,
    pub options: Vec<String>,
    pub selection: usize,
}

impl Picker {
    pub open spec fn options_view(&self) -> Seq<Seq<char>> {
        self.options@.map_values(|s: String| s@)
    }

    pub open spec fn matches_view(&self) -> Seq<(i64, usize)> {
        self.matches@
    }

    pub open spec fn selection_view(&self) -> nat {
        self.selection as nat
    }

    pub open spec fn wf(&self) -> bool {
        &&& self.search.wf()
        &&& self.selection_view() < if self.matches_view().len() == 0 { 1 } else { self.matches_view().len() }
        &&& forall|a: int| 0 <= a < self.matches_view().len() ==> (#[trigger] self.matches_view()[a]).1 < self.options_view().len()
    }

    /// The matches are the ranking of the options against the current query.
    pub open spec fn ranked(&self) -> bool {
        is_ranking(scores_of(self.options_view(), self.search.query_view()), self.matches_view())
    }

    /// A picker over `options` with an empty query and no matches until the
    /// first `update`.
    pub fn new(options: Vec<String>) -> (r: Picker)
        ensures
            r.wf(),
            r.options_view() == options@.map_values(|s: String| s@),
            r.search.query_view() == Seq::<char>::empty(),
            r.search.cursor_view() == 0,
            r.matches_view() == Seq::<(i64, usize)>::empty(),
            r.selection_view() == 0,
    {
        Picker { search: Search::new(), matches: Vec::new(), options, selection: 0 }
    }

    /// The query.
    pub fn query(&self) -> (r: &str)
        requires
            self.wf(),
        ensures
            r@ == self.search.query_view(),
    {
        self.search.as_str()
    }

    /// The cursor in the query.
    pub fn cursor(&self) -> (r: usize)
        ensures
            r as nat == self.search.cursor_view(),
    {
        self.search.cursor()
    }

    /// Ranks every option against the current query from scratch, and keeps
    /// the selection inside the new list.
    pub fn update(&mut self)
        requires
            old(self).wf(),
        ensures
            final(self).wf(),
            final(self).ranked(),
            final(self).search == old(self).search,
            final(self).options_view() == old(self).options_view(),
            old(self).search.query_view().len() == 0 ==> final(self).matches_view() == in_order(old(self).options_view().len()),
            final(self).selection_view() == if old(self).selection_view() < final(self).matches_view().len() {
                old(self).selection_view() as int
            } else if final(self).matches_view().len() == 0 {
                0
            } else {
                final(self).matches_view().len() - 1
            },
    {
        let ghost opts = self.options_view();
        let query = self.search.as_str();
        let mut scores: Vec<Option<i64>> = Vec::new();
        let mut i: usize = 0;
        while i < self.options.len()
            invariant
                i <= self.options@.len(),
                opts == self.options_view(),
                query@ == self.search.query_view(),
                scores@.len() == i,
                forall|j: int| 0 <= j < i ==> #[trigger] scores@[j] == skim_score(opts[j], query@),
                query@.len() == 0 ==> forall|j: int| 0 <= j < i ==> #[trigger] scores@[j] == Some(0i64),
            decreases self.options@.len() - i,
        {
            scores.push(fuzzy_score(self.options[i].as_str(), query));
            i = i + 1;
        }
        assert(scores@ =~= scores_of(opts, self.search.query_view()));
        let matches = rank(&scores);
        proof {
            if query@.len() == 0 {
                lemma_in_order_ranks_equal_scores(scores@);
                lemma_ranking_unique(scores@, matches@, in_order(scores@.len()));
            }
        }
        let n = matches.len();
        self.matches = matches;
        if self.selection >= n {
            self.selection = if n == 0 { 0 } else { n - 1 };
        }
    }

    /// Selects the next match, from the last back to the first.
    pub fn next(&mut self)
        requires
            old(self).wf(),
        ensures
            final(self).wf(),
            final(self).search == old(self).search,
            final(self).matches_view() == old(self).matches_view(),
            final(self).options_view() == old(self).options_view(),
            final(self).selection_view() == if old(self).matches_view().len() == 0 {
                old(self).selection_view() as int
            } else {
                (old(self).selection_view() as int + 1) % (old(self).matches_view().len() as int)
            },
    {
        let n = self.matches.len();
        if n > 0 {
            let ghost s = self.selection as int;
            self.selection = if self.selection + 1 >= n { 0 } else { self.selection + 1 };
            proof {
                if s + 1 >= n {
                    lemma_fundamental_div_mod_converse(s + 1, n as int, 1, 0);
                } else {
                    lemma_fundamental_div_mod_converse(s + 1, n as int, 0, s + 1);
                }
            }
        }
    }

    /// Selects the previous match, from the first round to the last.
    pub fn prev(&mut self)
        requires
            old(self).wf(),
        ensures
            final(self).wf(),
            final(self).search == old(self).search,
            final(self).matches_view() == old(self).matches_view(),
            final(self).options_view() == old(self).options_view(),
            final(self).selection_view() == if old(self).matches_view().len() == 0 {
                old(self).selection_view() as int
            } else {
                (old(self).selection_view() as int + old(self).matches_view().len() as int - 1) % (old(self).matches_view().len() as int)
            },
    {
        let n = self.matches.len();
        if n > 0 {
            let ghost s = self.selection as int;
            self.selection = if self.selection == 0 { n - 1 } else { self.selection - 1 };
            proof {
                if s == 0 {
                    lemma_fundamental_div_mod_converse(s + n - 1, n as int, 0, n - 1);
                } else {
                    lemma_fundamental_div_mod_converse(s + n - 1, n as int, 1, s - 1);
                }
            }
        }
    }

    /// Position of the selected match in the ranked list.
    pub fn selection_index(&self) -> (r: usize)
        ensures
            r as nat == self.selection_view(),
    {
        self.selection
    }

    /// The selected option, or `None` when nothing matches.
    pub fn selection(&self) -> (r: Option<&str>)
        requires
            self.wf(),
        ensures
            r.is_some() == (self.matches_view().len() > 0),
            r matches Some(s) ==> s@ == self.options_view()[self.matches_view()[self.selection_view() as int].1 as int],
    {
        if self.matches.len() == 0 {
            None
        } else {
            let i = self.matches[self.selection].1;
            Some(self.options[i].as_str())
        }
    }

    /// The first `count` matches, best first.
    pub fn get_matches(&self, count: usize) -> (r: Vec<&str>)
        requires
            self.wf(),
        ensures
            r@.len() == if count < self.matches_view().len() { count as int } else { self.matches_view().len() as int },
            forall|k: int| 0 <= k < r@.len() ==> (#[trigger] r@[k])@ == self.options_view()[self.matches_view()[k].1 as int],
    {
        let n = if count < self.matches.len() { count } else { self.matches.len() };
        let mut r: Vec<&str> = Vec::new();
        let mut k: usize = 0;
        while k < n
            invariant
                self.wf(),
                n <= self.matches_view().len(),
                k <= n,
                r@.len() == k,
                forall|j: int| 0 <= j < k ==> (#[trigger] r@[j])@ == self.options_view()[self.matches_view()[j].1 as int],
            decreases n - k,
        {
            let i = self.matches[k].1;
            r.push(self.options[i].as_str());
            k = k + 1;
        }
        r
    }
}

/// Calling `update` twice with no edit between gives the same matches: two
/// pickers over the same options and query whose matches are both ranked
/// hold the same matches.
pub proof fn lemma_update_idempotent(first: &Picker, second: &Picker)
    requires
        first.options_view() == second.options_view(),
        first.search.query_view() == second.search.query_view(),
        first.ranked(),
        second.ranked(),
    ensures
        first.matches_view() == second.matches_view(),
{
    lemma_ranking_unique(scores_of(first.options_view(), first.search.query_view()), first.matches_view(), second.matches_view());
}

} // verus!
